//! Distinct names: within every directory of a vault the entries have pairwise distinct names,
//! and the changes to the tree keep it so (a new entry when its name is not yet taken there).
use vstd::prelude::*;
use crate::vault::codec::name_field;
use crate::vault::entry::tree::{
    appended, child_index, delete_in, insert_in, lemma_child_index_from, lookup, next_block_after, siblings, update_at,
};
use crate::vault::entry::{with_name, with_next, DirectoryView, VaultEntryView};
use crate::vault::properties::{dir_at, distinct_names};

verus! {

/// Within every directory of the tree under `e` the entries have pairwise distinct names.
pub open spec fn names_distinct(e: VaultEntryView) -> bool
    decreases e,
{
    match e {
        VaultEntryView::Directory(d) => {
            &&& distinct_names(d.children)
            &&& forall|i: int| 0 <= i < d.children.len() ==> names_distinct(#[trigger] d.children[i])
        },
        _ => true,
    }
}

/// Setting an entry's `next` or name changes nothing inside it.
proof fn lemma_names_distinct_fields(e: VaultEntryView, next: i64, name: Seq<u8>)
    ensures
        names_distinct(with_next(e, next)) == names_distinct(e),
        names_distinct(with_name(e, name)) == names_distinct(e),
{
}

/// Taking an entry out keeps the names distinct.
pub proof fn lemma_deleted_names_distinct(d: DirectoryView, path: Seq<Seq<char>>)
    requires
        names_distinct(VaultEntryView::Directory(d)),
    ensures
        names_distinct(VaultEntryView::Directory(delete_in(d, path))),
    decreases path.len(),
{
    if path.len() > 0 {
        if let Some(i) = child_index(d.children, path[0]) {
            lemma_child_index_from(d.children, name_field(path[0]), 0);
            let c = d.children;
            let c2 = delete_in(d, path).children;
            if path.len() == 1 {
                let nb = next_block_after(c, i);
                // the entry of `c` at place `j` of `c2`
                assert forall|j: int| 0 <= j < c2.len() implies (#[trigger] c2[j]).name() == c[if j < i { j } else {
                    j + 1
                }].name() && names_distinct(c2[j]) by {
                    if j < i {
                        if j == i - 1 {
                            assert(c2[j] == with_next(c[i - 1], nb));
                            lemma_names_distinct_fields(c[i - 1], nb, Seq::empty());
                        } else {
                            assert(c2[j] == c[j]);
                        }
                    } else {
                        assert(c2[j] == c[j + 1]);
                    }
                }
                assert forall|j: int, k: int| 0 <= j < k < c2.len() implies (#[trigger] c2[j]).name() != (
                #[trigger] c2[k]).name() by {
                    let mj = if j < i { j } else { j + 1 };
                    let mk = if k < i { k } else { k + 1 };
                    assert(c[mj].name() != c[mk].name());
                }
            } else if let VaultEntryView::Directory(sub) = c[i] {
                let rest = path.drop_first();
                lemma_deleted_names_distinct(sub, rest);
                lemma_delete_in_name(sub, rest);
                let y = VaultEntryView::Directory(delete_in(sub, rest));
                assert(c2 == c.update(i, y));
                assert forall|j: int, k: int| 0 <= j < k < c2.len() implies (#[trigger] c2[j]).name() != (
                #[trigger] c2[k]).name() by {
                    assert(c[j].name() != c[k].name());
                }
                assert forall|j: int| 0 <= j < c2.len() implies names_distinct(#[trigger] c2[j]) by {
                    if j != i {
                        assert(c2[j] == c[j]);
                    }
                }
            }
        }
    }
}

/// Taking an entry out keeps the name of every directory on the way.
proof fn lemma_delete_in_name(d: DirectoryView, path: Seq<Seq<char>>)
    ensures
        delete_in(d, path).name == d.name,
    decreases path.len(),
{
}

/// Renaming the entry at `path` to a name that none of its siblings has keeps the names
/// distinct.
pub proof fn lemma_renamed_names_distinct(
    d: DirectoryView,
    path: Seq<Seq<char>>,
    new_name: Seq<char>,
    f: spec_fn(VaultEntryView) -> VaultEntryView,
)
    requires
        names_distinct(VaultEntryView::Directory(d)),
        child_index(siblings(d.children, path), new_name) is None,
        forall|e: VaultEntryView| #[trigger] f(e) == with_name(e, name_field(new_name)),
    ensures
        names_distinct(VaultEntryView::Directory(DirectoryView { children: update_at(d.children, path, f), ..d })),
    decreases path.len(),
{
    if path.len() > 0 {
        if let Some(i) = child_index(d.children, path[0]) {
            lemma_child_index_from(d.children, name_field(path[0]), 0);
            let c = d.children;
            let c2 = update_at(c, path, f);
            if path.len() == 1 {
                let nf = name_field(new_name);
                lemma_child_index_from(c, nf, 0);
                assert(c2 == c.update(i, with_name(c[i], nf)));
                lemma_names_distinct_fields(c[i], 0, nf);
                assert forall|j: int, k: int| 0 <= j < k < c2.len() implies (#[trigger] c2[j]).name() != (
                #[trigger] c2[k]).name() by {
                    if j != i && k != i {
                        assert(c[j].name() != c[k].name());
                    }
                }
                assert forall|j: int| 0 <= j < c2.len() implies names_distinct(#[trigger] c2[j]) by {
                    if j != i {
                        assert(c2[j] == c[j]);
                    }
                }
            } else if let VaultEntryView::Directory(sub) = c[i] {
                let rest = path.drop_first();
                lemma_renamed_names_distinct(sub, rest, new_name, f);
                let y = VaultEntryView::Directory(DirectoryView { children: update_at(sub.children, rest, f), ..sub });
                assert(c2 == c.update(i, y));
                assert forall|j: int, k: int| 0 <= j < k < c2.len() implies (#[trigger] c2[j]).name() != (
                #[trigger] c2[k]).name() by {
                    assert(c[j].name() != c[k].name());
                }
                assert forall|j: int| 0 <= j < c2.len() implies names_distinct(#[trigger] c2[j]) by {
                    if j != i {
                        assert(c2[j] == c[j]);
                    }
                }
            }
        }
    }
}

/// Replacing the entry at `path` by `f` of it, where `f` keeps that entry's name and the names
/// inside it distinct, keeps the names distinct.
pub proof fn lemma_updated_names_distinct(d: DirectoryView, path: Seq<Seq<char>>, f: spec_fn(VaultEntryView) -> VaultEntryView)
    requires
        names_distinct(VaultEntryView::Directory(d)),
        lookup(d.children, path) matches Some(t) ==> f(t).name() == t.name() && (names_distinct(t) ==> names_distinct(
            f(t),
        )),
    ensures
        names_distinct(VaultEntryView::Directory(DirectoryView { children: update_at(d.children, path, f), ..d })),
    decreases path.len(),
{
    if path.len() > 0 {
        if let Some(i) = child_index(d.children, path[0]) {
            lemma_child_index_from(d.children, name_field(path[0]), 0);
            let c = d.children;
            let c2 = update_at(c, path, f);
            let y = if path.len() == 1 {
                f(c[i])
            } else {
                match c[i] {
                    VaultEntryView::Directory(sub) => {
                        lemma_updated_names_distinct(sub, path.drop_first(), f);
                        VaultEntryView::Directory(
                            DirectoryView { children: update_at(sub.children, path.drop_first(), f), ..sub },
                        )
                    },
                    _ => c[i],
                }
            };
            assert(c2 == c.update(i, y));
            assert(y.name() == c[i].name());
            assert(names_distinct(y));
            assert forall|j: int, k: int| 0 <= j < k < c2.len() implies (#[trigger] c2[j]).name() != (
            #[trigger] c2[k]).name() by {
                assert(c[j].name() != c[k].name());
            }
            assert forall|j: int| 0 <= j < c2.len() implies names_distinct(#[trigger] c2[j]) by {
                if j != i {
                    assert(c2[j] == c[j]);
                }
            }
        }
    }
}

/// Adding entry `e` (whose names are distinct) to the directory at `path` under a name that no
/// entry there has keeps the names distinct.
pub proof fn lemma_inserted_names_distinct(d: DirectoryView, path: Seq<Seq<char>>, e: VaultEntryView, name: Seq<char>)
    requires
        names_distinct(VaultEntryView::Directory(d)),
        names_distinct(e),
        dir_at(d, path) is Some,
        child_index(dir_at(d, path)->0.children, name) is None,
        e.name() == name_field(name),
        insert_in(d, path, e) is Some,
    ensures
        names_distinct(VaultEntryView::Directory(insert_in(d, path, e)->0)),
    decreases path.len(),
{
    let c = d.children;
    if path.len() == 0 {
        let nf = name_field(name);
        lemma_child_index_from(c, nf, 0);
        let c2 = appended(d, e).children;
        assert forall|j: int| 0 <= j < c2.len() implies (#[trigger] c2[j]).name() == (if j < c.len() {
            c[j].name()
        } else {
            nf
        }) && names_distinct(c2[j]) by {
            if j < c.len() {
                if j == c.len() - 1 {
                    assert(c2[j] == with_next(c.last(), e.block() as i64));
                    lemma_names_distinct_fields(c.last(), e.block() as i64, Seq::empty());
                } else {
                    assert(c2[j] == c[j]);
                }
            } else {
                assert(c2[j] == e);
            }
        }
        assert forall|j: int, k: int| 0 <= j < k < c2.len() implies (#[trigger] c2[j]).name() != (
        #[trigger] c2[k]).name() by {
            if k < c.len() {
                assert(c[j].name() != c[k].name());
            }
        }
    } else {
        let i = child_index(c, path[0])->0;
        lemma_child_index_from(c, name_field(path[0]), 0);
        if let VaultEntryView::Directory(sub) = c[i] {
            let rest = path.drop_first();
            assert(dir_at(sub, rest) == dir_at(d, path)) by {
                if rest.len() > 0 {
                    assert(lookup(c, path) == lookup(
                        sub.children,
                        rest,
                    ));
                }
            }
            lemma_inserted_names_distinct(sub, rest, e, name);
            lemma_insert_in_name(sub, rest, e);
            let s2 = insert_in(sub, rest, e)->0;
            let c2 = insert_in(d, path, e)->0.children;
            assert(c2 == c.update(i, VaultEntryView::Directory(s2)));
            assert forall|j: int, k: int| 0 <= j < k < c2.len() implies (#[trigger] c2[j]).name() != (
            #[trigger] c2[k]).name() by {
                assert(c[j].name() != c[k].name());
            }
            assert forall|j: int| 0 <= j < c2.len() implies names_distinct(#[trigger] c2[j]) by {
                if j != i {
                    assert(c2[j] == c[j]);
                }
            }
        }
    }
}

/// Adding an entry keeps the name of every directory on the way.
proof fn lemma_insert_in_name(d: DirectoryView, path: Seq<Seq<char>>, e: VaultEntryView)
    requires
        insert_in(d, path, e) is Some,
    ensures
        insert_in(d, path, e)->0.name == d.name,
    decreases path.len(),
{
}

} // verus!
