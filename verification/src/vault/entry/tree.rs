//! Lookups and changes of entries inside the directory tree of a vault, addressed by the names
//! on a path.
use vstd::prelude::*;
use vstd::utf8::encode_utf8;
use std::collections::VecDeque;
use crate::vault::codec::{be8, from_be8, name_field, pad_to, write_at};
use crate::vault::entry::{
    password_block_holds, spec_stored_secret, PasswordView, SecretView, secret_block_count, secret_padded_len,
    spec_build_password, spec_build_secret, spec_build_directory, PasswordEntry, SecretFileEntry,
    DIRENTRY_ENC_LENGTH, directory_plain, entry_block_bytes, occupied, occupied_children, with_next, blocks_valid, entry_plain, rewritten_entry_block, with_name, children_views, lemma_children_views, DirectoryEntry, DirectoryView, VaultEntry,
    VaultEntryView,
};
use crate::crypt::{aes256gcm_seal, spec_decrypt, AES_MAX_PLAINTEXT, AES_TAG_LENGTH, KEY_LENGTH};
use crate::vault::error::{EntryType, Operation, VaultChangeEntryError, BuildVaultError, NameLengthExceededError, VaultChangeError, VaultError, VaultFileError};
use crate::vault::manager::{NEXT_OFFSET, DATABLOCK_RAW_LENGTH, DIRENTRY_TYPE, PASSWORDENTRY_TYPE, SECRETENTRY_TYPE, DATABLOCK_LENGTH, VAULTENTRYNAME_LENGTH, VAULTNAME_LENGTH};
use crate::vault::utils::{block_offset, blocks_erased, in_blocks, lemma_same_outside_larger, same_outside, VaultContext, VaultPath, MAX_BLOCK_ID};

verus! {

broadcast use lemma_children_views;

/// The index of the first entry of `children`, at or after `from`, whose name field is `name`.
pub open spec fn child_index_from(children: Seq<VaultEntryView>, name: Seq<u8>, from: int) -> Option<int>
    decreases children.len() - from,
{
    if from < 0 || from >= children.len() {
        None
    } else if children[from].name() == name {
        Some(from)
    } else {
        child_index_from(children, name, from + 1)
    }
}

/// The index of the first entry of `children` named `name` (its name field is the name's
/// UTF-8 bytes padded with zeros).
pub open spec fn child_index(children: Seq<VaultEntryView>, name: Seq<char>) -> Option<int> {
    child_index_from(children, name_field(name), 0)
}

/// The entry that the names of `path` lead to, starting from `children`: each name but the
/// last must name a directory.
pub open spec fn lookup(children: Seq<VaultEntryView>, path: Seq<Seq<char>>) -> Option<VaultEntryView>
    decreases path.len(),
{
    if path.len() == 0 {
        None
    } else {
        match child_index(children, path[0]) {
            None => None,
            Some(i) => if path.len() == 1 {
                Some(children[i])
            } else {
                match children[i] {
                    VaultEntryView::Directory(d) => lookup(d.children, path.drop_first()),
                    _ => None,
                }
            },
        }
    }
}

/// The names of a path of string slices.
pub open spec fn path_names(path: Seq<&str>) -> Seq<Seq<char>> {
    path.map_values(|s: &str| s@)
}

/// A found index is the first index with that name.
pub proof fn lemma_child_index_from(children: Seq<VaultEntryView>, name: Seq<u8>, from: int)
    requires
        0 <= from,
    ensures
        child_index_from(children, name, from) matches Some(i) ==> from <= i < children.len()
            && children[i].name() == name && forall|j: int|
            from <= j < i ==> (#[trigger] children[j]).name() != name,
        child_index_from(children, name, from) is None ==> forall|j: int|
            from <= j < children.len() ==> (#[trigger] children[j]).name() != name,
    decreases children.len() - from,
{
    if from < children.len() {
        lemma_child_index_from(children, name, from + 1);
    }
}

/// Whether two name fields are equal.
fn names_equal(a: &[u8; VAULTENTRYNAME_LENGTH], b: &[u8; VAULTENTRYNAME_LENGTH]) -> (r: bool)
    ensures
        r == (a@ == b@),
{
    let mut i: usize = 0;
    while i < VAULTENTRYNAME_LENGTH
        invariant
            i <= VAULTENTRYNAME_LENGTH,
            forall|j: int| 0 <= j < i ==> a@[j] == b@[j],
        decreases VAULTENTRYNAME_LENGTH - i,
    {
        if a[i] != b[i] {
            return false;
        }
        i += 1;
    }
    assert(a@ =~= b@);
    true
}

/// The index of the first entry of `children` named `name`.
pub fn find_child(children: &Vec<VaultEntry>, name: &str) -> (r: Option<usize>)
    ensures
        match child_index(children_views(children@), name@) {
            Some(i) => r matches Some(j) && j == i,
            None => r is None,
        },
        r matches Some(i) ==> i < children@.len() && children@[i as int].eview().name() == name_field(name@),
{
    let ghost cs = children_views(children@);
    proof {
        lemma_child_index_from(cs, name_field(name@), 0);
    }
    let bytes = name.as_bytes();
    if bytes.len() > VAULTENTRYNAME_LENGTH {
        proof {
            lemma_child_index_from(cs, name_field(name@), 0);
            assert forall|j: int| 0 <= j < cs.len() implies (#[trigger] cs[j]).name() != name_field(name@) by {
                children@[j].lemma_name_len();
            }
            assert(child_index(cs, name@) is None) by {
                if child_index(cs, name@) is Some {
                    let k = child_index(cs, name@)->0;
                    children@[k].lemma_name_len();
                }
            }
        }
        return None;
    }
    let field = crate::vault::codec::name_buffer(name);
    let mut i: usize = 0;
    while i < children.len()
        invariant
            i <= children@.len(),
            cs == children_views(children@),
            field@ == name_field(name@),
            child_index(cs, name@) == child_index_from(cs, field@, i as int),
        decreases children@.len() - i,
    {
        if names_equal(children[i].name_ref(), &field) {
            return Some(i);
        }
        i += 1;
    }
    None
}

impl DirectoryEntry {
    /// Gets a reference to an entry that exists within the hierarchy of this directory: the names
    /// of `path` lead from this directory to it.
    /// Returns [`VaultError::EntryNotFound`] with `total_path` if there is no such entry.
    pub fn get_entry<'a>(&'a self, path: VecDeque<&str>, total_path: &VaultPath) -> (r: Result<
        &'a VaultEntry,
        VaultError,
    >)
        ensures
            match lookup(self.dview().children, path_names(path@)) {
                Some(e) => r matches Ok(x) && x.eview() == e,
                None => r matches Err(VaultError::EntryNotFound(p)) && p@ == total_path@,
            },
        decreases path@.len(),
    {
        let mut path = path;
        let ghost names = path_names(path@);
        let name = match path.pop_front() {
            None => return Err(VaultError::EntryNotFound(total_path.clone())),
            Some(n) => n,
        };
        assert(names[0] == name@);
        assert(path_names(path@) =~= names.drop_first());
        let children = self.get_children();
        let found = find_child(children, name);
        assert(children_views(children@) == self.dview().children);
        let child_id = match found {
            None => return Err(VaultError::EntryNotFound(total_path.clone())),
            Some(i) => i,
        };
        let entry = &children[child_id];
        assert(self.dview().children[child_id as int] == entry.eview());
        assert(child_index(self.dview().children, names[0]) == Some(child_id as int));
        if path.len() == 0 {
            assert(names.len() == 1);
            Ok(entry)
        } else {
            match entry {
                VaultEntry::Directory(dir) => dir.get_entry(path, total_path),
                _ => Err(VaultError::EntryNotFound(total_path.clone())),
            }
        }
    }
}

impl DirectoryEntry {
    /// Gets a mutable reference to an entry that exists within the hierarchy of this directory:
    /// the names of `path` lead from this directory to it.
    /// Returns [`VaultError::EntryNotFound`] with `total_path` if there is no such entry.
    pub fn get_entry_mut<'a>(&'a mut self, path: VecDeque<&str>, total_path: &VaultPath) -> (r: Result<
        &'a mut VaultEntry,
        VaultError,
    >)
        ensures
            match lookup(old(self).dview().children, path_names(path@)) {
                Some(e) => r matches Ok(x) && x.eview() == e,
                None => r matches Err(VaultError::EntryNotFound(p)) && p@ == total_path@,
            },
            r matches Ok(x) ==> final(self).dview() == (DirectoryView {
                children: update_at(old(self).dview().children, path_names(path@), |e: VaultEntryView| final(x).eview()),
                ..old(self).dview()
            }),
            r is Err ==> final(self).dview() == old(self).dview(),
        decreases path@.len(),
    {
        let mut path = path;
        let ghost names = path_names(path@);
        let name = match path.pop_front() {
            None => return Err(VaultError::EntryNotFound(total_path.clone())),
            Some(n) => n,
        };
        assert(names[0] == name@);
        assert(path_names(path@) =~= names.drop_first());
        let found = find_child(&self.children, name);
        let child_id = match found {
            None => return Err(VaultError::EntryNotFound(total_path.clone())),
            Some(i) => i,
        };
        proof {
            use_type_invariant(&*self);
            assert(child_index(self.dview().children, names[0]) == Some(child_id as int));
        }
        if path.len() > 0 && !self.children[child_id].is_directory() {
            return Err(VaultError::EntryNotFound(total_path.clone()));
        }
        let ghost v0 = self.children@;
        let ghost d0 = self.dview();
        let entry = &mut self.children[child_id];
        if path.len() == 0 {
            assert(names.len() == 1);
            proof {
                assert(children_views(v0.update(child_id as int, *final(entry))) =~= children_views(v0).update(
                    child_id as int,
                    final(entry).eview(),
                ));
            }
            Ok(entry)
        } else {
            assert(names.len() > 1);
            match entry {
                VaultEntry::Directory(dir) => {
                    let ghost fd = *final(dir);
                    let res = dir.get_entry_mut(path, total_path);
                    proof {
                        let fe = VaultEntry::Directory(fd);
                        assert(children_views(v0.update(child_id as int, fe)) =~= children_views(v0).update(
                            child_id as int,
                            fe.eview(),
                        ));
                        if res is Err {
                            assert(children_views(v0).update(child_id as int, fe.eview()) =~= children_views(v0));
                        }
                    }
                    res
                },
                _ => {
                    assert(false);
                    Err(VaultError::EntryNotFound(total_path.clone()))
                },
            }
        }
    }
}

/// The entries after the entry at `path` was replaced by `f` of it; unchanged when the path
/// leads nowhere.
pub open spec fn update_at(
    children: Seq<VaultEntryView>,
    path: Seq<Seq<char>>,
    f: spec_fn(VaultEntryView) -> VaultEntryView,
) -> Seq<VaultEntryView>
    decreases path.len(),
{
    if path.len() == 0 {
        children
    } else {
        match child_index(children, path[0]) {
            None => children,
            Some(i) => if path.len() == 1 {
                children.update(i, f(children[i]))
            } else {
                match children[i] {
                    VaultEntryView::Directory(d) => children.update(
                        i,
                        VaultEntryView::Directory(
                            DirectoryView { children: update_at(d.children, path.drop_first(), f), ..d },
                        ),
                    ),
                    _ => children,
                }
            },
        }
    }
}

/// The entries of the directory that holds the entry at `path` (the path without its last
/// name leads to that directory).
pub open spec fn siblings(children: Seq<VaultEntryView>, path: Seq<Seq<char>>) -> Seq<VaultEntryView>
    decreases path.len(),
{
    if path.len() <= 1 {
        children
    } else {
        match child_index(children, path[0]) {
            Some(i) => match children[i] {
                VaultEntryView::Directory(d) => siblings(d.children, path.drop_first()),
                _ => Seq::empty(),
            },
            None => Seq::empty(),
        }
    }
}

/// Taking an entry out of a vector and putting another in its place replaces its view.
proof fn lemma_views_replace(v: Seq<VaultEntry>, i: int, x: VaultEntry)
    requires
        0 <= i < v.len(),
    ensures
        children_views(v.remove(i).insert(i, x)) == children_views(v).update(i, x.eview()),
{
    assert(children_views(v.remove(i).insert(i, x)) =~= children_views(v).update(i, x.eview()));
}


/// The vault file after the entry block of `e` was rewritten in place (see
/// `rewritten_entry_block`).
pub open spec fn renamed_in_file(before: Seq<u8>, after: Seq<u8>, e: VaultEntryView, key: Seq<u8>) -> bool {
    rewritten_entry_block(before, after, e.block(), entry_plain(e).0, e.next(), entry_plain(e).1, key)
}

impl DirectoryEntry {
    /// Renames the entry at `path` (the names leading from this directory to it) to `new_name`,
    /// which no other entry of its directory may have, and rewrites its entry block.
    pub fn rename_entry(
        &mut self,
        path: VecDeque<&str>,
        total_path: &VaultPath,
        new_name: String,
        context: &mut VaultContext,
        key: &[u8],
    ) -> (r: Result<(), VaultChangeError>)
        requires
            key@.len() == KEY_LENGTH,
            blocks_valid(VaultEntryView::Directory(old(self).dview())),
            old(context).file().len() + DATABLOCK_LENGTH <= usize::MAX,
        ensures
            lookup(old(self).dview().children, path_names(path@)) is None ==> (r matches Err(
                VaultChangeError::VaultError(VaultError::EntryNotFound(p)),
            ) && p@ == total_path@ && final(self).dview() == old(self).dview() && *final(context)
                == *old(context)),
            lookup(old(self).dview().children, path_names(path@)) is Some && encode_utf8(new_name@).len()
                > VAULTNAME_LENGTH ==> (r matches Err(VaultChangeError::VaultError(VaultError::NameError(e))) && e.len
                == encode_utf8(new_name@).len() && final(self).dview() == old(self).dview() && *final(context)
                == *old(context)),
            lookup(old(self).dview().children, path_names(path@)) is Some && encode_utf8(new_name@).len()
                <= VAULTNAME_LENGTH && child_index(siblings(old(self).dview().children, path_names(path@)), new_name@)
                is Some ==> (r matches Err(VaultChangeError::VaultError(VaultError::DuplicateEntry(n)))
                && n@ == new_name@ && final(self).dview() == old(self).dview() && *final(context) == *old(context)),
            lookup(old(self).dview().children, path_names(path@)) is Some && encode_utf8(new_name@).len()
                <= VAULTNAME_LENGTH && child_index(siblings(old(self).dview().children, path_names(path@)), new_name@)
                is None ==> (r is Ok && final(self).dview() == DirectoryView {
                children: update_at(
                    old(self).dview().children,
                    path_names(path@),
                    |e: VaultEntryView| with_name(e, name_field(new_name@)),
                ),
                ..old(self).dview()
            } && final(context).empty() == old(context).empty() && renamed_in_file(
                old(context).file(),
                final(context).file(),
                with_name(lookup(old(self).dview().children, path_names(path@))->0, name_field(new_name@)),
                key@,
            )),
        decreases path@.len(),
    {
        proof {
            use_type_invariant(&*self);
        }
        let ghost cs = self.dview().children;
        let ghost v0 = self.children@;
        let mut path = path;
        let ghost names = path_names(path@);
        let name = match path.pop_front() {
            None => return Err(VaultChangeError::VaultError(VaultError::EntryNotFound(total_path.clone()))),
            Some(n) => n,
        };
        assert(names[0] == name@);
        assert(path_names(path@) =~= names.drop_first());
        let i = match find_child(&self.children, name) {
            None => return Err(VaultChangeError::VaultError(VaultError::EntryNotFound(total_path.clone()))),
            Some(i) => i,
        };
        assert(blocks_valid(cs[i as int]));
        if path.len() == 0 {
            let name_len = new_name.as_str().as_bytes().len();
            if name_len > VAULTNAME_LENGTH {
                return Err(
                    VaultChangeError::VaultError(VaultError::NameError(NameLengthExceededError { len: name_len })),
                );
            }
            if find_child(&self.children, new_name.as_str()).is_some() {
                return Err(VaultChangeError::VaultError(VaultError::DuplicateEntry(new_name)));
            }
            let mut children: Vec<VaultEntry> = Vec::new();
            std::mem::swap(&mut children, &mut self.children);
            let mut child = children.remove(i);
            let _ = child.rename(new_name, key, context);
            children.insert(i, child);
            self.children = children;
            proof {
                lemma_views_replace(v0, i as int, child);
                assert(names.len() == 1);
                assert(child_index(cs, names[0]) == Some(i as int));
                assert(lookup(cs, names) == Some(cs[i as int]));
                assert(siblings(cs, names) == cs);
                assert(self.dview().children == cs.update(i as int, with_name(cs[i as int], name_field(new_name@))));
                assert(update_at(cs, names, |e: VaultEntryView| with_name(e, name_field(new_name@))) == cs.update(i as int, with_name(cs[i as int], name_field(new_name@))));
            }
            Ok(())
        } else {
            let mut children: Vec<VaultEntry> = Vec::new();
            std::mem::swap(&mut children, &mut self.children);
            let child = children.remove(i);
            match child {
                VaultEntry::Directory(mut dir) => {
                    let res = dir.rename_entry(path, total_path, new_name, context, key);
                    children.insert(i, VaultEntry::Directory(dir));
                    self.children = children;
                    proof {
                        lemma_views_replace(v0, i as int, VaultEntry::Directory(dir));
                        assert(self.children@ =~= v0.remove(i as int).insert(i as int, VaultEntry::Directory(dir)));
                        assert(names.len() > 1);
                        assert(child_index(cs, names[0]) == Some(i as int));
                        let od = cs[i as int]->Directory_0;
                        assert(lookup(cs, names) == lookup(od.children, names.drop_first()));
                        assert(siblings(cs, names) == siblings(od.children, names.drop_first()));
                        assert(cs.update(i as int, cs[i as int]) =~= cs);
                    }
                    res
                },
                other => {
                    children.insert(i, other);
                    self.children = children;
                    proof {
                        assert(self.children@ =~= v0);
                    }
                    Err(VaultChangeError::VaultError(VaultError::EntryNotFound(total_path.clone())))
                },
            }
        }
    }
}

/// The block of the entry after the one at index `i` (-1 when it is the last).
pub open spec fn next_block_after(children: Seq<VaultEntryView>, i: int) -> i64 {
    if i + 1 < children.len() {
        children[i + 1].block() as i64
    } else {
        -1i64
    }
}

/// The directory after the entry at `path` was taken out of it: the entry before it (or the
/// directory itself, for its first entry) then points to the entry after it.
pub open spec fn delete_in(d: DirectoryView, path: Seq<Seq<char>>) -> DirectoryView
    decreases path.len(),
{
    if path.len() == 0 {
        d
    } else {
        match child_index(d.children, path[0]) {
            None => d,
            Some(i) => if path.len() == 1 {
                let nb = next_block_after(d.children, i);
                if i == 0 {
                    DirectoryView { first_child: nb, children: d.children.remove(0), ..d }
                } else {
                    DirectoryView {
                        children: d.children.update(i - 1, with_next(d.children[i - 1], nb)).remove(i),
                        ..d
                    }
                }
            } else {
                match d.children[i] {
                    VaultEntryView::Directory(sub) => DirectoryView {
                        children: d.children.update(
                            i,
                            VaultEntryView::Directory(delete_in(sub, path.drop_first())),
                        ),
                        ..d
                    },
                    _ => d,
                }
            },
        }
    }
}

/// Every block an entry occupies is a block id of at most `MAX_BLOCK_ID`.
pub proof fn lemma_occupied_bounded(e: VaultEntryView)
    requires
        blocks_valid(e),
    ensures
        forall|b: int| #[trigger] occupied(e).contains(b) ==> 0 <= b <= MAX_BLOCK_ID,
    decreases e, 0int,
{
    match e {
        VaultEntryView::Directory(d) => {
            lemma_occupied_children_bounded(d.children, d.children.len() as int);
            assert forall|b: int| #[trigger] occupied(e).contains(b) implies 0 <= b <= MAX_BLOCK_ID by {
                assert(occupied(e) == occupied_children(d.children, d.children.len() as int).insert(d.block as int));
            }
        },
        _ => {},
    }
}

proof fn lemma_occupied_children_bounded(s: Seq<VaultEntryView>, n: int)
    requires
        forall|i: int| 0 <= i < s.len() ==> blocks_valid(#[trigger] s[i]),
    ensures
        forall|b: int| #[trigger] occupied_children(s, n).contains(b) ==> 0 <= b <= MAX_BLOCK_ID,
    decreases s, n,
{
    if 0 < n <= s.len() {
        lemma_occupied_children_bounded(s, n - 1);
        lemma_occupied_bounded(s[n - 1]);
        assert forall|b: int| #[trigger] occupied_children(s, n).contains(b) implies 0 <= b <= MAX_BLOCK_ID by {
            assert(occupied_children(s, n) == occupied_children(s, n - 1).union(occupied(s[n - 1])));
            if occupied_children(s, n - 1).contains(b) {
            } else {
                assert(occupied(s[n - 1]).contains(b));
            }
        }
    }
}

/// `after` is `before` with the entry at place `i` of directory `d` unlinked: the entry before
/// it gets the entry block of the entry after it as `next` (-1 when it was the last); for the
/// first entry, the directory's own entry block is rewritten, sealed under `key` with that block
/// as its first entry (and opening the seal gives the fields back). A block that starts beyond
/// the end of the file is not written.
pub open spec fn unlinked(before: Seq<u8>, after: Seq<u8>, d: DirectoryView, i: int, key: Seq<u8>) -> bool {
    let next: i64 = if i + 1 < d.children.len() { d.children[i + 1].block() as i64 } else { -1i64 };
    if i == 0 {
        if block_offset(d.block as int) > before.len() {
            after == before
        } else {
            exists|bytes: Seq<u8>|
                #![trigger write_at(before, block_offset(d.block as int), bytes)]
                after == write_at(before, block_offset(d.block as int), bytes) && bytes.len() == DATABLOCK_LENGTH
                    && bytes == entry_block_bytes(
                    DIRENTRY_TYPE,
                    d.next,
                    bytes.subrange(9, 21),
                    aes256gcm_seal(key, bytes.subrange(9, 21), directory_plain(DirectoryView { first_child: next, ..d })),
                ) && spec_decrypt(
                    key,
                    bytes.subrange(9, 21),
                    aes256gcm_seal(key, bytes.subrange(9, 21), directory_plain(DirectoryView { first_child: next, ..d })),
                ) == Ok::<Seq<u8>, ()>(directory_plain(DirectoryView { first_child: next, ..d })) && aes256gcm_seal(
                    key,
                    bytes.subrange(9, 21),
                    directory_plain(DirectoryView { first_child: next, ..d }),
                ).len() == DIRENTRY_ENC_LENGTH + AES_TAG_LENGTH
        }
    } else {
        let off = block_offset(d.children[i - 1].block() as int);
        if off > before.len() {
            after == before
        } else {
            after == write_at(before, off + NEXT_OFFSET, be8(next as u64))
        }
    }
}

/// `after` is `before` with the entry at `path` (names from directory `d`) unlinked from its
/// directory (see `unlinked`).
pub open spec fn unlinked_at(before: Seq<u8>, after: Seq<u8>, d: DirectoryView, path: Seq<Seq<char>>, key: Seq<u8>) -> bool {
    let parent = dir_along(d, path.drop_last());
    match child_index(parent.children, path.last()) {
        Some(i) => unlinked(before, after, parent, i, key),
        None => after == before,
    }
}

impl DirectoryEntry {
    /// Deletes the entry at `path` (the names leading from this directory to it): the entry
    /// before it is pointed past it (for a first entry, the directory's own entry block is
    /// rewritten with the entry after it as its first entry), and every block it occupies is
    /// zeroed and becomes empty.
    #[verifier::spinoff_prover]
    #[verifier::rlimit(60)]
    pub fn delete_entry(
        &mut self,
        path: VecDeque<&str>,
        total_path: &VaultPath,
        context: &mut VaultContext,
        key: &[u8],
    ) -> (r: Result<(), VaultChangeError>)
        requires
            key@.len() == KEY_LENGTH,
            blocks_valid(VaultEntryView::Directory(old(self).dview())),
            old(context).empty().wf(),
            old(context).file().len() + DATABLOCK_LENGTH <= usize::MAX,
        ensures
            final(context).empty().wf(),
            lookup(old(self).dview().children, path_names(path@)) is None ==> (r matches Err(
                VaultChangeError::VaultError(VaultError::EntryNotFound(p)),
            ) && p@ == total_path@ && final(self).dview() == old(self).dview() && *final(context)
                == *old(context)),
            lookup(old(self).dview().children, path_names(path@)) is Some ==> ({
                let t = lookup(old(self).dview().children, path_names(path@))->0;
                &&& final(self).dview() == delete_in(old(self).dview(), path_names(path@))
                &&& r is Ok ==> final(context).empty()@ == old(context).empty()@.union(occupied(t))
                &&& r is Ok ==> blocks_erased(final(context).file(), occupied(t))
                &&& r is Ok ==> exists|mid: Seq<u8>|
                    unlinked_at(old(context).file(), mid, old(self).dview(), path_names(path@), key@) && same_outside(
                        mid,
                        final(context).file(),
                        occupied(t),
                    )
                &&& (forall|b: int| #[trigger] occupied(t).contains(b) ==> block_offset(b) <= old(
                    context,
                ).file().len()) ==> r is Ok
            }),
        decreases path@.len(),
    {
        proof {
            use_type_invariant(&*self);
        }
        let ghost d0 = self.dview();
        let ghost cs = self.dview().children;
        let ghost v0 = self.children@;
        let mut path = path;
        let ghost names = path_names(path@);
        let name = match path.pop_front() {
            None => return Err(VaultChangeError::VaultError(VaultError::EntryNotFound(total_path.clone()))),
            Some(n) => n,
        };
        assert(names[0] == name@);
        assert(path_names(path@) =~= names.drop_first());
        let i = match find_child(&self.children, name) {
            None => return Err(VaultChangeError::VaultError(VaultError::EntryNotFound(total_path.clone()))),
            Some(i) => i,
        };
        assert(blocks_valid(cs[i as int]));
        let mut children: Vec<VaultEntry> = Vec::new();
        std::mem::swap(&mut children, &mut self.children);
        assert(children@ == v0);
        assert(i < children@.len());
        if path.len() == 0 {
            let len = children.len();
            let next: i64 = if i + 1 < len {
                assert(blocks_valid(cs[i + 1]));
                children[i + 1].entry_block() as i64
            } else {
                -1
            };
            let ghost file0 = context.file();
            if i == 0 {
                self.first_child = next;
                let serialized = match self.serialize(key) {
                    Ok(b) => b,
                    Err(_) => {
                        assert(false);
                        self.children = children;
                        return Ok(());
                    },
                };
                let mut data: Vec<u8> = Vec::new();
                crate::vault::codec::put_slice(&mut data, &serialized);
                let ghost dd = data@;
                let _ = context.change_data(self.block, data);
                proof {
                    let nd = DirectoryView { first_child: next, ..d0 };
                    assert(directory_plain(self.dview()) == directory_plain(nd));
                    assert(dd == serialized@);
                    assert(self.dview().next == d0.next);
                    if block_offset(d0.block as int) <= file0.len() {
                        assert(context.file() == write_at(file0, block_offset(d0.block as int), dd));
                        assert(dd.len() == DATABLOCK_LENGTH);
                        assert(dd == entry_block_bytes(
                            DIRENTRY_TYPE,
                            d0.next,
                            dd.subrange(9, 21),
                            aes256gcm_seal(key@, dd.subrange(9, 21), directory_plain(nd)),
                        ));
                    }
                    assert(unlinked(file0, context.file(), d0, 0, key@));
                }
            } else {
                assert(blocks_valid(cs[i - 1]));
                let mut prev = children.remove(i - 1);
                let _ = prev.change_next(next, context);
                children.insert(i - 1, prev);
                proof {
                    lemma_views_replace(v0, i - 1, prev);
                }
            }
            let ghost v1 = children@;
            let entry = children.remove(i);
            self.children = children;
            proof {
                assert(children_views(self.children@) =~= children_views(v1).remove(i as int));
                if i == 0 {
                    assert(self.dview() == delete_in(d0, names));
                } else {
                    assert(children_views(v1) =~= cs.update(i - 1, with_next(cs[i - 1], next)));
                    assert(self.dview() == delete_in(d0, names));
                }
                lemma_occupied_bounded(entry.eview());
            }
            proof {
                assert(names.drop_last() =~= Seq::<Seq<char>>::empty());
                assert(names.last() == name@);
                assert(unlinked(file0, context.file(), d0, i as int, key@));
                assert(unlinked_at(file0, context.file(), d0, names, key@));
            }
            let ghost mid = context.file();
            let blocks = entry.occupied_blocks();
            match context.delete_blocks(blocks) {
                Ok(()) => {},
                Err(e) => return Err(VaultChangeError::FileChangeError(e)),
            }
            proof {
                assert(unlinked_at(file0, mid, d0, names, key@) && same_outside(mid, context.file(), occupied(entry.eview())));
            }
            Ok(())
        } else {
            let child = children.remove(i);
            match child {
                VaultEntry::Directory(mut dir) => {
                    let res = dir.delete_entry(path, total_path, context, key);
                    children.insert(i, VaultEntry::Directory(dir));
                    self.children = children;
                    proof {
                        lemma_views_replace(v0, i as int, VaultEntry::Directory(dir));
                        assert(cs.update(i as int, cs[i as int]) =~= cs);
                        let rest = names.drop_first();
                        if rest.len() > 0 {
                            assert(names.drop_last().drop_first() =~= rest.drop_last());
                            assert(names.drop_last()[0] == names[0]);
                            assert(names.last() == rest.last());
                            assert(dir_along(d0, names.drop_last()) == dir_along(
                                cs[i as int]->Directory_0,
                                rest.drop_last(),
                            ));
                        }
                    }
                    res
                },
                other => {
                    children.insert(i, other);
                    self.children = children;
                    proof {
                        assert(self.children@ =~= v0);
                    }
                    Err(VaultChangeError::VaultError(VaultError::EntryNotFound(total_path.clone())))
                },
            }
        }
    }
}

/// The directory with `e` appended as its last entry: the entry that was last (or the directory
/// itself, when it was empty) then points to `e`.
pub open spec fn appended(d: DirectoryView, e: VaultEntryView) -> DirectoryView {
    if d.children.len() == 0 {
        DirectoryView { first_child: e.block() as i64, children: seq![e], ..d }
    } else {
        DirectoryView {
            children: d.children.update(
                d.children.len() - 1,
                with_next(d.children.last(), e.block() as i64),
            ).push(e),
            ..d
        }
    }
}

/// The directory after `e` was appended to the directory that the names of `path` lead to
/// (the directory itself for an empty path); `None` when the path leads to no directory.
pub open spec fn insert_in(d: DirectoryView, path: Seq<Seq<char>>, e: VaultEntryView) -> Option<DirectoryView>
    decreases path.len(),
{
    if path.len() == 0 {
        Some(appended(d, e))
    } else {
        match child_index(d.children, path[0]) {
            None => None,
            Some(i) => match d.children[i] {
                VaultEntryView::Directory(sub) => match insert_in(sub, path.drop_first(), e) {
                    Some(s2) => Some(
                        DirectoryView { children: d.children.update(i, VaultEntryView::Directory(s2)), ..d },
                    ),
                    None => None,
                },
                _ => None,
            },
        }
    }
}

/// The directory the names of `path` lead to from `d`, each naming a directory (`d` itself for
/// an empty path; where a name leads to no directory, the last directory reached).
pub open spec fn dir_along(d: DirectoryView, path: Seq<Seq<char>>) -> DirectoryView
    decreases path.len(),
{
    if path.len() == 0 {
        d
    } else {
        match child_index(d.children, path[0]) {
            Some(i) => match d.children[i] {
                VaultEntryView::Directory(sub) => dir_along(sub, path.drop_first()),
                _ => d,
            },
            None => d,
        }
    }
}

/// `after` is `before` with the entry whose entry block is `nb` linked into directory `d`: when
/// `d` is empty its own entry block is rewritten, sealed under `key` with `nb` as its first entry
/// (and opening the seal gives the fields back);
/// otherwise the `next` field in the entry block of its last entry is set to `nb`. A block that
/// starts beyond the end of the file is not written.
pub open spec fn linked_in(before: Seq<u8>, after: Seq<u8>, d: DirectoryView, nb: u64, key: Seq<u8>) -> bool {
    if d.children.len() == 0 {
        if block_offset(d.block as int) > before.len() {
            after == before
        } else {
            exists|bytes: Seq<u8>|
                #![trigger write_at(before, block_offset(d.block as int), bytes)]
                after == write_at(before, block_offset(d.block as int), bytes) && bytes.len() == DATABLOCK_LENGTH
                    && bytes == entry_block_bytes(
                    DIRENTRY_TYPE,
                    d.next,
                    bytes.subrange(9, 21),
                    aes256gcm_seal(key, bytes.subrange(9, 21), directory_plain(DirectoryView { first_child: nb as i64, ..d })),
                ) && spec_decrypt(
                    key,
                    bytes.subrange(9, 21),
                    aes256gcm_seal(key, bytes.subrange(9, 21), directory_plain(DirectoryView { first_child: nb as i64, ..d })),
                ) == Ok::<Seq<u8>, ()>(directory_plain(DirectoryView { first_child: nb as i64, ..d })) && aes256gcm_seal(
                    key,
                    bytes.subrange(9, 21),
                    directory_plain(DirectoryView { first_child: nb as i64, ..d }),
                ).len() == DIRENTRY_ENC_LENGTH + AES_TAG_LENGTH
        }
    } else {
        let off = block_offset(d.children.last().block() as int);
        if off > before.len() {
            after == before
        } else {
            after == write_at(before, off + NEXT_OFFSET, be8(nb))
        }
    }
}

impl DirectoryEntry {
    /// Appends `new_entry` to the directory that the names of `path` lead to from this directory
    /// (this directory for an empty path), linking it after the last entry there.
    /// Returns [`VaultError::EntryNotFound`] with `parent_path` when there is no such directory.
    pub fn new_entry(
        &mut self,
        path: VecDeque<&str>,
        parent_path: &VaultPath,
        new_entry: VaultEntry,
        context: &mut VaultContext,
        key: &[u8],
    ) -> (r: Result<(), VaultError>)
        requires
            key@.len() == KEY_LENGTH,
            blocks_valid(VaultEntryView::Directory(old(self).dview())),
            new_entry.eview().block() <= MAX_BLOCK_ID,
            old(context).file().len() + DATABLOCK_LENGTH <= usize::MAX,
        ensures
            final(context).empty() == old(context).empty(),
            match insert_in(old(self).dview(), path_names(path@), new_entry.eview()) {
                None => r matches Err(VaultError::EntryNotFound(p)) && p@ == parent_path@
                    && final(self).dview() == old(self).dview() && *final(context) == *old(context),
                Some(d) => r is Ok && final(self).dview() == d && linked_in(
                    old(context).file(),
                    final(context).file(),
                    dir_along(old(self).dview(), path_names(path@)),
                    new_entry.eview().block(),
                    key@,
                ),
            },
            same_outside(old(context).file(), final(context).file(), occupied(VaultEntryView::Directory(old(self).dview()))),
        decreases path@.len(),
    {
        proof {
            use_type_invariant(&*self);
        }
        let ghost d0 = self.dview();
        let ghost cs = self.dview().children;
        let ghost v0 = self.children@;
        let ghost names = path_names(path@);
        let ghost ne = new_entry.eview();
        let mut path = path;
        if path.len() == 0 {
            let block = new_entry.entry_block() as i64;
            let mut children: Vec<VaultEntry> = Vec::new();
            std::mem::swap(&mut children, &mut self.children);
            let len = children.len();
            if len == 0 {
                self.first_child = block;
                let serialized = match self.serialize(key) {
                    Ok(b) => b,
                    Err(_) => {
                        assert(false);
                        self.children = children;
                        return Ok(());
                    },
                };
                let mut data: Vec<u8> = Vec::new();
                crate::vault::codec::put_slice(&mut data, &serialized);
                let ghost f0 = context.file();
                let ghost dd = data@;
                let _ = context.change_data(self.block, data);
                proof {
                    assert(directory_plain(self.dview()) == directory_plain(
                        DirectoryView { first_child: ne.block() as i64, ..d0 },
                    ));
                    assert(dd == serialized@);
                    assert(self.dview().next == d0.next);
                    assert(d0.children.len() == 0);
                    if block_offset(d0.block as int) <= f0.len() {
                        assert(context.file() == write_at(f0, block_offset(d0.block as int), dd));
                        assert(dd.len() == DATABLOCK_LENGTH);
                        assert(dd == entry_block_bytes(
                            DIRENTRY_TYPE,
                            d0.next,
                            dd.subrange(9, 21),
                            aes256gcm_seal(key@, dd.subrange(9, 21), directory_plain(DirectoryView { first_child: ne.block() as i64, ..d0 })),
                        ));
                    }
                    assert(linked_in(f0, context.file(), d0, ne.block(), key@));
                    assert(block_offset(d0.block as int) + 0 == block_offset(d0.block as int));
                    lemma_write_in_block(f0, context.file(), d0.block as int, 0, dd,
                        occupied(VaultEntryView::Directory(d0)));
                }
            } else {
                assert(blocks_valid(cs[len - 1]));
                let mut last = children.remove(len - 1);
                let ghost f0 = context.file();
                let ghost lb = last.eview().block();
                let _ = last.change_next(block, context);
                children.push(last);
                proof {
                    assert(lb == cs.last().block());
                    assert((block as u64) == ne.block());
                    assert(children@ =~= v0.remove(len - 1).insert(len - 1, last));
                    lemma_views_replace(v0, len - 1, last);
                    lemma_occupied_child(cs, cs.len() as int, len - 1);
                    assert(occupied(cs[len - 1]).contains(lb as int));
                    lemma_write_in_block(f0, context.file(), lb as int, NEXT_OFFSET as int, be8(block as u64),
                        occupied(VaultEntryView::Directory(d0)));
                    assert(linked_in(f0, context.file(), d0, ne.block(), key@));
                }
            }
            let ghost v1 = children@;
            children.push(new_entry);
            self.children = children;
            proof {
                assert(children_views(self.children@) =~= children_views(v1).push(ne));
                assert(self.dview() =~~= appended(d0, ne));
                assert(dir_along(d0, names) == d0);
            }
            Ok(())
        } else {
            let name = match path.pop_front() {
                None => {
                    assert(false);
                    return Err(VaultError::EntryNotFound(parent_path.clone()));
                },
                Some(n) => n,
            };
            assert(names[0] == name@);
            assert(path_names(path@) =~= names.drop_first());
            let i = match find_child(&self.children, name) {
                None => return Err(VaultError::EntryNotFound(parent_path.clone())),
                Some(i) => i,
            };
            assert(blocks_valid(cs[i as int]));
            let mut children: Vec<VaultEntry> = Vec::new();
            std::mem::swap(&mut children, &mut self.children);
            let child = children.remove(i);
            match child {
                VaultEntry::Directory(mut dir) => {
                    let ghost inner = occupied(VaultEntryView::Directory(dir.dview()));
                    let res = dir.new_entry(path, parent_path, new_entry, context, key);
                    children.insert(i, VaultEntry::Directory(dir));
                    self.children = children;
                    proof {
                        lemma_views_replace(v0, i as int, VaultEntry::Directory(dir));
                        assert(cs.update(i as int, cs[i as int]) =~= cs);
                        lemma_occupied_child(cs, cs.len() as int, i as int);
                        lemma_same_outside_larger(old(context).file(), context.file(), inner,
                            occupied(VaultEntryView::Directory(d0)));
                        assert(dir_along(d0, names) == dir_along(cs[i as int]->Directory_0, names.drop_first()));
                    }
                    res
                },
                other => {
                    children.insert(i, other);
                    self.children = children;
                    proof {
                        assert(self.children@ =~= v0);
                    }
                    Err(VaultError::EntryNotFound(parent_path.clone()))
                },
            }
        }
    }
}

/// A write of `len` bytes at offset `k` inside block `b`, one of the blocks `blocks`, changes
/// nothing outside them (and a write that is refused changes nothing).
proof fn lemma_write_in_block(before: Seq<u8>, after: Seq<u8>, b: int, k: int, data: Seq<u8>, blocks: Set<int>)
    requires
        blocks.contains(b),
        0 <= k,
        k + data.len() <= DATABLOCK_LENGTH,
        after == before || after == write_at(before, block_offset(b) + k, data),
    ensures
        same_outside(before, after, blocks),
{
    if after != before {
        assert forall|i: int| 0 <= i < before.len() && !in_blocks(blocks, i) implies #[trigger] after[i] == before[i] by {
            if block_offset(b) + k <= i < block_offset(b) + k + data.len() {
                assert(in_blocks(blocks, i));
            }
        }
    }
}


/// The blocks an entry of a directory occupies are among those the directory occupies.
pub proof fn lemma_occupied_child(s: Seq<VaultEntryView>, n: int, j: int)
    requires
        0 <= j < n <= s.len(),
    ensures
        occupied(s[j]).subset_of(occupied_children(s, n)),
    decreases n,
{
    if j < n - 1 {
        lemma_occupied_child(s, n - 1, j);
    }
}

/// The entries of a directory form its chain of entry blocks: the first lies at `first_child`,
/// each further one at the `next` of the one before, and the last has a negative `next` (an empty
/// directory has a negative `first_child`).
pub open spec fn linked_children(d: DirectoryView) -> bool {
    &&& (d.children.len() == 0 <==> d.first_child < 0)
    &&& d.children.len() > 0 ==> d.children[0].block() as int == d.first_child as int
    &&& forall|i: int| 0 <= i < d.children.len() - 1 ==> (#[trigger] d.children[i + 1]).block() as int
        == d.children[i].next() as int
    &&& d.children.len() > 0 ==> d.children.last().next() < 0
}

/// Whether the entry blocks of the vault file describe `e`: its own entry block decodes to it,
/// and for a directory its entries are those its chain links to, each described in turn.
pub open spec fn stored_entry(file: Seq<u8>, key: Seq<u8>, e: VaultEntryView) -> bool
    decreases e,
{
    let off = block_offset(e.block() as int);
    let b = file.subrange(off, off + DATABLOCK_LENGTH);
    let nonce = b.subrange(9, 21);
    let data = b.subrange(21, DATABLOCK_LENGTH as int);
    let next = from_be8(b.subrange(1, 9)) as i64;
    &&& off + DATABLOCK_LENGTH <= file.len()
    &&& match e {
        VaultEntryView::Password(p) => b[0] == PASSWORDENTRY_TYPE && spec_build_password(
            nonce,
            data,
            next,
            key,
            p.block,
        ) == Some(p),
        VaultEntryView::Secret(s) => b[0] == SECRETENTRY_TYPE && spec_build_secret(nonce, data, next, key, s.block)
            == Some(s),
        VaultEntryView::Directory(d) => b[0] == DIRENTRY_TYPE && spec_build_directory(
            nonce,
            data,
            next,
            key,
            d.block,
        ) == Some(DirectoryView { children: Seq::empty(), ..d }) && linked_children(d) && forall|i: int|
            0 <= i < d.children.len() ==> stored_entry(file, key, #[trigger] d.children[i]),
    }
}

/// The file describes at most one entry with a given entry block: two entries that the entry
/// blocks of the same file describe under the same key, and that start at the same block, are
/// the same entry (with the same entries inside it, for a directory).
pub proof fn lemma_stored_entry_unique(file: Seq<u8>, key: Seq<u8>, e1: VaultEntryView, e2: VaultEntryView)
    requires
        stored_entry(file, key, e1),
        stored_entry(file, key, e2),
        e1.block() == e2.block(),
    ensures
        e1 == e2,
    decreases e1,
{
    match (e1, e2) {
        (VaultEntryView::Directory(d1), VaultEntryView::Directory(d2)) => {
            let n = if d1.children.len() < d2.children.len() {
                d1.children.len() as int
            } else {
                d2.children.len() as int
            };
            assert forall|j: int|
                0 <= j < n && (#[trigger] d1.children[j]).block() == d2.children[j].block() implies d1.children[j]
                == d2.children[j] by {
                lemma_stored_entry_unique(file, key, d1.children[j], d2.children[j]);
            }
            assert(DirectoryView { children: Seq::empty(), ..d1 } == DirectoryView { children: Seq::empty(), ..d2 });
            lemma_chains_equal(d1.children, d2.children, d1.first_child);
            assert(d1 == d2);
        },
        _ => {},
    }
}

/// Two chains of entries that start at the same block, in which entries at the same place with
/// the same block are the same entry, are the same chain.
proof fn lemma_chains_equal(c1: Seq<VaultEntryView>, c2: Seq<VaultEntryView>, first: i64)
    requires
        linked_children(DirectoryView { children: c1, ..arbitrary_dir(first) }),
        linked_children(DirectoryView { children: c2, ..arbitrary_dir(first) }),
        forall|j: int|
            0 <= j < c1.len() && j < c2.len() && (#[trigger] c1[j]).block() == c2[j].block() ==> c1[j] == c2[j],
    ensures
        c1 == c2,
{
    let n = if c1.len() < c2.len() { c1.len() as int } else { c2.len() as int };
    if n > 0 {
        lemma_chain_prefix_equal(c1, c2, first, n - 1);
    }
    if c1.len() < c2.len() {
        if c1.len() > 0 {
            let i = n - 1;
            assert(c2[i + 1].block() as int == c2[i].next() as int);
        }
    }
    if c2.len() < c1.len() {
        if c2.len() > 0 {
            let i = n - 1;
            assert(c1[i + 1].block() as int == c1[i].next() as int);
        }
    }
    assert(c1 =~= c2);
}

/// Entries `0..=k` of two such chains are the same.
proof fn lemma_chain_prefix_equal(c1: Seq<VaultEntryView>, c2: Seq<VaultEntryView>, first: i64, k: int)
    requires
        0 <= k < c1.len(),
        k < c2.len(),
        linked_children(DirectoryView { children: c1, ..arbitrary_dir(first) }),
        linked_children(DirectoryView { children: c2, ..arbitrary_dir(first) }),
        forall|j: int|
            0 <= j < c1.len() && j < c2.len() && (#[trigger] c1[j]).block() == c2[j].block() ==> c1[j] == c2[j],
    ensures
        forall|j: int| 0 <= j <= k ==> c1[j] == c2[j],
    decreases k,
{
    if k > 0 {
        lemma_chain_prefix_equal(c1, c2, first, k - 1);
        let i = k - 1;
        assert(c1[i + 1].block() as int == c1[i].next() as int);
        assert(c2[i + 1].block() as int == c2[i].next() as int);
    }
    assert(c1[k].block() == c2[k].block());
}

/// An empty directory whose first entry is at `first` (the other fields do not matter here).
spec fn arbitrary_dir(first: i64) -> DirectoryView {
    DirectoryView { name: Seq::empty(), block: 0u64, next: -1i64, first_child: first, children: Seq::empty() }
}

/// The number of entry blocks read below an entry when it is rebuilt from the file: one for each
/// entry of a directory, and those read below that entry.
pub open spec fn entry_count(e: VaultEntryView) -> nat
    decreases e,
{
    match e {
        VaultEntryView::Directory(d) => children_count(d.children, d.children.len() as int),
        _ => 0,
    }
}

/// The number of entry blocks read for the first `n` entries of `s` and below them.
pub open spec fn children_count(s: Seq<VaultEntryView>, n: int) -> nat
    decreases s, n,
{
    if n <= 0 || n > s.len() {
        0
    } else {
        children_count(s, n - 1) + 1 + entry_count(s[n - 1])
    }
}

/// Counting more entries of a directory counts at least as many blocks.
proof fn lemma_children_count_grows(s: Seq<VaultEntryView>, k: int, n: int)
    requires
        0 <= k <= n <= s.len(),
    ensures
        children_count(s, k) <= children_count(s, n),
    decreases n - k,
{
    if k < n {
        lemma_children_count_grows(s, k, n - 1);
    }
}

/// The count for the first `n` entries depends on those entries alone.
proof fn lemma_children_count_prefix(s1: Seq<VaultEntryView>, s2: Seq<VaultEntryView>, n: int)
    requires
        0 <= n <= s1.len(),
        n <= s2.len(),
        forall|i: int| 0 <= i < n ==> s1[i] == s2[i],
    ensures
        children_count(s1, n) == children_count(s2, n),
    decreases n,
{
    if n > 0 {
        lemma_children_count_prefix(s1, s2, n - 1);
    }
}

/// Whether the file describes, under `key`, a directory whose entry block is `block`, with at
/// most `budget` entry blocks below it: exactly then rebuilding it with that budget succeeds.
/// (The block ids that entries hold, and secret sizes, are data here and are not checked.)
pub open spec fn rebuildable(file: Seq<u8>, key: Seq<u8>, block: u64, budget: int) -> bool {
    exists|t: DirectoryView|
        #![trigger stored_entry(file, key, VaultEntryView::Directory(t))]
        t.block == block && stored_entry(file, key, VaultEntryView::Directory(t)) && entry_count(
            VaultEntryView::Directory(t),
        ) <= budget
}

/// Every directory at `block` that the file describes under `key` holds usable block ids only,
/// and secret files of at least one block (see `blocks_valid`).
pub open spec fn stored_blocks_valid(file: Seq<u8>, key: Seq<u8>, block: u64) -> bool {
    forall|t: DirectoryView|
        #![trigger stored_entry(file, key, VaultEntryView::Directory(t))]
        t.block == block && stored_entry(file, key, VaultEntryView::Directory(t)) ==> blocks_valid(
            VaultEntryView::Directory(t),
        )
}

/// The first entry of the directory stored at `block` (when its entry block decodes to a
/// directory whose first entry is a valid block id inside the file) has an entry block whose
/// type is none of the three entry types.
pub open spec fn first_entry_untyped(file: Seq<u8>, key: Seq<u8>, block: u64) -> bool {
    let off = block_offset(block as int);
    let b = file.subrange(off, off + DATABLOCK_LENGTH);
    &&& off + DATABLOCK_LENGTH <= file.len()
    &&& b[0] == DIRENTRY_TYPE
    &&& spec_build_directory(b.subrange(9, 21), b.subrange(21, DATABLOCK_LENGTH as int), from_be8(b.subrange(1, 9)) as i64, key, block) matches Some(d)
        && 0 <= d.first_child <= MAX_BLOCK_ID && block_offset(d.first_child as int) + DATABLOCK_LENGTH <= file.len() && ({
            let t = file[block_offset(d.first_child as int)];
            t != PASSWORDENTRY_TYPE && t != SECRETENTRY_TYPE && t != DIRENTRY_TYPE
        })
}

/// Build the directory whose entry block is `start_block`, with everything inside it; at most
/// `budget` further entry blocks are read. Returns the directory and the budget left.
fn build_dir(start_block: u64, context: &VaultContext, key: &[u8], budget: u64) -> (r: Result<
    (DirectoryEntry, u64),
    BuildVaultError,
>)
    requires
        key@.len() == KEY_LENGTH,
        start_block <= MAX_BLOCK_ID,
    ensures
        r matches Ok((d, rest)) ==> rest <= budget && d.dview().block == start_block && stored_entry(
            context.file(),
            key@,
            VaultEntryView::Directory(d.dview()),
        ),
        block_offset(start_block as int) + DATABLOCK_LENGTH > context.file().len() ==> r matches Err(
            BuildVaultError::VaultFileError(_),
        ),
        block_offset(start_block as int) + DATABLOCK_LENGTH <= context.file().len() && context.file()[block_offset(
            start_block as int,
        )] != DIRENTRY_TYPE ==> r matches Err(BuildVaultError::InvalidEntryType),
        r matches Ok((d, rest)) ==> rest + entry_count(VaultEntryView::Directory(d.dview())) == budget,
        rebuildable(context.file(), key@, start_block, budget as int) ==> r is Ok,
        budget >= 1 && first_entry_untyped(context.file(), key@, start_block) ==> r matches Err(
            BuildVaultError::InvalidEntryType,
        ),
    decreases budget,
{
    let ghost has_t = rebuildable(context.file(), key@, start_block, budget as int);
    let ghost t = choose|t: DirectoryView|
        #![trigger stored_entry(context.file(), key@, VaultEntryView::Directory(t))]
        t.block == start_block && stored_entry(context.file(), key@, VaultEntryView::Directory(t)) && entry_count(
            VaultEntryView::Directory(t),
        ) <= budget;
    let flen = context.file_data().len();
    let datablock = match context.read_entry(start_block) {
        Ok(b) => b,
        Err(e) => return Err(BuildVaultError::VaultFileError(e)),
    };
    if datablock.entry_type != DIRENTRY_TYPE {
        return Err(BuildVaultError::InvalidEntryType);
    }
    assert(context.file()[block_offset(start_block as int)] == context.file().subrange(
        block_offset(start_block as int),
        block_offset(start_block as int) + DATABLOCK_LENGTH,
    )[0]);
    let mut dir_entry = match DirectoryEntry::build_entry(datablock, key, start_block) {
        Ok(d) => d,
        Err(e) => return Err(BuildVaultError::BuildEntryError(e)),
    };
    let ghost d0 = dir_entry.dview();
    proof {
        if has_t {
            assert(d0 == DirectoryView { children: Seq::empty(), ..t });
        }
    }
    let mut curr_block = dir_entry.get_first_child();
    let ghost untyped = budget >= 1 && first_entry_untyped(context.file(), key@, start_block);
    proof {
        if untyped {
            assert(datablock.nonce@ == context.file().subrange(block_offset(start_block as int), block_offset(start_block as int) + DATABLOCK_LENGTH).subrange(9, 21));
        }
    }
    let mut rest = budget;
    let mut children: Vec<VaultEntry> = Vec::new();
    proof {
        assert(children_views(children@) =~= Seq::<VaultEntryView>::empty());
    }
    while curr_block >= 0
        invariant
            key@.len() == KEY_LENGTH,
            rest <= budget,
            d0.children.len() == 0,
            d0.first_child == dir_entry.dview().first_child,
            block_offset(start_block as int) + DATABLOCK_LENGTH <= context.file().len(),
            context.file()[block_offset(start_block as int)] == DIRENTRY_TYPE,
            ({
                let cs = children_views(children@);
                &&& (cs.len() == 0 ==> curr_block == d0.first_child)
                &&& (cs.len() > 0 ==> cs[0].block() as int == d0.first_child as int)
                &&& (cs.len() > 0 ==> cs.last().next() == curr_block)
                &&& (cs.len() > 0 ==> d0.first_child >= 0)
                &&& forall|i: int| 0 <= i < cs.len() - 1 ==> (#[trigger] cs[i + 1]).block() as int
                    == cs[i].next() as int
                &&& forall|i: int| 0 <= i < cs.len() ==> stored_entry(context.file(), key@, #[trigger] cs[i])
                &&& rest + children_count(cs, cs.len() as int) == budget
                &&& has_t ==> {
                    &&& d0 == DirectoryView { children: Seq::empty(), ..t }
                    &&& cs.len() <= t.children.len()
                    &&& forall|i: int| 0 <= i < cs.len() ==> #[trigger] cs[i] == t.children[i]
                    &&& cs.len() < t.children.len() ==> curr_block as int == t.children[cs.len() as int].block() as int
                    &&& cs.len() == t.children.len() ==> curr_block < 0
                }
            }),
            has_t == rebuildable(context.file(), key@, start_block, budget as int),
            untyped == (budget >= 1 && first_entry_untyped(context.file(), key@, start_block)),
            untyped ==> children@.len() == 0 && rest == budget && curr_block == d0.first_child && 0 <= d0.first_child
                <= MAX_BLOCK_ID && block_offset(d0.first_child as int) + DATABLOCK_LENGTH <= context.file().len() && ({
                let ty = context.file()[block_offset(d0.first_child as int)];
                ty != PASSWORDENTRY_TYPE && ty != SECRETENTRY_TYPE && ty != DIRENTRY_TYPE
            }),
            has_t ==> t.block == start_block && stored_entry(context.file(), key@, VaultEntryView::Directory(t))
                && entry_count(VaultEntryView::Directory(t)) <= budget,
            flen == context.file().len(),
        decreases rest,
    {
        let ghost cs0 = children_views(children@);
        let ghost k = cs0.len() as int;
        proof {
            if has_t {
                assert(k < t.children.len());
                assert(stored_entry(context.file(), key@, t.children[k]));
                let cb = t.children[k].block() as int;
                assert(cb <= MAX_BLOCK_ID) by (nonlinear_arith)
                    requires
                        213 + cb * 272 + 272 <= flen,
                        flen <= usize::MAX,
                        usize::MAX <= 0xffff_ffff_ffff_ffff,
                        0 <= cb,
                ;
                lemma_children_count_prefix(cs0, t.children, k);
                lemma_children_count_grows(t.children, k + 1, t.children.len() as int);
                assert(children_count(t.children, k + 1) == children_count(t.children, k) + 1 + entry_count(t.children[k]));
            }
        }
        if curr_block as u64 > MAX_BLOCK_ID {
            return Err(BuildVaultError::VaultFileError(VaultFileError::InvalidBlockPosition(curr_block as u64)));
        }
        if rest == 0 {
            return Err(BuildVaultError::InvalidVaultStructure);
        }
        rest = rest - 1;
        let block = curr_block as u64;
        let datablock = match context.read_entry(block) {
            Ok(b) => b,
            Err(e) => return Err(BuildVaultError::VaultFileError(e)),
        };
        let ghost bb = context.file().subrange(block_offset(block as int), block_offset(block as int) + DATABLOCK_LENGTH);
        proof {
            assert(datablock.entry_type == context.file()[block_offset(block as int)]);
            if has_t {
                assert(block == t.children[k].block());
            }
        }
        let entry_type = datablock.entry_type;
        let entry = if entry_type == PASSWORDENTRY_TYPE {
            let pwd = match PasswordEntry::build_entry(datablock, key, block) {
                Ok(p) => p,
                Err(e) => return Err(BuildVaultError::BuildEntryError(e)),
            };
            VaultEntry::Password(pwd)
        } else if entry_type == SECRETENTRY_TYPE {
            let sec = match SecretFileEntry::build_entry(datablock, key, block) {
                Ok(s) => s,
                Err(e) => return Err(BuildVaultError::BuildEntryError(e)),
            };
            VaultEntry::Secret(sec)
        } else if entry_type == DIRENTRY_TYPE {
            proof {
                if has_t {
                    let sub = t.children[k]->Directory_0;
                    assert(stored_entry(context.file(), key@, VaultEntryView::Directory(sub)));
                    assert(rebuildable(context.file(), key@, block, rest as int));
                }
            }
            let (dir, left) = match build_dir(block, context, key, rest) {
                Ok(x) => x,
                Err(e) => return Err(e),
            };
            proof {
                if has_t {
                    lemma_stored_entry_unique(context.file(), key@, VaultEntryView::Directory(dir.dview()), t.children[k]);
                }
            }
            rest = left;
            VaultEntry::Directory(dir)
        } else {
            return Err(BuildVaultError::InvalidEntryType);
        };
        curr_block = entry.next();
        let ghost before = children@;
        children.push(entry);
        proof {
            assert(children@ == before.push(entry));
            assert(children_views(children@) == children_views(before).push(entry.eview()));
            let cs1 = children_views(children@);
            lemma_children_count_prefix(cs0, cs1, k);
            assert(children_count(cs1, k + 1) == children_count(cs1, k) + 1 + entry_count(cs1[k]));
            if has_t {
                assert(cs1[k] == t.children[k]);
                if k + 1 < t.children.len() {
                    assert(t.children[k + 1].block() as int == t.children[k].next() as int);
                }
            }
        }
    }
    dir_entry.set_children(children);
    proof {
        let d = dir_entry.dview();
        assert(DirectoryView { children: Seq::empty(), ..d } == d0);
    }
    Ok((dir_entry, rest))
}

impl DirectoryEntry {
    /// Rebuild the directory whose entry block is `start_block` from the vault file, with every
    /// entry inside it: each directory's entries are read along the chain of entry blocks that
    /// starts at its first child and follows the `next` fields. At most one entry block per
    /// block of the file is read, so a chain that runs in a circle is refused.
    pub fn build_entry_rec(start_block: u64, context: &VaultContext, key: &[u8]) -> (r: Result<
        Self,
        BuildVaultError,
    >)
        requires
            key@.len() == KEY_LENGTH,
            start_block <= MAX_BLOCK_ID,
        ensures
            r matches Ok(d) ==> d.dview().block == start_block
                && stored_entry(context.file(), key@, VaultEntryView::Directory(d.dview())),
            block_offset(start_block as int) + DATABLOCK_LENGTH > context.file().len() ==> r matches Err(
                BuildVaultError::VaultFileError(_),
            ),
            block_offset(start_block as int) + DATABLOCK_LENGTH <= context.file().len() && context.file()[block_offset(
                start_block as int,
            )] != DIRENTRY_TYPE ==> r matches Err(BuildVaultError::InvalidEntryType),
            r is Ok <==> rebuildable(
                context.file(),
                key@,
                start_block,
                context.file().len() as int / DATABLOCK_LENGTH as int + 1,
            ),
            first_entry_untyped(context.file(), key@, start_block) ==> r matches Err(BuildVaultError::InvalidEntryType),
    {
        let budget = (context.file_data().len() / DATABLOCK_LENGTH) as u64 + 1;
        match build_dir(start_block, context, key, budget) {
            Ok((d, rest)) => {
                proof {
                    assert(stored_entry(context.file(), key@, VaultEntryView::Directory(d.dview())));
                }
                Ok(d)
            },
            Err(e) => Err(e),
        }
    }
}

/// The entry with the nonce of its password block replaced (other entries unchanged).
pub open spec fn with_pwd_nonce(e: VaultEntryView, nonce: Seq<u8>) -> VaultEntryView {
    match e {
        VaultEntryView::Password(p) => VaultEntryView::Password(PasswordView { pwd_block_nonce: nonce, ..p }),
        _ => e,
    }
}

impl DirectoryEntry {
    /// Replace the password of the password entry at `path` (see `PasswordEntry::change_secret`).
    pub fn change_password_at(
        &mut self,
        path: VecDeque<&str>,
        total_path: &VaultPath,
        password: String,
        context: &mut VaultContext,
        key: &[u8],
    ) -> (r: Result<(), VaultChangeEntryError>)
        requires
            key@.len() == KEY_LENGTH,
            blocks_valid(VaultEntryView::Directory(old(self).dview())),
            old(context).file().len() + DATABLOCK_LENGTH <= usize::MAX,
        ensures
            final(context).empty() == old(context).empty(),
            match lookup(old(self).dview().children, path_names(path@)) {
                None => r matches Err(VaultChangeEntryError::GetEntryError(VaultError::EntryNotFound(p)))
                    && p@ == total_path@ && final(self).dview() == old(self).dview() && final(context).file()
                    == old(context).file(),
                Some(VaultEntryView::Directory(_)) => r matches Err(
                    VaultChangeEntryError::InvalidOperation(Operation::ChangePassword, EntryType::Directory),
                ) && final(self).dview() == old(self).dview() && final(context).file() == old(context).file(),
                Some(VaultEntryView::Secret(_)) => r matches Err(
                    VaultChangeEntryError::InvalidOperation(Operation::ChangePassword, EntryType::Secret),
                ) && final(self).dview() == old(self).dview() && final(context).file() == old(context).file(),
                Some(VaultEntryView::Password(p)) => if encode_utf8(password@).len() > DATABLOCK_RAW_LENGTH {
                    r matches Err(VaultChangeEntryError::VaultChangeError(VaultChangeError::InputTooLarge))
                        && final(self).dview() == old(self).dview() && final(context).file() == old(
                        context,
                    ).file()
                } else if block_offset(p.pwd_block as int) > old(context).file().len() {
                    r matches Err(VaultChangeEntryError::VaultChangeError(VaultChangeError::FileChangeError(_)))
                        && final(self).dview() == old(self).dview() && final(context).file() == old(
                        context,
                    ).file()
                } else {
                    r is Ok && exists|nonce: Seq<u8>, ct: Seq<u8>|
                        #![trigger password_block_holds(key@, nonce, ct, password@)]
                        password_block_holds(key@, nonce, ct, password@) && final(context).file() == write_at(
                            old(context).file(),
                            block_offset(p.pwd_block as int),
                            ct,
                        ) && final(self).dview() == (DirectoryView {
                            children: update_at(
                                old(self).dview().children,
                                path_names(path@),
                                |e: VaultEntryView| with_pwd_nonce(e, nonce),
                            ),
                            ..old(self).dview()
                        })
                },
            },
        decreases path@.len(),
    {
        proof {
            use_type_invariant(&*self);
        }
        let ghost cs = self.dview().children;
        let ghost v0 = self.children@;
        let mut path = path;
        let ghost names = path_names(path@);
        let name = match path.pop_front() {
            None => return Err(VaultChangeEntryError::GetEntryError(VaultError::EntryNotFound(total_path.clone()))),
            Some(n) => n,
        };
        assert(names[0] == name@);
        assert(path_names(path@) =~= names.drop_first());
        let i = match find_child(&self.children, name) {
            None => return Err(VaultChangeEntryError::GetEntryError(VaultError::EntryNotFound(total_path.clone()))),
            Some(i) => i,
        };
        assert(blocks_valid(cs[i as int]));
        let mut children: Vec<VaultEntry> = Vec::new();
        std::mem::swap(&mut children, &mut self.children);
        assert(children@ == v0);
        let child = children.remove(i);
        let is_leaf = path.len() == 0;
        let (back, res) = match child {
            VaultEntry::Password(mut pwd) => {
                if is_leaf {
                    let res = match pwd.change_secret(context, key, password) {
                        Ok(()) => Ok(()),
                        Err(e) => Err(VaultChangeEntryError::VaultChangeError(e)),
                    };
                    (VaultEntry::Password(pwd), res)
                } else {
                    (VaultEntry::Password(pwd), Err(VaultChangeEntryError::GetEntryError(VaultError::EntryNotFound(total_path.clone()))))
                }
            },
            VaultEntry::Secret(sec) => {
                if is_leaf {
                    (VaultEntry::Secret(sec), Err(VaultChangeEntryError::InvalidOperation(Operation::ChangePassword, EntryType::Secret)))
                } else {
                    (VaultEntry::Secret(sec), Err(VaultChangeEntryError::GetEntryError(VaultError::EntryNotFound(total_path.clone()))))
                }
            },
            VaultEntry::Directory(mut dir) => {
                if is_leaf {
                    (VaultEntry::Directory(dir), Err(VaultChangeEntryError::InvalidOperation(Operation::ChangePassword, EntryType::Directory)))
                } else {
                    let res = dir.change_password_at(path, total_path, password, context, key);
                    (VaultEntry::Directory(dir), res)
                }
            },
        };
        children.insert(i, back);
        self.children = children;
        proof {
            lemma_views_replace(v0, i as int, back);
            assert(cs.update(i as int, cs[i as int]) =~= cs);
        }
        res
    }
}

impl DirectoryEntry {
    /// Replace the contents of the secret file entry at `path` (see
    /// `SecretFileEntry::change_secret`). Contents whose blocks would run past the largest block
    /// id or the largest file length are refused as too large.
    pub fn change_secret_at(
        &mut self,
        path: VecDeque<&str>,
        total_path: &VaultPath,
        contents: Vec<u8>,
        context: &mut VaultContext,
        key: &[u8],
    ) -> (r: Result<(), VaultChangeEntryError>)
        requires
            key@.len() == KEY_LENGTH,
            blocks_valid(VaultEntryView::Directory(old(self).dview())),
            old(context).empty().wf(),
        ensures
            final(context).empty().wf(),
            match lookup(old(self).dview().children, path_names(path@)) {
                None => r matches Err(VaultChangeEntryError::GetEntryError(VaultError::EntryNotFound(p)))
                    && p@ == total_path@ && final(self).dview() == old(self).dview() && *final(context)
                    == *old(context),
                Some(VaultEntryView::Directory(_)) => r matches Err(
                    VaultChangeEntryError::InvalidOperation(Operation::ChangeSecret, EntryType::Directory),
                ) && final(self).dview() == old(self).dview() && *final(context) == *old(context),
                Some(VaultEntryView::Password(_)) => r matches Err(
                    VaultChangeEntryError::InvalidOperation(Operation::ChangeSecret, EntryType::Password),
                ) && final(self).dview() == old(self).dview() && *final(context) == *old(context),
                Some(VaultEntryView::Secret(t)) => (r is Err ==> final(self).dview() == old(self).dview())
                    && (secret_update_fits(*old(context), t, contents@.len()) ==> r is Ok)
                    && (r is Ok ==> exists|e2: SecretView|
                    #![trigger blocks_valid(VaultEntryView::Secret(e2))]
                    e2.name == t.name && e2.block == t.block && e2.next == t.next && blocks_valid(
                        VaultEntryView::Secret(e2),
                    ) && final(self).dview() == (DirectoryView {
                        children: update_at(
                            old(self).dview().children,
                            path_names(path@),
                            |e: VaultEntryView| VaultEntryView::Secret(e2),
                        ),
                        ..old(self).dview()
                    }) && (secret_reads_back(old(context).file(), t, e2, contents@.len()) ==> spec_stored_secret(
                        final(context).file(),
                        e2.start,
                        e2.size,
                        e2.nonce,
                        key@,
                    ) == Some(pad_to(contents@, secret_padded_len(contents@.len()))))),
            },
        decreases path@.len(),
    {
        proof {
            use_type_invariant(&*self);
        }
        let ghost cs = self.dview().children;
        let ghost v0 = self.children@;
        let mut path = path;
        let ghost names = path_names(path@);
        let name = match path.pop_front() {
            None => return Err(VaultChangeEntryError::GetEntryError(VaultError::EntryNotFound(total_path.clone()))),
            Some(n) => n,
        };
        assert(names[0] == name@);
        assert(path_names(path@) =~= names.drop_first());
        let i = match find_child(&self.children, name) {
            None => return Err(VaultChangeEntryError::GetEntryError(VaultError::EntryNotFound(total_path.clone()))),
            Some(i) => i,
        };
        assert(blocks_valid(cs[i as int]));
        let mut children: Vec<VaultEntry> = Vec::new();
        std::mem::swap(&mut children, &mut self.children);
        assert(children@ == v0);
        let child = children.remove(i);
        let is_leaf = path.len() == 0;
        let (back, res) = match child {
            VaultEntry::Secret(mut sec) => {
                if is_leaf {
                    let (start, size) = sec.secret_blocks();
                    let n = (contents.len() as u64 / DATABLOCK_LENGTH as u64) + 2;
                    if contents.len() > usize::MAX - 2 * DATABLOCK_LENGTH
                        || !context.secret_change_fits(start, size, n, contents.len()) {
                        (VaultEntry::Secret(sec), Err(VaultChangeEntryError::VaultChangeError(VaultChangeError::InputTooLarge)))
                    } else {
                        proof {
                            lemma_secret_block_count(contents@.len());
                        }
                        let res = match sec.change_secret(context, key, contents) {
                            Ok(()) => Ok(()),
                            Err(e) => Err(VaultChangeEntryError::VaultChangeError(e)),
                        };
                        (VaultEntry::Secret(sec), res)
                    }
                } else {
                    (VaultEntry::Secret(sec), Err(VaultChangeEntryError::GetEntryError(VaultError::EntryNotFound(total_path.clone()))))
                }
            },
            VaultEntry::Password(pwd) => {
                if is_leaf {
                    (VaultEntry::Password(pwd), Err(VaultChangeEntryError::InvalidOperation(Operation::ChangeSecret, EntryType::Password)))
                } else {
                    (VaultEntry::Password(pwd), Err(VaultChangeEntryError::GetEntryError(VaultError::EntryNotFound(total_path.clone()))))
                }
            },
            VaultEntry::Directory(mut dir) => {
                if is_leaf {
                    (VaultEntry::Directory(dir), Err(VaultChangeEntryError::InvalidOperation(Operation::ChangeSecret, EntryType::Directory)))
                } else {
                    let res = dir.change_secret_at(path, total_path, contents, context, key);
                    (VaultEntry::Directory(dir), res)
                }
            },
        };
        children.insert(i, back);
        self.children = children;
        proof {
            lemma_views_replace(v0, i as int, back);
            assert(cs.update(i as int, cs[i as int]) =~= cs);
            if is_leaf && res is Ok {
                let e2 = back.eview()->Secret_0;
                assert(self.dview().children =~= update_at(cs, names, |e: VaultEntryView| VaultEntryView::Secret(e2)));
            }
        }
        res
    }
}

/// Whether replacing the contents of secret file `t` by `len` bytes is owed to succeed: the
/// block ids and the file length stay in range, the contents can be encrypted, and a secret that
/// grows starts within the file.
pub open spec fn secret_update_fits(ctx: VaultContext, t: SecretView, len: nat) -> bool {
    let n = len / (DATABLOCK_LENGTH as nat) + 2;
    &&& len <= usize::MAX - 2 * DATABLOCK_LENGTH
    &&& ctx.empty().span() + n <= MAX_BLOCK_ID
    &&& t.start + t.size + n <= MAX_BLOCK_ID
    &&& ctx.file().len() + (t.size + 1) * DATABLOCK_LENGTH + len + AES_TAG_LENGTH + DATABLOCK_LENGTH <= usize::MAX
    &&& secret_padded_len(len) <= AES_MAX_PLAINTEXT
    &&& (secret_block_count(len) <= t.size || block_offset(t.start as int) <= ctx.file().len())
}

/// Whether new contents of `len` bytes of secret file `t`, whose blocks are then those of `e2`,
/// read back: they went into the blocks `t` had (see `secret_rewritten_in_place`), or they needed
/// more blocks, the old and the new blocks start within the file, and the entry block lies
/// outside the new ones.
pub open spec fn secret_reads_back(file: Seq<u8>, t: SecretView, e2: SecretView, len: nat) -> bool {
    ||| secret_rewritten_in_place(file, t, len)
    ||| (secret_block_count(len) > t.size && block_offset(t.start as int) <= file.len() && block_offset(
        e2.start as int,
    ) <= file.len() && !(e2.start <= e2.block < e2.start + e2.size))
}

/// Whether new contents of `len` bytes go into the blocks secret file `t` has: they take no
/// more blocks, those blocks start within the file, and the entry block lies outside them.
pub open spec fn secret_rewritten_in_place(file: Seq<u8>, t: SecretView, len: nat) -> bool {
    &&& secret_block_count(len) <= t.size
    &&& block_offset(t.start as int) <= file.len()
    &&& !(t.start <= t.block < t.start + t.size)
}

/// The contents of a secret fill at most one block more than whole blocks of their bytes.
proof fn lemma_secret_block_count(n: nat)
    ensures
        secret_block_count(n) <= n / (DATABLOCK_LENGTH as nat) + 2,
{
    let p = secret_padded_len(n);
    let q = n / 272;
    assert(n == 272 * q + n % 272) by (nonlinear_arith)
        requires
            q == n / 272,
    ;
    assert(((n + 16 + 271) as int) / 272 <= q + 2) by (nonlinear_arith)
        requires
            n == 272 * q + n % 272,
            0 <= n % 272 < 272,
    ;
    assert((((n + 16 + 271) as int) / 272) * 272 >= 16) by (nonlinear_arith);
    assert(p + 16 == (((n + 16 + 271) as int) / 272) * 272);
    assert(((p + 16) as int) / 272 == ((n + 16 + 271) as int) / 272) by (nonlinear_arith)
        requires
            p + 16 == (((n + 16 + 271) as int) / 272) * 272,
    ;
}

/// Replacing the entry at a path by a valid entry keeps every entry valid.
pub proof fn lemma_update_at_valid(
    cs: Seq<VaultEntryView>,
    names: Seq<Seq<char>>,
    f: spec_fn(VaultEntryView) -> VaultEntryView,
)
    requires
        forall|i: int| 0 <= i < cs.len() ==> blocks_valid(#[trigger] cs[i]),
        lookup(cs, names) is Some ==> blocks_valid(f(lookup(cs, names)->0)),
    ensures
        forall|i: int| 0 <= i < update_at(cs, names, f).len() ==> blocks_valid(#[trigger] update_at(cs, names, f)[i]),
        update_at(cs, names, f).len() == cs.len(),
    decreases names.len(),
{
    if names.len() > 0 {
        if let Some(i) = child_index(cs, names[0]) {
            lemma_child_index_from(cs, name_field(names[0]), 0);
            if names.len() > 1 {
                if let VaultEntryView::Directory(d) = cs[i] {
                    assert(forall|k: int| 0 <= k < d.children.len() ==> blocks_valid(#[trigger] d.children[k]));
                    lemma_update_at_valid(d.children, names.drop_first(), f);
                    let nd = DirectoryView { children: update_at(d.children, names.drop_first(), f), ..d };
                    assert(blocks_valid(VaultEntryView::Directory(nd)));
                }
            }
        }
    }
}

/// Pointing an entry elsewhere keeps it valid.
pub proof fn lemma_with_next_valid(x: VaultEntryView, n: i64)
    requires
        blocks_valid(x),
    ensures
        blocks_valid(with_next(x, n)),
{
    match x {
        VaultEntryView::Directory(d) => {
            let d2 = DirectoryView { next: n, ..d };
            assert(d2.children == d.children);
        },
        _ => {},
    }
}

/// Taking an entry out of a directory keeps every entry valid.
pub proof fn lemma_delete_in_valid(d: DirectoryView, names: Seq<Seq<char>>)
    requires
        blocks_valid(VaultEntryView::Directory(d)),
    ensures
        blocks_valid(VaultEntryView::Directory(delete_in(d, names))),
        delete_in(d, names).block == d.block,
    decreases names.len(),
{
    if names.len() > 0 {
        if let Some(i) = child_index(d.children, names[0]) {
            lemma_child_index_from(d.children, name_field(names[0]), 0);
            let cs = d.children;
            if names.len() == 1 {
                let nb = next_block_after(cs, i);
                if i > 0 {
                    let c2 = cs.update(i - 1, with_next(cs[i - 1], nb));
                    lemma_with_next_valid(cs[i - 1], nb);
                    assert forall|k: int| 0 <= k < c2.remove(i).len() implies blocks_valid(#[trigger] c2.remove(i)[k]) by {
                        if k < i {
                            assert(c2.remove(i)[k] == c2[k]);
                        } else {
                            assert(c2.remove(i)[k] == c2[k + 1]);
                        }
                    }
                } else {
                    assert forall|k: int| 0 <= k < cs.remove(0).len() implies blocks_valid(#[trigger] cs.remove(0)[k]) by {
                        assert(cs.remove(0)[k] == cs[k + 1]);
                    }
                }
            } else if let VaultEntryView::Directory(sub) = cs[i] {
                lemma_delete_in_valid(sub, names.drop_first());
            }
        }
    }
}

/// Appending a valid entry to a directory keeps every entry valid.
pub proof fn lemma_insert_in_valid(d: DirectoryView, names: Seq<Seq<char>>, e: VaultEntryView)
    requires
        blocks_valid(VaultEntryView::Directory(d)),
        blocks_valid(e),
    ensures
        insert_in(d, names, e) matches Some(nd) ==> blocks_valid(VaultEntryView::Directory(nd)) && nd.block == d.block,
    decreases names.len(),
{
    if names.len() == 0 {
        let cs = d.children;
        if cs.len() > 0 {
            lemma_with_next_valid(cs.last(), e.block() as i64);
            let c2 = cs.update(cs.len() - 1, with_next(cs.last(), e.block() as i64)).push(e);
            assert forall|k: int| 0 <= k < c2.len() implies blocks_valid(#[trigger] c2[k]) by {
                if k < cs.len() - 1 {
                    assert(c2[k] == cs[k]);
                }
            }
        } else {
            assert(blocks_valid(seq![e][0]));
        }
    } else {
        if let Some(i) = child_index(d.children, names[0]) {
            lemma_child_index_from(d.children, name_field(names[0]), 0);
            if let VaultEntryView::Directory(sub) = d.children[i] {
                lemma_insert_in_valid(sub, names.drop_first(), e);
            }
        }
    }
}

/// An entry found inside valid entries is valid.
pub proof fn lemma_lookup_valid(cs: Seq<VaultEntryView>, names: Seq<Seq<char>>)
    requires
        forall|i: int| 0 <= i < cs.len() ==> blocks_valid(#[trigger] cs[i]),
    ensures
        lookup(cs, names) matches Some(t) ==> blocks_valid(t),
    decreases names.len(),
{
    if names.len() > 0 {
        if let Some(i) = child_index(cs, names[0]) {
            lemma_child_index_from(cs, name_field(names[0]), 0);
            if names.len() > 1 {
                if let VaultEntryView::Directory(d) = cs[i] {
                    lemma_lookup_valid(d.children, names.drop_first());
                }
            }
        }
    }
}

/// Renaming an entry, or giving its password a new nonce, keeps it valid.
pub proof fn lemma_field_change_valid(x: VaultEntryView, name: Seq<u8>, nonce: Seq<u8>)
    requires
        blocks_valid(x),
    ensures
        blocks_valid(with_name(x, name)),
        blocks_valid(with_pwd_nonce(x, nonce)),
{
    match x {
        VaultEntryView::Directory(d) => {
            let d2 = DirectoryView { name, ..d };
            assert(d2.children == d.children);
        },
        _ => {},
    }
}

/// Whether an entry can be appended along a path does not depend on the entry.
pub proof fn lemma_insert_in_some(d: DirectoryView, names: Seq<Seq<char>>, e1: VaultEntryView, e2: VaultEntryView)
    ensures
        insert_in(d, names, e1) is Some <==> insert_in(d, names, e2) is Some,
    decreases names.len(),
{
    if names.len() > 0 {
        if let Some(i) = child_index(d.children, names[0]) {
            if let VaultEntryView::Directory(sub) = d.children[i] {
                lemma_insert_in_some(sub, names.drop_first(), e1, e2);
            }
        }
    }
}

} // verus!
