//! How the entry blocks of a vault file keep describing the directory tree when an entry is
//! deleted: unlinking writes inside one block of the directory it leaves, erasing touches only
//! the blocks of the deleted entry, and every entry that stays reads as before.
use vstd::prelude::*;
use crate::vault::codec::{be8, lemma_be8_roundtrip, lemma_i64_roundtrip, write_at};
use crate::crypt::{aes256gcm_seal, spec_decrypt, AES_TAG_LENGTH};
use crate::vault::entry::chain::{
    blocks_agree, blocks_apart, block_bytes, lemma_child_occupied, lemma_next_rewritten, lemma_stored_frame,
    lemma_write_inside_block, lemma_writes_inside_agree, writes_inside,
};
use crate::vault::entry::tree::{
    child_index, delete_in, dir_along, lemma_child_index_from, linked_children, lookup, next_block_after, stored_entry,
    unlinked, unlinked_at,
};
use crate::vault::entry::{
    directory_plain, entry_block_bytes, name_wf, occupied, occupied_children, with_next, DirectoryView, VaultEntryView,
    DIRENTRY_ENC_LENGTH,
};
use crate::vault::codec::name_field;
use crate::vault::manager::{DATABLOCK_LENGTH, DIRENTRY_TYPE, NEXT_OFFSET};
use crate::vault::properties::lemma_byte_of_one_block;
use crate::vault::utils::{block_offset, in_blocks, same_outside};

verus! {

/// An entry occupies its own entry block.
pub proof fn lemma_block_occupied(e: VaultEntryView)
    ensures
        occupied(e).contains(e.block() as int),
{
    if let VaultEntryView::Directory(d) = e {
        assert(occupied_children(d.children, d.children.len() as int).insert(d.block as int).contains(d.block as int));
    }
}

/// A block that the first `n` entries of `s` occupy is occupied by one of them.
proof fn lemma_occupied_children_member(s: Seq<VaultEntryView>, n: int, b: int)
    requires
        occupied_children(s, n).contains(b),
    ensures
        exists|j: int| 0 <= j < n && j < s.len() && #[trigger] occupied(s[j]).contains(b),
    decreases n,
{
    if 0 < n <= s.len() {
        if occupied(s[n - 1]).contains(b) {
            assert(occupied(s[n - 1]).contains(b));
        } else {
            lemma_occupied_children_member(s, n - 1, b);
        }
    }
}

/// The blocks the entry at `path` occupies are among those of the directory.
pub proof fn lemma_lookup_occupied(d: DirectoryView, path: Seq<Seq<char>>)
    requires
        lookup(d.children, path) is Some,
    ensures
        occupied(lookup(d.children, path)->0).subset_of(occupied(VaultEntryView::Directory(d))),
    decreases path.len(),
{
    lemma_child_index_from(d.children, name_field(path[0]), 0);
    let i = child_index(d.children, path[0])->0;
    lemma_child_occupied(d, i);
    if path.len() > 1 {
        let sub = d.children[i]->Directory_0;
        lemma_lookup_occupied(sub, path.drop_first());
    }
}

/// After the entry at `path` is taken out of a directory whose blocks are apart, the directory
/// occupies none of the blocks of that entry, and no block it did not occupy before.
pub proof fn lemma_deleted_apart(d: DirectoryView, path: Seq<Seq<char>>)
    requires
        blocks_apart(VaultEntryView::Directory(d)),
        lookup(d.children, path) is Some,
    ensures
        occupied(VaultEntryView::Directory(delete_in(d, path))).disjoint(occupied(lookup(d.children, path)->0)),
        occupied(VaultEntryView::Directory(delete_in(d, path))).subset_of(occupied(VaultEntryView::Directory(d))),
    decreases path.len(),
{
    lemma_child_index_from(d.children, name_field(path[0]), 0);
    let i = child_index(d.children, path[0])->0;
    let cs = d.children;
    let r = delete_in(d, path);
    let t = lookup(d.children, path)->0;
    let ti = cs[i];
    lemma_lookup_occupied(d, path);
    lemma_child_occupied(d, i);
    let ghost occ_t = occupied(t);
    let ghost occ_i = occupied(ti);
    assert(occ_t.subset_of(occ_i)) by {
        if path.len() > 1 {
            lemma_lookup_occupied(ti->Directory_0, path.drop_first());
        }
    }
    if path.len() > 1 {
        lemma_deleted_apart(ti->Directory_0, path.drop_first());
    }
    assert forall|b: int| #[trigger] occupied(VaultEntryView::Directory(r)).contains(b) implies !occ_t.contains(b)
        && occupied(VaultEntryView::Directory(d)).contains(b) by {
        assert(occupied(VaultEntryView::Directory(r)) == occupied_children(r.children, r.children.len() as int).insert(
            d.block as int,
        ));
        assert(occupied(VaultEntryView::Directory(d)) == occupied_children(cs, cs.len() as int).insert(d.block as int));
        if b == d.block as int {
            assert(!occ_i.contains(b));
        } else {
            lemma_occupied_children_member(r.children, r.children.len() as int, b);
            let j = choose|j: int| 0 <= j < r.children.len() as int && j < r.children.len() && #[trigger] occupied(
                r.children[j],
            ).contains(b);
            // the entry of `d` that `r.children[j]` stands for
            let k: int = if path.len() == 1 && j >= i { j + 1 } else { j };
            if path.len() == 1 {
                if i > 0 && j == i - 1 {
                    assert(r.children[j] == with_next(cs[i - 1], next_block_after(cs, i)));
                } else if j >= i {
                    assert(r.children[j] == cs[j + 1]);
                } else {
                    assert(r.children[j] == cs[j]);
                }
                assert(occupied(cs[k]).contains(b));
                assert(k != i);
            } else if j == i {
                let sub = ti->Directory_0;
                assert(r.children[j] == VaultEntryView::Directory(delete_in(sub, path.drop_first())));
                assert(occupied(cs[i]).contains(b));
            } else {
                assert(r.children[j] == cs[j]);
                assert(occupied(cs[k]).contains(b));
            }
            lemma_child_occupied(d, k);
            if k != i {
                if k < i {
                    assert(occupied(cs[k]).disjoint(occupied(cs[i])));
                } else {
                    assert(occupied(cs[i]).disjoint(occupied(cs[k])));
                }
                assert(!occ_i.contains(b));
            }
            assert(occupied(cs[k]).contains(b));
        }
    }
}

/// Taking the first entry out of a directory `d` that the file describes (whose blocks are
/// apart), by rewriting the directory's entry block sealed with the entry after it as its first
/// entry, gives a file that describes `d` without that entry.
proof fn lemma_first_entry_removed(before: Seq<u8>, key: Seq<u8>, d: DirectoryView, bytes: Seq<u8>)
    requires
        stored_entry(before, key, VaultEntryView::Directory(d)),
        blocks_apart(VaultEntryView::Directory(d)),
        d.children.len() > 0,
        name_wf(d.name),
        bytes.len() == DATABLOCK_LENGTH,
        bytes == entry_block_bytes(
            DIRENTRY_TYPE,
            d.next,
            bytes.subrange(9, 21),
            aes256gcm_seal(
                key,
                bytes.subrange(9, 21),
                directory_plain(DirectoryView { first_child: next_block_after(d.children, 0), ..d }),
            ),
        ),
        spec_decrypt(
            key,
            bytes.subrange(9, 21),
            aes256gcm_seal(
                key,
                bytes.subrange(9, 21),
                directory_plain(DirectoryView { first_child: next_block_after(d.children, 0), ..d }),
            ),
        ) == Ok::<Seq<u8>, ()>(directory_plain(DirectoryView { first_child: next_block_after(d.children, 0), ..d })),
        aes256gcm_seal(
            key,
            bytes.subrange(9, 21),
            directory_plain(DirectoryView { first_child: next_block_after(d.children, 0), ..d }),
        ).len() == DIRENTRY_ENC_LENGTH + AES_TAG_LENGTH,
    ensures
        stored_entry(
            write_at(before, block_offset(d.block as int), bytes),
            key,
            VaultEntryView::Directory(
                DirectoryView { first_child: next_block_after(d.children, 0), children: d.children.remove(0), ..d },
            ),
        ),
{
    assert(linked_children(d));
    let w = d.block as int;
    let off = block_offset(w);
    let after = write_at(before, off, bytes);
    let nb = next_block_after(d.children, 0);
    let d2 = DirectoryView { first_child: nb, ..d };
    let plain = directory_plain(d2);
    let ct = aes256gcm_seal(key, bytes.subrange(9, 21), plain);
    lemma_be8_roundtrip(d.next as u64);
    lemma_i64_roundtrip(d.next);
    lemma_be8_roundtrip(nb as u64);
    lemma_i64_roundtrip(nb);
    assert(block_bytes(after, w) =~= bytes);
    assert(bytes.subrange(1, 9) =~= be8(d.next as u64));
    assert(bytes.subrange(21, DATABLOCK_LENGTH as int).subrange(0, DIRENTRY_ENC_LENGTH + AES_TAG_LENGTH) =~= ct);
    assert(plain.subrange(0, 128) =~= d.name);
    assert(plain.subrange(128, 136) =~= be8(nb as u64));
    let r = DirectoryView { first_child: nb, children: d.children.remove(0), ..d };
    assert forall|k: int| 0 <= k < r.children.len() implies stored_entry(after, key, #[trigger] r.children[k]) by {
        assert(r.children[k] == d.children[k + 1]);
        assert(!occupied(d.children[k + 1]).contains(w));
        lemma_write_inside_block(before, off, bytes, w, occupied(d.children[k + 1]));
        lemma_stored_frame(before, after, key, d.children[k + 1]);
    }
    assert forall|k: int| 0 <= k < r.children.len() - 1 implies (#[trigger] r.children[k + 1]).block() as int
        == r.children[k].next() as int by {
        let m = k + 1;
        assert(d.children[m + 1].block() as int == d.children[m].next() as int);
    }
    if d.children.len() > 1 {
        assert(d.children[1].block() as int == d.children[0].next() as int);
    }
    assert(linked_children(r));
}

/// Taking entry `i > 0` out of a directory `d` that the file describes (whose blocks are apart),
/// by setting the `next` field in the entry block of the entry before it to the entry after it,
/// gives a file that describes `d` without that entry.
#[verifier::spinoff_prover]
#[verifier::rlimit(40)]
proof fn lemma_later_entry_removed(before: Seq<u8>, key: Seq<u8>, d: DirectoryView, i: int)
    requires
        stored_entry(before, key, VaultEntryView::Directory(d)),
        blocks_apart(VaultEntryView::Directory(d)),
        0 < i < d.children.len(),
    ensures
        stored_entry(
            write_at(
                before,
                block_offset(d.children[i - 1].block() as int) + NEXT_OFFSET,
                be8(next_block_after(d.children, i) as u64),
            ),
            key,
            VaultEntryView::Directory(
                DirectoryView {
                    children: d.children.update(i - 1, with_next(d.children[i - 1], next_block_after(d.children, i))).remove(
                        i,
                    ),
                    ..d
                },
            ),
        ),
{
    assert(linked_children(d));
    let cs = d.children;
    let prev = cs[i - 1];
    let w = prev.block() as int;
    let nb = next_block_after(cs, i);
    let after = write_at(before, block_offset(w) + NEXT_OFFSET, be8(nb as u64));
    lemma_child_occupied(d, i - 1);
    lemma_block_occupied(prev);
    // the directory's own entry block is untouched
    assert(d.block as int != w);
    lemma_write_inside_block(before, block_offset(w) + NEXT_OFFSET, be8(nb as u64), w, set![d.block as int]);
    assert(set![d.block as int].contains(d.block as int));
    assert(block_bytes(after, d.block as int) == block_bytes(before, d.block as int));
    // the entry before now points past the removed one
    assert(stored_entry(before, key, prev));
    lemma_next_rewritten(before, key, prev, nb);
    let r = DirectoryView { children: cs.update(i - 1, with_next(prev, nb)).remove(i), ..d };
    assert forall|k: int| 0 <= k < r.children.len() implies stored_entry(after, key, #[trigger] r.children[k]) by {
        if k == i - 1 {
            assert(r.children[k] == with_next(prev, nb));
        } else {
            let m = if k < i - 1 { k } else { k + 1 };
            assert(r.children[k] == cs[m]);
            if m < i - 1 {
                assert(occupied(cs[m]).disjoint(occupied(prev)));
            } else {
                assert(occupied(prev).disjoint(occupied(cs[m])));
            }
            assert(!occupied(cs[m]).contains(w));
            lemma_write_inside_block(before, block_offset(w) + NEXT_OFFSET, be8(nb as u64), w, occupied(cs[m]));
            lemma_stored_frame(before, after, key, cs[m]);
        }
    }
    assert forall|k: int| 0 <= k < r.children.len() - 1 implies (#[trigger] r.children[k + 1]).block() as int
        == r.children[k].next() as int by {
        if k + 1 < i - 1 {
            assert(cs[k + 1].block() as int == cs[k].next() as int);
        } else if k + 1 == i - 1 {
            assert(cs[k + 1].block() as int == cs[k].next() as int);
        } else if k == i - 1 {
            assert(r.children[k + 1] == cs[i + 1]);
            assert(cs[i + 1].block() as int == cs[i].next() as int);
        } else {
            let m = k + 1;
            assert(r.children[k + 1] == cs[m + 1]);
            assert(cs[m + 1].block() as int == cs[m].next() as int);
        }
    }
    assert(linked_children(r));
}

/// Taking an entry out keeps the block, the `next` and the name of every directory on the way.
proof fn lemma_delete_in_keeps(d: DirectoryView, path: Seq<Seq<char>>)
    ensures
        delete_in(d, path).block == d.block,
        delete_in(d, path).next == d.next,
        delete_in(d, path).name == d.name,
    decreases path.len(),
{
}

/// Unlinking the entry at `path` as `DirectoryEntry::delete_entry` writes it, from a directory
/// `d` that the file describes (whose blocks are apart), gives a file that describes `d` with
/// the entry taken out.
#[verifier::spinoff_prover]
#[verifier::rlimit(40)]
proof fn lemma_unlinked_stored(before: Seq<u8>, mid: Seq<u8>, key: Seq<u8>, d: DirectoryView, path: Seq<Seq<char>>)
    requires
        stored_entry(before, key, VaultEntryView::Directory(d)),
        blocks_apart(VaultEntryView::Directory(d)),
        lookup(d.children, path) is Some,
        name_wf(dir_along(d, path.drop_last()).name),
        unlinked_at(before, mid, d, path, key),
    ensures
        stored_entry(mid, key, VaultEntryView::Directory(delete_in(d, path))),
        exists|w: int| #[trigger] occupied(VaultEntryView::Directory(d)).contains(w) && writes_inside(before, mid, w),
    decreases path.len(),
{
    lemma_child_index_from(d.children, name_field(path[0]), 0);
    let i = child_index(d.children, path[0])->0;
    let cs = d.children;
    if path.len() == 1 {
        assert(path.drop_last() =~= Seq::<Seq<char>>::empty());
        assert(path.last() == path[0]);
        assert(dir_along(d, path.drop_last()) == d);
        assert(unlinked(before, mid, d, i, key));
        if i == 0 {
            let bytes = choose|bytes: Seq<u8>|
                #![trigger write_at(before, block_offset(d.block as int), bytes)]
                mid == write_at(before, block_offset(d.block as int), bytes) && bytes.len() == DATABLOCK_LENGTH
                    && bytes == entry_block_bytes(
                    DIRENTRY_TYPE,
                    d.next,
                    bytes.subrange(9, 21),
                    aes256gcm_seal(
                        key,
                        bytes.subrange(9, 21),
                        directory_plain(DirectoryView { first_child: next_block_after(cs, 0), ..d }),
                    ),
                ) && spec_decrypt(
                    key,
                    bytes.subrange(9, 21),
                    aes256gcm_seal(
                        key,
                        bytes.subrange(9, 21),
                        directory_plain(DirectoryView { first_child: next_block_after(cs, 0), ..d }),
                    ),
                ) == Ok::<Seq<u8>, ()>(directory_plain(DirectoryView { first_child: next_block_after(cs, 0), ..d }))
                    && aes256gcm_seal(
                    key,
                    bytes.subrange(9, 21),
                    directory_plain(DirectoryView { first_child: next_block_after(cs, 0), ..d }),
                ).len() == DIRENTRY_ENC_LENGTH + AES_TAG_LENGTH;
            lemma_first_entry_removed(before, key, d, bytes);
            lemma_block_occupied(VaultEntryView::Directory(d));
            assert(writes_inside(before, mid, d.block as int));
        } else {
            assert(stored_entry(before, key, cs[i - 1]));
            lemma_later_entry_removed(before, key, d, i);
            lemma_child_occupied(d, i - 1);
            lemma_block_occupied(cs[i - 1]);
            assert(writes_inside(before, mid, cs[i - 1].block() as int));
        }
    } else {
        let sub = cs[i]->Directory_0;
        let rest = path.drop_first();
        assert(path.drop_last().drop_first() =~= rest.drop_last());
        assert(path.drop_last()[0] == path[0]);
        assert(path.last() == rest.last());
        assert(dir_along(d, path.drop_last()) == dir_along(sub, rest.drop_last()));
        assert(stored_entry(before, key, cs[i]));
        lemma_unlinked_stored(before, mid, key, sub, rest);
        let r = delete_in(d, path);
        let s2 = delete_in(sub, rest);
        assert(r == DirectoryView { children: cs.update(i, VaultEntryView::Directory(s2)), ..d });
        // the unlinking writes inside one block of `sub`
        let w = choose|w: int| #[trigger] occupied(VaultEntryView::Directory(sub)).contains(w) && writes_inside(before, mid, w);
        lemma_child_occupied(d, i);
        assert(occupied(VaultEntryView::Directory(d)).contains(w));
        assert(!occupied(cs[i]).contains(d.block as int));
        lemma_writes_inside_agree(before, mid, w, set![d.block as int]);
        assert(set![d.block as int].contains(d.block as int));
        assert(block_bytes(mid, d.block as int) == block_bytes(before, d.block as int));
        assert forall|j: int| 0 <= j < r.children.len() implies stored_entry(mid, key, #[trigger] r.children[j]) by {
            if j != i {
                assert(r.children[j] == cs[j]);
                if j < i {
                    assert(occupied(cs[j]).disjoint(occupied(cs[i])));
                } else {
                    assert(occupied(cs[i]).disjoint(occupied(cs[j])));
                }
                lemma_writes_inside_agree(before, mid, w, occupied(cs[j]));
                lemma_stored_frame(before, mid, key, cs[j]);
            }
        }
        lemma_delete_in_keeps(sub, rest);
        assert(linked_children(d));
        assert forall|j: int| 0 <= j < r.children.len() - 1 implies (#[trigger] r.children[j + 1]).block() as int
            == r.children[j].next() as int by {
            assert(cs[j + 1].block() as int == cs[j].next() as int);
        }
        assert(linked_children(r));
    }
}

/// Changes only inside the blocks `changed` leave every set of blocks apart from them as it was.
proof fn lemma_agree_outside(before: Seq<u8>, after: Seq<u8>, changed: Set<int>, kept: Set<int>)
    requires
        same_outside(before, after, changed),
        kept.disjoint(changed),
    ensures
        blocks_agree(before, after, kept),
{
    assert forall|b: int|
        #[trigger] kept.contains(b) && 0 <= b && block_offset(b) + DATABLOCK_LENGTH <= before.len() implies block_offset(b)
        + DATABLOCK_LENGTH <= after.len() && block_bytes(after, b) == block_bytes(before, b) by {
        assert forall|k: int| 0 <= k < DATABLOCK_LENGTH implies #[trigger] block_bytes(after, b)[k] == block_bytes(
            before,
            b,
        )[k] by {
            let i = block_offset(b) + k;
            if in_blocks(changed, i) {
                let c = choose|c: int| #[trigger] changed.contains(c) && block_offset(c) <= i < block_offset(c) + DATABLOCK_LENGTH;
                lemma_byte_of_one_block(b, c, i);
            }
        }
        assert(block_bytes(after, b) =~= block_bytes(before, b));
    }
}

/// The law of deleting: when the file describes directory `d` (whose blocks are apart),
/// unlinking the entry at `path` as `DirectoryEntry::delete_entry` writes it, and then changing
/// nothing but the blocks that entry occupies (as erasing them does), gives a file that still
/// describes the tree: `d` with the entry taken out.
pub proof fn lemma_deleted_stored(
    before: Seq<u8>,
    mid: Seq<u8>,
    after: Seq<u8>,
    key: Seq<u8>,
    d: DirectoryView,
    path: Seq<Seq<char>>,
)
    requires
        stored_entry(before, key, VaultEntryView::Directory(d)),
        blocks_apart(VaultEntryView::Directory(d)),
        lookup(d.children, path) is Some,
        name_wf(dir_along(d, path.drop_last()).name),
        unlinked_at(before, mid, d, path, key),
        same_outside(mid, after, occupied(lookup(d.children, path)->0)),
    ensures
        stored_entry(after, key, VaultEntryView::Directory(delete_in(d, path))),
{
    lemma_unlinked_stored(before, mid, key, d, path);
    lemma_deleted_apart(d, path);
    let r = VaultEntryView::Directory(delete_in(d, path));
    lemma_agree_outside(mid, after, occupied(lookup(d.children, path)->0), occupied(r));
    lemma_stored_frame(mid, after, key, r);
}

} // verus!
