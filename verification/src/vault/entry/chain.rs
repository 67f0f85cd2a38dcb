//! How the entry blocks of a vault file keep describing the directory tree when an entry is
//! appended: the blocks that the linking writes touch are those of the directory it goes to, and
//! every other entry block reads as before.
use vstd::prelude::*;
use crate::vault::codec::{be8, from_be8, lemma_be8_roundtrip, lemma_i64_roundtrip, write_at};
use crate::crypt::{aes256gcm_seal, spec_decrypt, AES_TAG_LENGTH};
use crate::vault::entry::tree::{
    appended, child_index, children_count, dir_along, entry_count, insert_in, linked_children, linked_in, rebuildable,
    stored_entry,
};
use crate::vault::entry::blocks_valid;
use crate::vault::entry::{
    directory_plain, entry_block_bytes, name_wf, occupied, occupied_children, with_next, DirectoryView, VaultEntryView,
    DIRENTRY_ENC_LENGTH,
};
use crate::vault::manager::{DATABLOCK_LENGTH, DIRENTRY_TYPE, NEXT_OFFSET};
use crate::vault::utils::MAX_BLOCK_ID;
use crate::vault::utils::block_offset;

verus! {

/// The bytes of block `b` of `file` (as far as the file goes).
pub open spec fn block_bytes(file: Seq<u8>, b: int) -> Seq<u8> {
    file.subrange(block_offset(b), block_offset(b) + DATABLOCK_LENGTH)
}

/// Every block of `blocks` that lies within `before` reads the same in `after`.
pub open spec fn blocks_agree(before: Seq<u8>, after: Seq<u8>, blocks: Set<int>) -> bool {
    forall|b: int|
        #[trigger] blocks.contains(b) && 0 <= b && block_offset(b) + DATABLOCK_LENGTH <= before.len() ==> block_offset(b)
            + DATABLOCK_LENGTH <= after.len() && block_bytes(after, b) == block_bytes(before, b)
}

/// The blocks an entry occupies are pairwise apart: no entry of a directory occupies the
/// directory's entry block, two entries of a directory occupy no block in common, and the same
/// holds inside every directory of the tree.
pub open spec fn blocks_apart(e: VaultEntryView) -> bool
    decreases e,
{
    match e {
        VaultEntryView::Directory(d) => {
            &&& forall|i: int| 0 <= i < d.children.len() ==> !(#[trigger] occupied(d.children[i])).contains(d.block as int)
            &&& forall|i: int, j: int|
                0 <= i < j < d.children.len() ==> (#[trigger] occupied(d.children[i])).disjoint(
                    #[trigger] occupied(d.children[j]),
                )
            &&& forall|i: int| 0 <= i < d.children.len() ==> blocks_apart(#[trigger] d.children[i])
        },
        _ => true,
    }
}

/// A write of `data` at `pos` that stays inside block `w` leaves every other block as it was.
pub proof fn lemma_write_inside_block(file: Seq<u8>, pos: int, data: Seq<u8>, w: int, blocks: Set<int>)
    requires
        block_offset(w) <= pos,
        pos + data.len() <= block_offset(w) + DATABLOCK_LENGTH,
        !blocks.contains(w),
    ensures
        blocks_agree(file, write_at(file, pos, data), blocks),
{
    let g = write_at(file, pos, data);
    assert forall|b: int|
        #[trigger] blocks.contains(b) && 0 <= b && block_offset(b) + DATABLOCK_LENGTH <= file.len() implies block_offset(b)
        + DATABLOCK_LENGTH <= g.len() && block_bytes(g, b) == block_bytes(file, b) by {
        if b < w {
            assert(block_offset(b) + DATABLOCK_LENGTH <= block_offset(w)) by (nonlinear_arith)
                requires
                    b < w,
            ;
        } else {
            assert(b != w);
            assert(block_offset(b) >= block_offset(w) + DATABLOCK_LENGTH) by (nonlinear_arith)
                requires
                    b > w,
            ;
        }
        assert(block_offset(b) + DATABLOCK_LENGTH <= pos || block_offset(b) >= pos + data.len());
        assert(g.len() >= file.len());
        assert forall|i: int| 0 <= i < DATABLOCK_LENGTH implies #[trigger] block_bytes(g, b)[i] == block_bytes(file, b)[i] by {
            let j = block_offset(b) + i;
            assert(!(pos <= j < pos + data.len()));
            assert(g[j] == file[j]);
        }
        assert(block_bytes(g, b) =~= block_bytes(file, b));
    }
}

/// Agreement on a set of blocks is agreement on every part of it.
pub proof fn lemma_agree_subset(before: Seq<u8>, after: Seq<u8>, large: Set<int>, small: Set<int>)
    requires
        blocks_agree(before, after, large),
        small.subset_of(large),
    ensures
        blocks_agree(before, after, small),
{
    assert forall|b: int| #[trigger] small.contains(b) && 0 <= b && block_offset(b) + DATABLOCK_LENGTH <= before.len() implies block_offset(b)
        + DATABLOCK_LENGTH <= after.len() && block_bytes(after, b) == block_bytes(before, b) by {
        assert(large.contains(b));
    }
}

/// The blocks an entry of a directory occupies are among those the directory occupies.
pub proof fn lemma_child_occupied(d: DirectoryView, i: int)
    requires
        0 <= i < d.children.len(),
    ensures
        occupied(d.children[i]).subset_of(occupied(VaultEntryView::Directory(d))),
{
    crate::vault::entry::tree::lemma_occupied_child(d.children, d.children.len() as int, i);
}

/// An entry that the entry blocks of a file describe is still described by a file in which the
/// blocks it occupies read the same.
pub proof fn lemma_stored_frame(before: Seq<u8>, after: Seq<u8>, key: Seq<u8>, e: VaultEntryView)
    requires
        stored_entry(before, key, e),
        blocks_agree(before, after, occupied(e)),
    ensures
        stored_entry(after, key, e),
    decreases e,
{
    let b = e.block() as int;
    assert(occupied(e).contains(b)) by {
        if let VaultEntryView::Directory(d) = e {
            assert(occupied_children(d.children, d.children.len() as int).insert(d.block as int).contains(b));
        }
    }
    assert(block_bytes(after, b) == block_bytes(before, b));
    if let VaultEntryView::Directory(d) = e {
        assert forall|i: int| 0 <= i < d.children.len() implies stored_entry(after, key, #[trigger] d.children[i]) by {
            lemma_child_occupied(d, i);
            lemma_agree_subset(before, after, occupied(e), occupied(d.children[i]));
            lemma_stored_frame(before, after, key, d.children[i]);
        }
    }
}

/// Setting the `next` field in the entry block of an entry that the file describes gives a file
/// that describes the entry with that `next` (its blocks being apart, the entries inside a
/// directory are untouched).
pub proof fn lemma_next_rewritten(before: Seq<u8>, key: Seq<u8>, x: VaultEntryView, next: i64)
    requires
        stored_entry(before, key, x),
        blocks_apart(x),
    ensures
        stored_entry(
            write_at(before, block_offset(x.block() as int) + NEXT_OFFSET, be8(next as u64)),
            key,
            with_next(x, next),
        ),
{
    let w = x.block() as int;
    let off = block_offset(w);
    let after = write_at(before, off + NEXT_OFFSET, be8(next as u64));
    lemma_be8_roundtrip(next as u64);
    lemma_i64_roundtrip(next);
    let b0 = block_bytes(before, w);
    let b1 = block_bytes(after, w);
    assert(b1[0] == b0[0]);
    assert(b1.subrange(1, 9) =~= be8(next as u64));
    assert(b1.subrange(9, 21) =~= b0.subrange(9, 21));
    assert(b1.subrange(21, DATABLOCK_LENGTH as int) =~= b0.subrange(21, DATABLOCK_LENGTH as int));
    assert(from_be8(b1.subrange(1, 9)) as i64 == next);
    if let VaultEntryView::Directory(d) = x {
        assert forall|i: int| 0 <= i < d.children.len() implies stored_entry(after, key, #[trigger] d.children[i]) by {
            lemma_write_inside_block(before, off + NEXT_OFFSET, be8(next as u64), w, occupied(d.children[i]));
            lemma_stored_frame(before, after, key, d.children[i]);
        }
        assert(linked_children(DirectoryView { next, ..d }));
    }
}

/// Appending `e` to an empty directory `d` that the file describes, by rewriting the directory's
/// entry block sealed with `e` as its first entry, gives a file that describes `d` with `e` in it.
pub proof fn lemma_first_entry_linked(before: Seq<u8>, key: Seq<u8>, d: DirectoryView, e: VaultEntryView, bytes: Seq<u8>)
    requires
        stored_entry(before, key, VaultEntryView::Directory(d)),
        stored_entry(before, key, e),
        d.children.len() == 0,
        name_wf(d.name),
        !occupied(e).contains(d.block as int),
        e.next() < 0,
        e.block() <= MAX_BLOCK_ID,
        bytes.len() == DATABLOCK_LENGTH,
        bytes == entry_block_bytes(
            DIRENTRY_TYPE,
            d.next,
            bytes.subrange(9, 21),
            aes256gcm_seal(key, bytes.subrange(9, 21), directory_plain(DirectoryView { first_child: e.block() as i64, ..d })),
        ),
        spec_decrypt(
            key,
            bytes.subrange(9, 21),
            aes256gcm_seal(key, bytes.subrange(9, 21), directory_plain(DirectoryView { first_child: e.block() as i64, ..d })),
        ) == Ok::<Seq<u8>, ()>(directory_plain(DirectoryView { first_child: e.block() as i64, ..d })),
        aes256gcm_seal(key, bytes.subrange(9, 21), directory_plain(DirectoryView { first_child: e.block() as i64, ..d })).len()
            == DIRENTRY_ENC_LENGTH + AES_TAG_LENGTH,
    ensures
        stored_entry(
            write_at(before, block_offset(d.block as int), bytes),
            key,
            VaultEntryView::Directory(appended(d, e)),
        ),
{
    let w = d.block as int;
    let off = block_offset(w);
    let after = write_at(before, off, bytes);
    let d2 = DirectoryView { first_child: e.block() as i64, ..d };
    let plain = directory_plain(d2);
    let ct = aes256gcm_seal(key, bytes.subrange(9, 21), plain);
    lemma_be8_roundtrip(d.next as u64);
    lemma_i64_roundtrip(d.next);
    lemma_be8_roundtrip(d2.first_child as u64);
    lemma_i64_roundtrip(d2.first_child);
    assert(block_bytes(after, w) =~= bytes);
    assert(bytes.subrange(1, 9) =~= be8(d.next as u64));
    assert(bytes.subrange(21, DATABLOCK_LENGTH as int).subrange(0, DIRENTRY_ENC_LENGTH + AES_TAG_LENGTH) =~= ct);
    assert(plain.subrange(0, 128) =~= d.name);
    assert(plain.subrange(128, 136) =~= be8(d2.first_child as u64));
    lemma_write_inside_block(before, off, bytes, w, occupied(e));
    lemma_stored_frame(before, after, key, e);
    let a = appended(d, e);
    assert(a.children[0] == e);
    assert(linked_children(a));
}

/// Appending `e` to a directory `d` with entries that the file describes, by setting the `next`
/// field in the entry block of its last entry to `e`'s entry block, gives a file that describes
/// `d` with `e` at its end (the blocks of `d` being apart and `e` occupying none of them).
pub proof fn lemma_last_entry_linked(before: Seq<u8>, key: Seq<u8>, d: DirectoryView, e: VaultEntryView)
    requires
        stored_entry(before, key, VaultEntryView::Directory(d)),
        blocks_apart(VaultEntryView::Directory(d)),
        stored_entry(before, key, e),
        d.children.len() > 0,
        occupied(e).disjoint(occupied(VaultEntryView::Directory(d))),
        e.next() < 0,
        e.block() <= MAX_BLOCK_ID,
    ensures
        stored_entry(
            write_at(before, block_offset(d.children.last().block() as int) + NEXT_OFFSET, be8(e.block())),
            key,
            VaultEntryView::Directory(appended(d, e)),
        ),
{
    let n = d.children.len() - 1;
    let last = d.children[n];
    let w = last.block() as int;
    let nb = e.block() as i64;
    let after = write_at(before, block_offset(w) + NEXT_OFFSET, be8(e.block()));
    assert(nb as u64 == e.block());
    assert(be8(nb as u64) == be8(e.block()));
    let dv = VaultEntryView::Directory(d);
    lemma_child_occupied(d, n);
    assert(occupied(last).contains(w)) by {
        if let VaultEntryView::Directory(ld) = last {
            assert(occupied_children(ld.children, ld.children.len() as int).insert(ld.block as int).contains(w));
        }
    }
    // the directory's own entry block is untouched
    assert(d.block as int != w);
    lemma_write_inside_block(before, block_offset(w) + NEXT_OFFSET, be8(e.block()), w, set![d.block as int]);
    assert(set![d.block as int].contains(d.block as int));
    assert(block_bytes(after, d.block as int) == block_bytes(before, d.block as int));
    // the new entry is untouched
    assert(occupied(dv).contains(w));
    lemma_write_inside_block(before, block_offset(w) + NEXT_OFFSET, be8(e.block()), w, occupied(e));
    lemma_stored_frame(before, after, key, e);
    // the last entry now points to the new one
    lemma_next_rewritten(before, key, last, nb);
    let a = appended(d, e);
    assert forall|i: int| 0 <= i < a.children.len() implies stored_entry(after, key, #[trigger] a.children[i]) by {
        if i < n {
            assert(a.children[i] == d.children[i]);
            assert(occupied(d.children[i]).disjoint(occupied(last)));
            lemma_write_inside_block(before, block_offset(w) + NEXT_OFFSET, be8(e.block()), w, occupied(d.children[i]));
            lemma_stored_frame(before, after, key, d.children[i]);
        } else if i == n {
            assert(a.children[i] == with_next(last, nb));
        } else {
            assert(a.children[i] == e);
        }
    }
    assert forall|i: int| 0 <= i < a.children.len() - 1 implies (#[trigger] a.children[i + 1]).block() as int
        == a.children[i].next() as int by {
        if i + 1 < n {
            assert(d.children[i + 1].block() as int == d.children[i].next() as int);
        } else if i + 1 == n {
            assert(d.children[i + 1].block() as int == d.children[i].next() as int);
        }
    }
    assert(linked_children(a));
}

/// `after` is `before` with one write that stays inside block `w`.
pub open spec fn writes_inside(before: Seq<u8>, after: Seq<u8>, w: int) -> bool {
    exists|pos: int, data: Seq<u8>|
        #![trigger write_at(before, pos, data)]
        after == write_at(before, pos, data) && block_offset(w) <= pos && pos + data.len() <= block_offset(w)
            + DATABLOCK_LENGTH
}

/// A write inside block `w` leaves every set of blocks without `w` as it was.
pub proof fn lemma_writes_inside_agree(before: Seq<u8>, after: Seq<u8>, w: int, blocks: Set<int>)
    requires
        writes_inside(before, after, w),
        !blocks.contains(w),
    ensures
        blocks_agree(before, after, blocks),
{
    let (pos, data) = choose|pos: int, data: Seq<u8>|
        #![trigger write_at(before, pos, data)]
        after == write_at(before, pos, data) && block_offset(w) <= pos && pos + data.len() <= block_offset(w)
            + DATABLOCK_LENGTH;
    lemma_write_inside_block(before, pos, data, w, blocks);
}

/// Appending an entry keeps the block, the `next` and the name of the directory it goes into
/// and of every directory on the way.
pub proof fn lemma_insert_in_keeps(d: DirectoryView, path: Seq<Seq<char>>, e: VaultEntryView)
    requires
        insert_in(d, path, e) is Some,
    ensures
        insert_in(d, path, e)->0.block == d.block,
        insert_in(d, path, e)->0.next == d.next,
        insert_in(d, path, e)->0.name == d.name,
    decreases path.len(),
{
}

/// The law of appending: when the file describes directory `d` (whose blocks are apart) and a
/// new entry `e` (occupying none of the blocks of `d`, with no entry after it), linking `e` into
/// the directory that `path` leads to, as `DirectoryEntry::new_entry` writes it, gives a file
/// that describes `d` with `e` appended there; the write stays inside one block of `d`.
pub proof fn lemma_appended_stored(
    before: Seq<u8>,
    after: Seq<u8>,
    key: Seq<u8>,
    d: DirectoryView,
    path: Seq<Seq<char>>,
    e: VaultEntryView,
)
    requires
        stored_entry(before, key, VaultEntryView::Directory(d)),
        blocks_apart(VaultEntryView::Directory(d)),
        stored_entry(before, key, e),
        occupied(e).disjoint(occupied(VaultEntryView::Directory(d))),
        e.next() < 0,
        e.block() <= MAX_BLOCK_ID,
        insert_in(d, path, e) is Some,
        name_wf(dir_along(d, path).name),
        linked_in(before, after, dir_along(d, path), e.block(), key),
    ensures
        stored_entry(after, key, VaultEntryView::Directory(insert_in(d, path, e)->0)),
        exists|w: int| #[trigger] occupied(VaultEntryView::Directory(d)).contains(w) && writes_inside(before, after, w),
    decreases path.len(),
{
    let dv = VaultEntryView::Directory(d);
    assert(occupied(dv).contains(d.block as int));
    if path.len() == 0 {
        assert(dir_along(d, path) == d);
        if d.children.len() == 0 {
            let w = d.block as int;
            let bytes = choose|bytes: Seq<u8>|
                #![trigger write_at(before, block_offset(d.block as int), bytes)]
                after == write_at(before, block_offset(d.block as int), bytes) && bytes.len() == DATABLOCK_LENGTH
                    && bytes == entry_block_bytes(
                    DIRENTRY_TYPE,
                    d.next,
                    bytes.subrange(9, 21),
                    aes256gcm_seal(key, bytes.subrange(9, 21), directory_plain(DirectoryView { first_child: e.block() as i64, ..d })),
                ) && spec_decrypt(
                    key,
                    bytes.subrange(9, 21),
                    aes256gcm_seal(key, bytes.subrange(9, 21), directory_plain(DirectoryView { first_child: e.block() as i64, ..d })),
                ) == Ok::<Seq<u8>, ()>(directory_plain(DirectoryView { first_child: e.block() as i64, ..d })) && aes256gcm_seal(
                    key,
                    bytes.subrange(9, 21),
                    directory_plain(DirectoryView { first_child: e.block() as i64, ..d }),
                ).len() == DIRENTRY_ENC_LENGTH + AES_TAG_LENGTH;
            lemma_first_entry_linked(before, key, d, e, bytes);
            assert(writes_inside(before, after, w));
        } else {
            let n = d.children.len() - 1;
            let last = d.children[n];
            let w = last.block() as int;
            assert(stored_entry(before, key, last));
            lemma_last_entry_linked(before, key, d, e);
            lemma_child_occupied(d, n);
            assert(occupied(last).contains(w)) by {
                if let VaultEntryView::Directory(ld) = last {
                    assert(occupied_children(ld.children, ld.children.len() as int).insert(ld.block as int).contains(w));
                }
            }
            assert(occupied(dv).contains(w));
            assert(writes_inside(before, after, w));
        }
    } else {
        crate::vault::entry::tree::lemma_child_index_from(d.children, crate::vault::codec::name_field(path[0]), 0);
        let i = child_index(d.children, path[0])->0;
        let sub = d.children[i]->Directory_0;
        let rest = path.drop_first();
        assert(dir_along(d, path) == dir_along(sub, rest));
        lemma_child_occupied(d, i);
        assert(stored_entry(before, key, d.children[i]));
        lemma_appended_stored(before, after, key, sub, rest, e);
        let w = choose|w: int| #[trigger] occupied(VaultEntryView::Directory(sub)).contains(w) && writes_inside(before, after, w);
        assert(occupied(dv).contains(w));
        lemma_insert_in_keeps(sub, rest, e);
        let d2 = insert_in(d, path, e)->0;
        let s2 = insert_in(sub, rest, e)->0;
        assert(d2 == DirectoryView { children: d.children.update(i, VaultEntryView::Directory(s2)), ..d });
        // the directory's own entry block is untouched
        lemma_writes_inside_agree(before, after, w, set![d.block as int]);
        assert(set![d.block as int].contains(d.block as int));
        assert forall|j: int| 0 <= j < d2.children.len() implies stored_entry(after, key, #[trigger] d2.children[j]) by {
            if j != i {
                assert(d2.children[j] == d.children[j]);
                if j < i {
                    assert(occupied(d.children[j]).disjoint(occupied(d.children[i])));
                } else {
                    assert(occupied(d.children[i]).disjoint(occupied(d.children[j])));
                }
                lemma_writes_inside_agree(before, after, w, occupied(d.children[j]));
                lemma_stored_frame(before, after, key, d.children[j]);
            }
        }
        assert forall|j: int| 0 <= j < d2.children.len() - 1 implies (#[trigger] d2.children[j + 1]).block() as int
            == d2.children[j].next() as int by {
            assert(d.children[j + 1].block() as int == d.children[j].next() as int);
        }
        assert(linked_children(d2));
    }
}

/// The entry blocks of every entry inside `e` (none for a password or a secret file).
pub open spec fn below_blocks(e: VaultEntryView) -> Set<int>
    decreases e,
{
    match e {
        VaultEntryView::Directory(d) => below_children(d.children, d.children.len() as int),
        _ => Set::empty(),
    }
}

/// The entry blocks of the first `n` entries of `s` and of every entry inside them.
pub open spec fn below_children(s: Seq<VaultEntryView>, n: int) -> Set<int>
    decreases s, n,
{
    if n <= 0 || n > s.len() {
        Set::empty()
    } else {
        below_children(s, n - 1).union(below_blocks(s[n - 1]).insert(s[n - 1].block() as int))
    }
}

/// An entry occupies its own entry block.
proof fn lemma_own_block_occupied(e: VaultEntryView)
    ensures
        occupied(e).contains(e.block() as int),
{
    if let VaultEntryView::Directory(d) = e {
        assert(occupied_children(d.children, d.children.len() as int).insert(d.block as int).contains(d.block as int));
    }
}

/// What the first `n` entries occupy lies apart from what a later entry occupies, when the
/// entries occupy pairwise disjoint blocks.
proof fn lemma_prefix_apart(s: Seq<VaultEntryView>, n: int, j: int)
    requires
        0 <= n <= j < s.len(),
        forall|a: int, b: int| 0 <= a < b < s.len() ==> (#[trigger] occupied(s[a])).disjoint(#[trigger] occupied(s[b])),
    ensures
        occupied_children(s, n).disjoint(occupied(s[j])),
    decreases n,
{
    if n > 0 {
        lemma_prefix_apart(s, n - 1, j);
        assert(occupied(s[n - 1]).disjoint(occupied(s[j])));
    }
}

/// The entry blocks below the first `n` entries of a directory whose blocks are apart: as many as
/// are read when rebuilding them, all occupied by them, and none the directory's own block.
proof fn lemma_below_prefix(d: DirectoryView, n: int)
    requires
        0 <= n <= d.children.len(),
        blocks_apart(VaultEntryView::Directory(d)),
        forall|i: int|
            0 <= i < d.children.len() ==> {
                let c = #[trigger] d.children[i];
                &&& below_blocks(c).finite()
                &&& below_blocks(c).len() == entry_count(c)
                &&& below_blocks(c).subset_of(occupied(c))
                &&& !below_blocks(c).contains(c.block() as int)
            },
    ensures
        below_children(d.children, n).finite(),
        below_children(d.children, n).len() == children_count(d.children, n),
        below_children(d.children, n).subset_of(occupied_children(d.children, n)),
        !below_children(d.children, n).contains(d.block as int),
    decreases n,
{
    if n > 0 {
        let s = d.children;
        lemma_below_prefix(d, n - 1);
        let c = s[n - 1];
        let x = below_children(s, n - 1);
        let y = below_blocks(c).insert(c.block() as int);
        assert(y.len() == below_blocks(c).len() + 1);
        lemma_own_block_occupied(c);
        assert(y.subset_of(occupied(c)));
        let dv = VaultEntryView::Directory(d);
        assert(dv matches VaultEntryView::Directory(dd) && dd == d);
        assert(forall|k: int| 0 <= k < d.children.len() ==> !(#[trigger] occupied(d.children[k])).contains(d.block as int));
        assert(forall|a: int, b: int|
            0 <= a < b < d.children.len() ==> (#[trigger] occupied(d.children[a])).disjoint(#[trigger] occupied(d.children[b])));
        assert(!occupied(d.children[n - 1]).contains(d.block as int));
        lemma_prefix_apart(s, n - 1, n - 1);
        assert(x.disjoint(y));
        vstd::set_lib::lemma_set_disjoint_lens(x, y);
        assert(x + y == x.union(y));
    }
}

/// Below an entry whose blocks are apart lie as many entry blocks as rebuilding it reads, all of
/// them blocks it occupies, and none its own.
pub proof fn lemma_below_count(e: VaultEntryView)
    requires
        blocks_apart(e),
    ensures
        below_blocks(e).finite(),
        below_blocks(e).len() == entry_count(e),
        below_blocks(e).subset_of(occupied(e)),
        !below_blocks(e).contains(e.block() as int),
    decreases e,
{
    if let VaultEntryView::Directory(d) = e {
        assert forall|i: int| 0 <= i < d.children.len() implies {
            let c = #[trigger] d.children[i];
            &&& below_blocks(c).finite()
            &&& below_blocks(c).len() == entry_count(c)
            &&& below_blocks(c).subset_of(occupied(c))
            &&& !below_blocks(c).contains(c.block() as int)
        } by {
            lemma_below_count(d.children[i]);
        }
        lemma_below_prefix(d, d.children.len() as int);
    }
}

/// Every entry block below an entry that the file describes lies within the file.
pub proof fn lemma_below_in_file(file: Seq<u8>, key: Seq<u8>, e: VaultEntryView)
    requires
        stored_entry(file, key, e),
    ensures
        forall|b: int| #[trigger] below_blocks(e).contains(b) ==> 0 <= b && block_offset(b) + DATABLOCK_LENGTH <= file.len(),
    decreases e,
{
    if let VaultEntryView::Directory(d) = e {
        assert forall|i: int| 0 <= i < d.children.len() implies forall|b: int| #[trigger] below_blocks(
            #[trigger] d.children[i],
        ).contains(b) ==> 0 <= b && block_offset(b) + DATABLOCK_LENGTH <= file.len() by {
            lemma_below_in_file(file, key, d.children[i]);
        }
        lemma_below_prefix_in_file(file, key, d, d.children.len() as int);
        assert(below_blocks(e) == below_children(d.children, d.children.len() as int));
    }
}

/// Every entry block below the first `n` entries of a directory the file describes lies within
/// the file.
proof fn lemma_below_prefix_in_file(file: Seq<u8>, key: Seq<u8>, d: DirectoryView, n: int)
    requires
        0 <= n <= d.children.len(),
        stored_entry(file, key, VaultEntryView::Directory(d)),
        forall|i: int| 0 <= i < d.children.len() ==> forall|b: int| #[trigger] below_blocks(
            #[trigger] d.children[i],
        ).contains(b) ==> 0 <= b && block_offset(b) + DATABLOCK_LENGTH <= file.len(),
    ensures
        forall|b: int| #[trigger] below_children(d.children, n).contains(b) ==> 0 <= b && block_offset(b)
            + DATABLOCK_LENGTH <= file.len(),
    decreases n,
{
    if n > 0 {
        lemma_below_prefix_in_file(file, key, d, n - 1);
        let c = d.children[n - 1];
        assert(stored_entry(file, key, c));
        assert forall|b: int| #[trigger] below_children(d.children, n).contains(b) implies 0 <= b && block_offset(b)
            + DATABLOCK_LENGTH <= file.len() by {
            if below_blocks(c).contains(b) {
                assert(below_blocks(d.children[n - 1]).contains(b));
            } else if b == c.block() as int {
                assert(block_bytes(file, b).len() == DATABLOCK_LENGTH);
            } else {
                assert(below_children(d.children, n - 1).contains(b));
            }
        }
    }
}

/// A directory that the file describes, whose blocks are valid and apart, can be rebuilt: the
/// entry blocks below it are distinct blocks of the file, so there are no more of them than the
/// file has blocks, and rebuilding reads no more than that.
pub proof fn lemma_apart_tree_rebuildable(file: Seq<u8>, key: Seq<u8>, t: DirectoryView)
    requires
        stored_entry(file, key, VaultEntryView::Directory(t)),
        blocks_valid(VaultEntryView::Directory(t)),
        blocks_apart(VaultEntryView::Directory(t)),
    ensures
        rebuildable(file, key, t.block, file.len() as int / DATABLOCK_LENGTH as int + 1),
{
    let e = VaultEntryView::Directory(t);
    let n = file.len() as int / DATABLOCK_LENGTH as int;
    lemma_below_count(e);
    lemma_below_in_file(file, key, e);
    let range = vstd::set_lib::set_int_range(0, n);
    assert forall|b: int| #[trigger] below_blocks(e).contains(b) implies range.contains(b) by {
        let len = file.len() as int;
        assert(b < n) by (nonlinear_arith)
            requires
                0 <= b,
                213 + b * 272 + 272 <= len,
                n == len / 272,
        ;
    }
    vstd::set_lib::lemma_int_range(0, n);
    vstd::set_lib::lemma_len_subset(below_blocks(e), range);
    assert(entry_count(e) <= n + 1);
}

} // verus!




