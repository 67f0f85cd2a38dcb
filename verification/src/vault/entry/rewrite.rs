//! How the entry blocks of a vault file keep describing the directory tree when an entry block
//! is written in place, as renaming an entry or adding one does: the written block decodes to
//! the entry, and every other block reads as before.
use vstd::prelude::*;
use crate::vault::codec::{be8, lemma_be8_roundtrip, lemma_i64_roundtrip, write_at};
use crate::crypt::{aes256gcm_seal, spec_decrypt, AES_NONCE_LENGTH, AES_TAG_LENGTH};
use crate::vault::entry::chain::{
    blocks_agree, blocks_apart, block_bytes, lemma_appended_stored, lemma_child_occupied, lemma_stored_frame,
    lemma_write_inside_block, lemma_writes_inside_agree, writes_inside,
};
use crate::vault::entry::tree::{
    child_index, dir_along, insert_in, lemma_child_index_from, linked_children, linked_in, lookup, renamed_in_file,
    stored_entry, update_at,
};
use crate::vault::entry::unlink::{lemma_block_occupied, lemma_lookup_occupied};
use crate::vault::entry::{
    entry_block_bytes, entry_plain, name_wf, occupied, password_plain, secret_plain, directory_plain,
    spec_build_directory, spec_build_password, spec_build_secret, with_name, DirectoryView, VaultEntryView,
    DIRENTRY_ENC_LENGTH, PWDENTRY_ENC_LENGTH, SECENTRY_ENC_LENGTH,
};
use crate::vault::codec::{from_be8, name_field};
use crate::vault::manager::{DATABLOCK_LENGTH, DIRENTRY_TYPE, PASSWORDENTRY_TYPE, SECRETENTRY_TYPE};
use crate::vault::utils::{block_offset, MAX_BLOCK_ID};
use crate::vault::properties::lemma_byte_of_run;

verus! {

/// The nonces an entry holds (of its password block, or of its secret file) are 12 bytes.
pub open spec fn nonces_wf(e: VaultEntryView) -> bool {
    match e {
        VaultEntryView::Password(p) => p.pwd_block_nonce.len() == AES_NONCE_LENGTH,
        VaultEntryView::Secret(s) => s.nonce.len() == AES_NONCE_LENGTH,
        VaultEntryView::Directory(_) => true,
    }
}

/// The entry block of `e` in `file` decodes to `e` (a directory without its entries).
pub open spec fn own_block_stored(file: Seq<u8>, key: Seq<u8>, e: VaultEntryView) -> bool {
    let off = block_offset(e.block() as int);
    let b = file.subrange(off, off + DATABLOCK_LENGTH);
    let nonce = b.subrange(9, 21);
    let data = b.subrange(21, DATABLOCK_LENGTH as int);
    let next = from_be8(b.subrange(1, 9)) as i64;
    &&& off + DATABLOCK_LENGTH <= file.len()
    &&& match e {
        VaultEntryView::Password(p) => b[0] == PASSWORDENTRY_TYPE && spec_build_password(nonce, data, next, key, p.block)
            == Some(p),
        VaultEntryView::Secret(s) => b[0] == SECRETENTRY_TYPE && spec_build_secret(nonce, data, next, key, s.block)
            == Some(s),
        VaultEntryView::Directory(d) => b[0] == DIRENTRY_TYPE && spec_build_directory(nonce, data, next, key, d.block)
            == Some(DirectoryView { children: Seq::empty(), ..d }),
    }
}

/// An entry block laid out as `VaultEntry::serialize` lays it out, written in place of the
/// entry block of `e`, decodes to `e`.
pub proof fn lemma_written_block_decodes(before: Seq<u8>, key: Seq<u8>, e: VaultEntryView, eb: Seq<u8>)
    requires
        name_wf(e.name()),
        nonces_wf(e),
        block_offset(e.block() as int) + DATABLOCK_LENGTH <= before.len(),
        eb.len() == DATABLOCK_LENGTH,
        eb == entry_block_bytes(
            entry_plain(e).0,
            e.next(),
            eb.subrange(9, 21),
            aes256gcm_seal(key, eb.subrange(9, 21), entry_plain(e).1),
        ),
        spec_decrypt(key, eb.subrange(9, 21), aes256gcm_seal(key, eb.subrange(9, 21), entry_plain(e).1))
            == Ok::<Seq<u8>, ()>(entry_plain(e).1),
        aes256gcm_seal(key, eb.subrange(9, 21), entry_plain(e).1).len() == entry_plain(e).1.len() + AES_TAG_LENGTH,
    ensures
        own_block_stored(write_at(before, block_offset(e.block() as int), eb), key, e),
{
    let w = e.block() as int;
    let after = write_at(before, block_offset(w), eb);
    assert(block_bytes(after, w) =~= eb);
    let n = eb.subrange(9, 21);
    let plain = entry_plain(e).1;
    let ct = aes256gcm_seal(key, n, plain);
    lemma_be8_roundtrip(e.next() as u64);
    lemma_i64_roundtrip(e.next());
    assert(eb.subrange(1, 9) =~= be8(e.next() as u64));
    match e {
        VaultEntryView::Password(p) => {
            lemma_be8_roundtrip(p.pwd_block);
            assert(eb.subrange(21, DATABLOCK_LENGTH as int).subrange(0, PWDENTRY_ENC_LENGTH + AES_TAG_LENGTH) =~= ct);
            assert(plain.subrange(0, 128) =~= p.name);
            assert(plain.subrange(128, 136) =~= be8(p.pwd_block));
            assert(plain.subrange(136, 148) =~= p.pwd_block_nonce);
        },
        VaultEntryView::Secret(s) => {
            lemma_be8_roundtrip(s.start);
            lemma_be8_roundtrip(s.size);
            assert(eb.subrange(21, DATABLOCK_LENGTH as int).subrange(0, SECENTRY_ENC_LENGTH + AES_TAG_LENGTH) =~= ct);
            assert(plain.subrange(0, 128) =~= s.name);
            assert(plain.subrange(128, 136) =~= be8(s.start));
            assert(plain.subrange(136, 144) =~= be8(s.size));
            assert(plain.subrange(144, 156) =~= s.nonce);
        },
        VaultEntryView::Directory(d) => {
            lemma_be8_roundtrip(d.first_child as u64);
            lemma_i64_roundtrip(d.first_child);
            assert(eb.subrange(21, DATABLOCK_LENGTH as int).subrange(0, DIRENTRY_ENC_LENGTH + AES_TAG_LENGTH) =~= ct);
            assert(plain.subrange(0, 128) =~= d.name);
            assert(plain.subrange(128, 136) =~= be8(d.first_child as u64));
        },
    }
}

/// Renaming an entry that the file describes (whose blocks are apart), by rewriting its entry
/// block in place, gives a file that describes the renamed entry; the write stays inside that
/// block.
proof fn lemma_renamed_entry_stored(before: Seq<u8>, after: Seq<u8>, key: Seq<u8>, x: VaultEntryView, nf: Seq<u8>)
    requires
        stored_entry(before, key, x),
        blocks_apart(x),
        name_wf(nf),
        nonces_wf(x),
        renamed_in_file(before, after, with_name(x, nf), key),
    ensures
        stored_entry(after, key, with_name(x, nf)),
        writes_inside(before, after, x.block() as int),
{
    let y = with_name(x, nf);
    let w = x.block() as int;
    let off = block_offset(w);
    assert(y.block() == x.block());
    let eb = choose|eb: Seq<u8>|
        #![trigger write_at(before, block_offset(y.block() as int), eb)]
        after == write_at(before, block_offset(y.block() as int), eb) && eb.len() == DATABLOCK_LENGTH && eb
            == entry_block_bytes(
            entry_plain(y).0,
            y.next(),
            eb.subrange(9, 21),
            aes256gcm_seal(key, eb.subrange(9, 21), entry_plain(y).1),
        ) && spec_decrypt(key, eb.subrange(9, 21), aes256gcm_seal(key, eb.subrange(9, 21), entry_plain(y).1))
            == Ok::<Seq<u8>, ()>(entry_plain(y).1) && aes256gcm_seal(key, eb.subrange(9, 21), entry_plain(y).1).len()
            == entry_plain(y).1.len() + AES_TAG_LENGTH;
    lemma_written_block_decodes(before, key, y, eb);
    assert(writes_inside(before, after, w));
    if let VaultEntryView::Directory(d) = x {
        let d2 = DirectoryView { name: nf, ..d };
        assert(y == VaultEntryView::Directory(d2));
        assert forall|k: int| 0 <= k < d2.children.len() implies stored_entry(after, key, #[trigger] d2.children[k]) by {
            assert(!occupied(d.children[k]).contains(w));
            lemma_write_inside_block(before, off, eb, w, occupied(d.children[k]));
            lemma_stored_frame(before, after, key, d.children[k]);
        }
        assert(linked_children(d));
        assert(linked_children(d2));
    }
}

/// The law of renaming: when the file describes directory `d` (whose blocks are apart),
/// rewriting the entry block of the entry at `path` under the new name `nf`, as
/// `DirectoryEntry::rename_entry` writes it, gives a file that still describes the tree: `d`
/// with that entry renamed.
pub proof fn lemma_renamed_stored(
    before: Seq<u8>,
    after: Seq<u8>,
    key: Seq<u8>,
    d: DirectoryView,
    path: Seq<Seq<char>>,
    nf: Seq<u8>,
    f: spec_fn(VaultEntryView) -> VaultEntryView,
)
    requires
        stored_entry(before, key, VaultEntryView::Directory(d)),
        blocks_apart(VaultEntryView::Directory(d)),
        lookup(d.children, path) is Some,
        name_wf(nf),
        nonces_wf(lookup(d.children, path)->0),
        forall|e: VaultEntryView| #[trigger] f(e) == with_name(e, nf),
        renamed_in_file(before, after, with_name(lookup(d.children, path)->0, nf), key),
    ensures
        stored_entry(after, key, VaultEntryView::Directory(DirectoryView { children: update_at(d.children, path, f), ..d })),
        writes_inside(before, after, lookup(d.children, path)->0.block() as int),
    decreases path.len(),
{
    lemma_child_index_from(d.children, name_field(path[0]), 0);
    let i = child_index(d.children, path[0])->0;
    let c = d.children;
    let t = lookup(c, path)->0;
    let w = t.block() as int;
    let c2 = update_at(c, path, f);
    let d2 = DirectoryView { children: c2, ..d };
    assert(stored_entry(before, key, c[i]));
    assert(linked_children(d));
    let y = if path.len() == 1 {
        lemma_renamed_entry_stored(before, after, key, c[i], nf);
        f(c[i])
    } else {
        let sub = c[i]->Directory_0;
        let rest = path.drop_first();
        lemma_renamed_stored(before, after, key, sub, rest, nf, f);
        VaultEntryView::Directory(DirectoryView { children: update_at(sub.children, rest, f), ..sub })
    };
    assert(c2 == c.update(i, y));
    assert(stored_entry(after, key, y));
    assert(y.block() == c[i].block() && y.next() == c[i].next());
    // the write stays inside a block of entry `i`
    assert(occupied(c[i]).contains(w)) by {
        lemma_block_occupied(t);
        if path.len() > 1 {
            lemma_lookup_occupied(c[i]->Directory_0, path.drop_first());
        }
    }
    lemma_child_occupied(d, i);
    assert(!occupied(c[i]).contains(d.block as int));
    lemma_writes_inside_agree(before, after, w, set![d.block as int]);
    assert(set![d.block as int].contains(d.block as int));
    assert(block_bytes(after, d.block as int) == block_bytes(before, d.block as int));
    assert forall|j: int| 0 <= j < c2.len() implies stored_entry(after, key, #[trigger] c2[j]) by {
        if j != i {
            assert(c2[j] == c[j]);
            if j < i {
                assert(occupied(c[j]).disjoint(occupied(c[i])));
            } else {
                assert(occupied(c[i]).disjoint(occupied(c[j])));
            }
            lemma_writes_inside_agree(before, after, w, occupied(c[j]));
            lemma_stored_frame(before, after, key, c[j]);
        }
    }
    assert forall|j: int| 0 <= j < c2.len() - 1 implies (#[trigger] c2[j + 1]).block() as int == c2[j].next() as int by {
        assert(c[j + 1].block() as int == c[j].next() as int);
    }
    assert(linked_children(d2));
}

/// The law of adding an entry: when the file describes directory `d` (whose blocks are apart),
/// writing a new entry `e` that occupies none of the blocks of `d` (first the blocks of its
/// data, which leave the blocks of `d` as they were, then its entry block in place, laid out as
/// `VaultEntry::serialize` lays it out), and then linking it into the directory that `path`
/// leads to as `DirectoryEntry::new_entry` writes it, gives a file that still describes the
/// tree: `d` with `e` added there.
pub proof fn lemma_added_stored(
    f0: Seq<u8>,
    f1: Seq<u8>,
    f3: Seq<u8>,
    key: Seq<u8>,
    d: DirectoryView,
    path: Seq<Seq<char>>,
    e: VaultEntryView,
    eb: Seq<u8>,
)
    requires
        stored_entry(f0, key, VaultEntryView::Directory(d)),
        blocks_apart(VaultEntryView::Directory(d)),
        blocks_agree(f0, f1, occupied(VaultEntryView::Directory(d))),
        block_offset(e.block() as int) + DATABLOCK_LENGTH <= f1.len(),
        name_wf(e.name()),
        nonces_wf(e),
        e matches VaultEntryView::Directory(x) ==> x.children.len() == 0 && x.first_child < 0,
        eb.len() == DATABLOCK_LENGTH,
        eb == entry_block_bytes(
            entry_plain(e).0,
            e.next(),
            eb.subrange(9, 21),
            aes256gcm_seal(key, eb.subrange(9, 21), entry_plain(e).1),
        ),
        spec_decrypt(key, eb.subrange(9, 21), aes256gcm_seal(key, eb.subrange(9, 21), entry_plain(e).1))
            == Ok::<Seq<u8>, ()>(entry_plain(e).1),
        aes256gcm_seal(key, eb.subrange(9, 21), entry_plain(e).1).len() == entry_plain(e).1.len() + AES_TAG_LENGTH,
        occupied(e).disjoint(occupied(VaultEntryView::Directory(d))),
        e.next() < 0,
        e.block() <= MAX_BLOCK_ID,
        insert_in(d, path, e) is Some,
        name_wf(dir_along(d, path).name),
        linked_in(write_at(f1, block_offset(e.block() as int), eb), f3, dir_along(d, path), e.block(), key),
    ensures
        stored_entry(f3, key, VaultEntryView::Directory(insert_in(d, path, e)->0)),
{
    let dv = VaultEntryView::Directory(d);
    let w = e.block() as int;
    let f2 = write_at(f1, block_offset(w), eb);
    lemma_stored_frame(f0, f1, key, dv);
    lemma_block_occupied(e);
    assert(!occupied(dv).contains(w));
    lemma_write_inside_block(f1, block_offset(w), eb, w, occupied(dv));
    lemma_stored_frame(f1, f2, key, dv);
    lemma_written_block_decodes(f1, key, e, eb);
    if let VaultEntryView::Directory(x) = e {
        assert(linked_children(x));
    }
    assert(stored_entry(f2, key, e));
    lemma_appended_stored(f2, f3, key, d, path, e);
}

/// Writing `n` whole blocks in place from block `s` on leaves every set of blocks without any
/// of them as it was.
pub proof fn lemma_write_run_agree(file: Seq<u8>, s: int, n: int, data: Seq<u8>, blocks: Set<int>)
    requires
        n >= 1,
        data.len() == n * DATABLOCK_LENGTH,
        block_offset(s + n) <= file.len(),
        forall|k: int| s <= k < s + n ==> !#[trigger] blocks.contains(k),
    ensures
        blocks_agree(file, write_at(file, block_offset(s), data), blocks),
{
    let g = write_at(file, block_offset(s), data);
    assert(block_offset(s) + data.len() == block_offset(s + n)) by (nonlinear_arith)
        requires
            data.len() == n * 272,
    ;
    assert forall|b: int|
        #[trigger] blocks.contains(b) && 0 <= b && block_offset(b) + DATABLOCK_LENGTH <= file.len() implies block_offset(b)
        + DATABLOCK_LENGTH <= g.len() && block_bytes(g, b) == block_bytes(file, b) by {
        assert forall|k: int| 0 <= k < DATABLOCK_LENGTH implies #[trigger] block_bytes(g, b)[k] == block_bytes(file, b)[k] by {
            let i = block_offset(b) + k;
            if block_offset(s) <= i < block_offset(s + n) {
                lemma_byte_of_run(s, n, b, i);
            }
        }
        assert(block_bytes(g, b) =~= block_bytes(file, b));
    }
}

} // verus!
