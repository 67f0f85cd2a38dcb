//! Properties that relate the operations on a vault: what a lookup finds after a change, and
//! what a read gives back after a write.
use vstd::prelude::*;
use vstd::utf8::encode_utf8;
use crate::crypt::spec_decrypt;
use crate::error::VaultError;
use crate::vault::codec::{pad_to, write_at};
use crate::vault::entry::{
    lemma_password_block_roundtrip, lemma_trim_padding, password_block_holds, spec_stored_password, spec_stored_secret,
};
use crate::vault::utils::{
    alloc_start, block_offset, block_written, in_blocks, same_outside, VAULTHEADER_LENGTH, first_fit, fits, lemma_first_fit, lemma_first_fit_spec, occupy_ranges, ranges_wf, BlockRange,
};
use crate::vault::table::records::{
    block_plain, data_block_start, retrieves, stored_table_password, EntryResult, DATABLOCK_LENGTH,
    DATABLOCK_RAW_LENGTH,
};
use crate::vault::codec::name_field;
use crate::vault::entry::tree::{
    with_pwd_nonce, child_index, child_index_from, delete_in, insert_in, lemma_child_index_from, lookup, siblings, update_at,
};
use crate::vault::entry::{with_name, with_next, DirectoryView, VaultEntryView};
use crate::vault::table::{
    table_lookup, table_rename, table_siblings, table_update, with_table_name, with_table_pwd_nonce,
    TableDirectoryView, TableEntryView,
};

verus! {

/// After the entry at `path` was replaced by `f` of it, the path leads to `f` of the entry.
pub proof fn lemma_table_lookup_update(d: TableDirectoryView, path: Seq<Seq<char>>, f: spec_fn(TableEntryView) -> TableEntryView)
    requires
        table_lookup(d, path) is Some,
    ensures
        table_lookup(table_update(d, path, f), path) == Some(f(table_lookup(d, path)->0)),
    decreases path.len(),
{
    if path.len() > 1 {
        if let TableEntryView::Directory(sub) = d.children[path[0]] {
            lemma_table_lookup_update(sub, path.drop_first(), f);
        }
    }
}

/// After the entry at `path` was renamed to `new_name` (a name no other entry of its directory
/// has), the path with the new name leads to the renamed entry, and the old path leads nowhere.
pub proof fn lemma_table_lookup_rename(d: TableDirectoryView, path: Seq<Seq<char>>, new_name: Seq<char>)
    requires
        table_lookup(d, path) is Some,
        !table_siblings(d, path).dom().contains(new_name),
    ensures
        table_lookup(table_rename(d, path, new_name), path.drop_last().push(new_name)) == Some(
            with_table_name(table_lookup(d, path)->0, new_name),
        ),
        new_name != path.last() ==> table_lookup(table_rename(d, path, new_name), path) is None,
    decreases path.len(),
{
    let p2 = path.drop_last().push(new_name);
    if path.len() == 1 {
        assert(p2 =~= seq![new_name]);
    } else {
        assert(p2[0] == path[0]);
        assert(p2.drop_first() =~= path.drop_first().drop_last().push(new_name));
        if let TableEntryView::Directory(sub) = d.children[path[0]] {
            lemma_table_lookup_rename(sub, path.drop_first(), new_name);
            assert(path.drop_first().last() == path.last());
        }
    }
}

/// A password written with `change_password` and saved reads back: after the entry at `path`
/// took `nonce` and its data block was overwritten with `ct` (the encrypted, padded password),
/// reading the entry's secret from the saved file gives the password, when its UTF-8 text does
/// not end in a zero byte (the padding cannot be told apart from such a byte).
pub proof fn lemma_changed_password_reads_back(
    tree: TableDirectoryView,
    path: Seq<Seq<char>>,
    file: Seq<u8>,
    data_start: u64,
    key: Seq<u8>,
    nonce: Seq<u8>,
    ct: Seq<u8>,
    pw: Seq<char>,
    r: Result<EntryResult, VaultError>,
)
    requires
        table_lookup(tree, path) matches Some(TableEntryView::Password(_)),
        ct.len() == DATABLOCK_LENGTH,
        spec_decrypt(key, nonce, ct) == Ok::<Seq<u8>, ()>(pad_to(encode_utf8(pw), DATABLOCK_RAW_LENGTH as nat)),
        encode_utf8(pw).len() <= DATABLOCK_RAW_LENGTH,
        encode_utf8(pw).len() == 0 || encode_utf8(pw).last() != 0,
        retrieves(
            write_at(
                file,
                data_block_start(data_start, table_lookup(tree, path)->0->Password_0.block as int),
                ct,
            ),
            data_start,
            key,
            table_lookup(table_update(tree, path, |e: TableEntryView| with_table_pwd_nonce(e, nonce)), path)->0,
            r,
        ),
    ensures
        r matches Ok(EntryResult::Password(s)) && s@ == pw,
{
    let p = table_lookup(tree, path)->0->Password_0;
    let f = |e: TableEntryView| with_table_pwd_nonce(e, nonce);
    lemma_table_lookup_update(tree, path, f);
    let start = data_block_start(data_start, p.block as int);
    let file2 = write_at(file, start, ct);
    assert(file2.subrange(start, start + DATABLOCK_LENGTH) =~= ct);
    let padded = pad_to(encode_utf8(pw), DATABLOCK_RAW_LENGTH as nat);
    assert(block_plain(file2, key, nonce, start) == Some(padded));
    lemma_trim_padding(encode_utf8(pw), DATABLOCK_RAW_LENGTH as nat);
    vstd::utf8::encode_utf8_valid_utf8(pw);
    vstd::utf8::encode_utf8_decode_utf8(pw);
    assert(stored_table_password(padded) == Some(pw));
}

/// Replacing an entry by one with the same name does not change where a name is found.
proof fn lemma_child_index_update(c: Seq<VaultEntryView>, i: int, y: VaultEntryView, n: Seq<u8>, from: int)
    requires
        0 <= i < c.len(),
        y.name() == c[i].name(),
        0 <= from,
    ensures
        child_index_from(c.update(i, y), n, from) == child_index_from(c, n, from),
    decreases c.len() - from,
{
    if from < c.len() {
        lemma_child_index_update(c, i, y, n, from + 1);
    }
}

/// A name that only the entry at `i` has is found there.
proof fn lemma_child_index_unique(c: Seq<VaultEntryView>, i: int, n: Seq<u8>, from: int)
    requires
        0 <= from <= i < c.len(),
        c[i].name() == n,
        forall|j: int| 0 <= j < c.len() && j != i ==> (#[trigger] c[j]).name() != n,
    ensures
        child_index_from(c, n, from) == Some(i),
    decreases c.len() - from,
{
    if from < i {
        lemma_child_index_unique(c, i, n, from + 1);
    }
}

/// A name that no entry has is not found.
proof fn lemma_child_index_absent(c: Seq<VaultEntryView>, n: Seq<u8>, from: int)
    requires
        0 <= from,
        forall|j: int| 0 <= j < c.len() ==> (#[trigger] c[j]).name() != n,
    ensures
        child_index_from(c, n, from) is None,
    decreases c.len() - from,
{
    if from < c.len() {
        lemma_child_index_absent(c, n, from + 1);
    }
}

/// After the entry at `path` was replaced by `f` of it, where `f` keeps the entry's name, the
/// path leads to `f` of the entry.
pub proof fn lemma_lookup_update_at(c: Seq<VaultEntryView>, path: Seq<Seq<char>>, f: spec_fn(VaultEntryView) -> VaultEntryView)
    requires
        lookup(c, path) is Some,
        f(lookup(c, path)->0).name() == lookup(c, path)->0.name(),
    ensures
        lookup(update_at(c, path, f), path) == Some(f(lookup(c, path)->0)),
    decreases path.len(),
{
    let i = child_index(c, path[0])->0;
    lemma_child_index_from(c, name_field(path[0]), 0);
    if path.len() == 1 {
        lemma_child_index_update(c, i, f(c[i]), name_field(path[0]), 0);
    } else {
        if let VaultEntryView::Directory(d) = c[i] {
            lemma_lookup_update_at(d.children, path.drop_first(), f);
            let y = VaultEntryView::Directory(DirectoryView { children: update_at(d.children, path.drop_first(), f), ..d });
            lemma_child_index_update(c, i, y, name_field(path[0]), 0);
        }
    }
}

/// After the entry at `path` was renamed to `new_name` (a name no entry of its directory has),
/// the path with the new name leads to the renamed entry.
pub proof fn lemma_lookup_renamed(c: Seq<VaultEntryView>, path: Seq<Seq<char>>, new_name: Seq<char>)
    requires
        lookup(c, path) is Some,
        child_index(siblings(c, path), new_name) is None,
    ensures
        lookup(
            update_at(c, path, |e: VaultEntryView| with_name(e, name_field(new_name))),
            path.drop_last().push(new_name),
        ) == Some(with_name(lookup(c, path)->0, name_field(new_name))),
    decreases path.len(),
{
    let f = |e: VaultEntryView| with_name(e, name_field(new_name));
    let i = child_index(c, path[0])->0;
    let p2 = path.drop_last().push(new_name);
    lemma_child_index_from(c, name_field(path[0]), 0);
    if path.len() == 1 {
        assert(p2 =~= seq![new_name]);
        let c2 = c.update(i, f(c[i]));
        lemma_child_index_from(c, name_field(new_name), 0);
        assert forall|j: int| 0 <= j < c2.len() && j != i implies (#[trigger] c2[j]).name() != name_field(new_name) by {
            assert(c2[j] == c[j]);
        }
        lemma_child_index_unique(c2, i, name_field(new_name), 0);
    } else {
        assert(p2[0] == path[0]);
        assert(p2.drop_first() =~= path.drop_first().drop_last().push(new_name));
        if let VaultEntryView::Directory(d) = c[i] {
            lemma_lookup_renamed(d.children, path.drop_first(), new_name);
            let y = VaultEntryView::Directory(DirectoryView { children: update_at(d.children, path.drop_first(), f), ..d });
            lemma_child_index_update(c, i, y, name_field(path[0]), 0);
        }
    }
}

/// The directory the names of `path` lead to from `d` (`d` itself for an empty path)
pub open spec fn dir_at(d: DirectoryView, path: Seq<Seq<char>>) -> Option<DirectoryView> {
    if path.len() == 0 {
        Some(d)
    } else {
        match lookup(d.children, path) {
            Some(VaultEntryView::Directory(t)) => Some(t),
            _ => None,
        }
    }
}

/// After `e` was added to the directory at `path` under a name no entry there has, the path
/// with that name leads to `e`.
pub proof fn lemma_lookup_inserted(d: DirectoryView, path: Seq<Seq<char>>, e: VaultEntryView, name: Seq<char>)
    requires
        dir_at(d, path) is Some,
        child_index(dir_at(d, path)->0.children, name) is None,
        e.name() == name_field(name),
        insert_in(d, path, e) is Some,
    ensures
        lookup(insert_in(d, path, e)->0.children, path.push(name)) == Some(e),
    decreases path.len(),
{
    let nf = name_field(name);
    if path.len() == 0 {
        let c = d.children;
        let d2 = insert_in(d, path, e)->0;
        assert(path.push(name) =~= seq![name]);
        lemma_child_index_from(c, nf, 0);
        assert forall|j: int| 0 <= j < d2.children.len() && j != c.len() implies (#[trigger] d2.children[j]).name() != nf by {
            if c.len() > 0 && j == c.len() - 1 {
                assert(d2.children[j] == with_next(c.last(), e.block() as i64));
            } else {
                assert(d2.children[j] == c[j]);
            }
        }
        lemma_child_index_unique(d2.children, c.len() as int, nf, 0);
    } else {
        let c = d.children;
        let i = child_index(c, path[0])->0;
        lemma_child_index_from(c, name_field(path[0]), 0);
        if let VaultEntryView::Directory(sub) = c[i] {
            let rest = path.drop_first();
            let s2 = insert_in(sub, rest, e)->0;
            assert(s2.name == sub.name);
            assert(dir_at(sub, rest) == dir_at(d, path));
            lemma_lookup_inserted(sub, rest, e, name);
            lemma_child_index_update(c, i, VaultEntryView::Directory(s2), name_field(path[0]), 0);
            assert(path.push(name)[0] == path[0]);
            assert(path.push(name).drop_first() =~= rest.push(name));
        }
    }
}

/// The names of the entries of `c` are pairwise distinct.
pub open spec fn distinct_names(c: Seq<VaultEntryView>) -> bool {
    forall|j: int, k: int| 0 <= j < k < c.len() ==> (#[trigger] c[j]).name() != (#[trigger] c[k]).name()
}

/// After the entry at `path` was deleted from a directory whose entries have distinct names,
/// the path leads nowhere.
pub proof fn lemma_lookup_deleted(d: DirectoryView, path: Seq<Seq<char>>)
    requires
        lookup(d.children, path) is Some,
        distinct_names(siblings(d.children, path)),
    ensures
        lookup(delete_in(d, path).children, path) is None,
    decreases path.len(),
{
    let c = d.children;
    let i = child_index(c, path[0])->0;
    let nf = name_field(path[0]);
    lemma_child_index_from(c, nf, 0);
    if path.len() == 1 {
        let c2 = delete_in(d, path).children;
        assert forall|j: int| 0 <= j < c2.len() implies (#[trigger] c2[j]).name() != nf by {
            if j < i {
                if i > 0 && j == i - 1 {
                    assert(c2[j] == with_next(c[i - 1], crate::vault::entry::tree::next_block_after(c, i)));
                } else {
                    assert(c2[j] == c[j]);
                }
                assert(c[j].name() != c[i].name());
            } else {
                assert(c2[j] == c[j + 1]);
                assert(c[i].name() != c[j + 1].name());
            }
        }
        lemma_child_index_absent(c2, nf, 0);
    } else {
        if let VaultEntryView::Directory(sub) = c[i] {
            let rest = path.drop_first();
            lemma_lookup_deleted(sub, rest);
            let s2 = delete_in(sub, rest);
            assert(s2.name == sub.name);
            lemma_child_index_update(c, i, VaultEntryView::Directory(s2), nf, 0);
        }
    }
}

/// A password written with `change_password` reads back: after the password entry at `path`
/// took `nonce` and its password block was overwritten with `ct` (the encrypted, padded
/// password), the path leads to a password entry whose stored password is the new one, when
/// its UTF-8 text does not end in a zero byte.
pub proof fn lemma_changed_block_password_reads_back(
    tree: DirectoryView,
    path: Seq<Seq<char>>,
    file: Seq<u8>,
    key: Seq<u8>,
    nonce: Seq<u8>,
    ct: Seq<u8>,
    pw: Seq<char>,
)
    requires
        lookup(tree.children, path) matches Some(VaultEntryView::Password(p)) && block_offset(p.pwd_block as int)
            <= file.len(),
        password_block_holds(key, nonce, ct, pw),
        encode_utf8(pw).len() <= DATABLOCK_RAW_LENGTH,
        encode_utf8(pw).len() == 0 || encode_utf8(pw).last() != 0,
    ensures
        ({
            let p = lookup(tree.children, path)->0->Password_0;
            let after = update_at(tree.children, path, |e: VaultEntryView| with_pwd_nonce(e, nonce));
            &&& lookup(after, path) matches Some(VaultEntryView::Password(q)) && q.pwd_block == p.pwd_block
                && q.pwd_block_nonce == nonce
            &&& spec_stored_password(write_at(file, block_offset(p.pwd_block as int), ct), p.pwd_block, nonce, key)
                == Some(pw)
        }),
{
    let p = lookup(tree.children, path)->0->Password_0;
    let f = |e: VaultEntryView| with_pwd_nonce(e, nonce);
    lemma_lookup_update_at(tree.children, path, f);
    lemma_password_block_roundtrip(file, p.pwd_block, nonce, key, ct, pw);
}

/// The first of two single-block allocations from well-formed empty ranges comes before the
/// second.
proof fn lemma_two_allocations(ranges: Seq<BlockRange>)
    requires
        ranges_wf(ranges),
        ranges.len() > 0,
        occupy_ranges(ranges, 1).len() > 0,
    ensures
        alloc_start(ranges, 1) < alloc_start(occupy_ranges(ranges, 1), 1),
{
    assert(fits(ranges[0], 1));
    lemma_first_fit(ranges, 1, 0);
    let r1 = occupy_ranges(ranges, 1);
    if ranges[0].spec_len() > 1 {
        assert(r1[0] == BlockRange { start: (ranges[0].start + 1) as u64, end: ranges[0].end });
    } else {
        assert(r1[0] == ranges[1]);
        assert(ranges[0].end < ranges[1].start);
    }
    assert(fits(r1[0], 1));
    lemma_first_fit(r1, 1, 0);
}

/// A password stored by `PasswordEntry::new` reads back: its password block goes to the first
/// single-block allocation from the empty ranges and its entry block to the next one, so writing
/// the entry block leaves the password block as written; reading it gives the password, when
/// its UTF-8 text does not end in a zero byte and the password block lies within the file or
/// right after its end.
pub proof fn lemma_new_password_reads_back(
    ranges: Seq<BlockRange>,
    file: Seq<u8>,
    key: Seq<u8>,
    nonce: Seq<u8>,
    ct: Seq<u8>,
    eb: Seq<u8>,
    pw: Seq<char>,
)
    requires
        ranges_wf(ranges),
        ranges.len() > 0,
        occupy_ranges(ranges, 1).len() > 0,
        block_offset(alloc_start(ranges, 1) as int) <= file.len(),
        password_block_holds(key, nonce, ct, pw),
        encode_utf8(pw).len() <= DATABLOCK_RAW_LENGTH,
        encode_utf8(pw).len() == 0 || encode_utf8(pw).last() != 0,
    ensures
        spec_stored_password(
            block_written(
                block_written(file, alloc_start(ranges, 1), ct),
                alloc_start(occupy_ranges(ranges, 1), 1),
                eb,
            ),
            alloc_start(ranges, 1),
            nonce,
            key,
        ) == Some(pw),
{
    let p = alloc_start(ranges, 1);
    let b = alloc_start(occupy_ranges(ranges, 1), 1);
    lemma_two_allocations(ranges);
    let off = block_offset(p as int);
    let f1 = block_written(file, p, ct);
    let f2 = block_written(f1, b, eb);
    assert(f1.subrange(off, off + DATABLOCK_LENGTH) =~= ct);
    assert(block_offset(b as int) >= off + DATABLOCK_LENGTH);
    assert(f2.subrange(off, off + DATABLOCK_LENGTH) =~= f1.subrange(off, off + DATABLOCK_LENGTH));
    lemma_trim_padding(encode_utf8(pw), DATABLOCK_RAW_LENGTH as nat);
    vstd::utf8::encode_utf8_valid_utf8(pw);
    vstd::utf8::encode_utf8_decode_utf8(pw);
}

/// A byte of block `p` lies in no other block.
pub proof fn lemma_byte_of_one_block(p: int, b: int, i: int)
    requires
        block_offset(p) <= i < block_offset(p) + DATABLOCK_LENGTH,
        block_offset(b) <= i < block_offset(b) + DATABLOCK_LENGTH,
    ensures
        b == p,
{
    let l = DATABLOCK_LENGTH as int;
    assert((b - p) * l < l && (p - b) * l < l) by (nonlinear_arith)
        requires
            p * l <= i - VAULTHEADER_LENGTH < p * l + l,
            b * l <= i - VAULTHEADER_LENGTH < b * l + l;
    assert(b - p < 1 && p - b < 1) by (nonlinear_arith)
        requires
            (b - p) * l < l,
            (p - b) * l < l,
            l > 0;
}

/// A password block that a change leaves out of the blocks it touches reads as before.
pub proof fn lemma_stored_password_kept(
    before: Seq<u8>,
    after: Seq<u8>,
    blocks: Set<int>,
    pwd_block: u64,
    nonce: Seq<u8>,
    key: Seq<u8>,
)
    requires
        same_outside(before, after, blocks),
        !blocks.contains(pwd_block as int),
        spec_stored_password(before, pwd_block, nonce, key) is Some,
    ensures
        spec_stored_password(after, pwd_block, nonce, key) == spec_stored_password(before, pwd_block, nonce, key),
{
    let off = block_offset(pwd_block as int);
    assert forall|i: int| off <= i < off + DATABLOCK_LENGTH implies #[trigger] after[i] == before[i] by {
        if in_blocks(blocks, i) {
            let b = choose|b: int| #[trigger] blocks.contains(b) && block_offset(b) <= i < block_offset(b) + DATABLOCK_LENGTH;
            lemma_byte_of_one_block(pwd_block as int, b, i);
        }
    }
    assert(after.subrange(off, off + DATABLOCK_LENGTH) =~= before.subrange(off, off + DATABLOCK_LENGTH));
}

/// A byte between the starts of blocks `s` and `s + n` lies in no block outside them.
pub proof fn lemma_byte_of_run(s: int, n: int, b: int, i: int)
    requires
        n >= 1,
        block_offset(s) <= i < block_offset(s + n),
        block_offset(b) <= i < block_offset(b) + DATABLOCK_LENGTH,
    ensures
        s <= b < s + n,
{
    let l = DATABLOCK_LENGTH as int;
    let j = i - VAULTHEADER_LENGTH;
    assert(s <= b < s + n) by (nonlinear_arith)
        requires
            s * l <= j < (s + n) * l,
            b * l <= j < b * l + l,
            l > 0,
    {
        if b < s {
            assert(b * l + l <= s * l);
        }
        if b >= s + n {
            assert(b * l >= (s + n) * l);
        }
    }
}

/// A secret file whose blocks a change leaves out of the blocks it touches reads as before.
pub proof fn lemma_stored_secret_kept(
    before: Seq<u8>,
    after: Seq<u8>,
    blocks: Set<int>,
    start: u64,
    size: u64,
    nonce: Seq<u8>,
    key: Seq<u8>,
)
    requires
        same_outside(before, after, blocks),
        size >= 1,
        forall|b: int| start <= b < start + size ==> !#[trigger] blocks.contains(b),
        spec_stored_secret(before, start, size, nonce, key) is Some,
    ensures
        spec_stored_secret(after, start, size, nonce, key) == spec_stored_secret(before, start, size, nonce, key),
{
    let off = block_offset(start as int);
    let end = block_offset(start + size);
    assert forall|i: int| off <= i < end implies #[trigger] after[i] == before[i] by {
        if in_blocks(blocks, i) {
            let b = choose|b: int| #[trigger] blocks.contains(b) && block_offset(b) <= i < block_offset(b) + DATABLOCK_LENGTH;
            lemma_byte_of_run(start as int, size as int, b, i);
        }
    }
    assert(after.subrange(off, end) =~= before.subrange(off, end));
}

/// A single-block allocation after an allocation of `n` blocks lies outside the `n` blocks.
proof fn lemma_allocation_after_range(ranges: Seq<BlockRange>, n: int)
    requires
        ranges_wf(ranges),
        ranges.len() > 0,
        n >= 1,
        occupy_ranges(ranges, n).len() > 0,
        ranges.last().end < u64::MAX,
    ensures
        ({
            let s = alloc_start(ranges, n);
            let b = alloc_start(occupy_ranges(ranges, n), 1);
            b < s || b >= s + n
        }),
{
    let r1 = occupy_ranges(ranges, n);
    let s = alloc_start(ranges, n);
    if exists|k: int| 0 <= k < ranges.len() && fits(#[trigger] ranges[k], n) {
        let i = first_fit(ranges, n);
        lemma_first_fit_spec(ranges, n);
        assert(s == ranges[i].start);
        if i > 0 {
            assert(r1[0] == ranges[0]);
            assert(ranges[0].end < ranges[i].start);
        } else if ranges[0].spec_len() > n {
            assert(r1[0] == BlockRange { start: (ranges[0].start + n) as u64, end: ranges[0].end });
        } else {
            assert(r1[0] == ranges[1]);
            assert(ranges[0].end < ranges[1].start);
        }
    } else {
        assert(r1 == ranges);
        assert(s == (ranges.last().end + 1) as u64);
        assert(s == ranges.last().end + 1);
        assert(ranges[0].end <= ranges.last().end) by {
            if ranges.len() > 1 {
                assert(ranges[0].end < ranges[ranges.len() - 1].start);
            }
        }
    }
    assert(r1[0].start <= r1[0].end);
    assert(fits(r1[0], 1));
    lemma_first_fit(r1, 1, 0);
}

/// A secret file stored by `SecretFileEntry::new` reads back: its blocks go to the allocation of
/// `n` blocks from the empty ranges and its entry block to the next single-block allocation,
/// which lies outside them, so reading the blocks gives the padded contents, when the first
/// block lies within the file or right after its end.
pub proof fn lemma_new_secret_reads_back(
    ranges: Seq<BlockRange>,
    n: u64,
    file: Seq<u8>,
    key: Seq<u8>,
    nonce: Seq<u8>,
    ct: Seq<u8>,
    eb: Seq<u8>,
    plain: Seq<u8>,
)
    requires
        ranges_wf(ranges),
        ranges.len() > 0,
        n >= 1,
        occupy_ranges(ranges, n as int).len() > 0,
        ranges.last().end < u64::MAX,
        block_offset(alloc_start(ranges, n as int) as int) <= file.len(),
        eb.len() == DATABLOCK_LENGTH,
        ct.len() == n * DATABLOCK_LENGTH,
        spec_decrypt(key, nonce, ct) == Ok::<Seq<u8>, ()>(plain),
    ensures
        spec_stored_secret(
            block_written(
                block_written(file, alloc_start(ranges, n as int), ct),
                alloc_start(occupy_ranges(ranges, n as int), 1),
                eb,
            ),
            alloc_start(ranges, n as int),
            n,
            nonce,
            key,
        ) == Some(plain),
{
    let s = alloc_start(ranges, n as int);
    let b = alloc_start(occupy_ranges(ranges, n as int), 1);
    lemma_allocation_after_range(ranges, n as int);
    let off = block_offset(s as int);
    let end = block_offset(s + n);
    assert(end == off + ct.len()) by (nonlinear_arith)
        requires
            off == 213 + s * 272,
            end == 213 + (s + n) * 272,
            ct.len() == n * 272,
    ;
    let f1 = block_written(file, s, ct);
    let f2 = block_written(f1, b, eb);
    assert(f1.subrange(off, end) =~= ct);
    if b < s {
        assert(block_offset(b as int) + DATABLOCK_LENGTH <= off);
    } else {
        assert(block_offset(b as int) >= end) by (nonlinear_arith)
            requires
                b >= s + n,
                end == 213 + (s + n) * 272,
        ;
    }
    assert(f2.subrange(off, end) =~= f1.subrange(off, end));
}

/// Renaming an entry does not change what reading its secret gives: the entry keeps its blocks
/// and nonce.
pub proof fn lemma_renamed_entry_reads_same(
    file: Seq<u8>,
    data_start: u64,
    key: Seq<u8>,
    e: TableEntryView,
    new_name: Seq<char>,
    r: Result<EntryResult, VaultError>,
)
    ensures
        retrieves(file, data_start, key, with_table_name(e, new_name), r) == retrieves(file, data_start, key, e, r),
{
}

} // verus!
