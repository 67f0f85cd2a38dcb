//! Block bookkeeping, vault paths, the archive header and the vault file context.
use vstd::prelude::*;
use vstd::string::*;
use vstd::utf8::{decode_utf8, encode_utf8, valid_utf8};
use crate::crypt::{
    decrypt_region, generate_user_key, pbkdf2_hmac_sha256, spec_decrypt,
    AES_NONCE_LENGTH, IV_LENGTH, KEY_LENGTH, PBKDF2_ITERATIONS,
};
use crate::error::CryptographyError;
use crate::vault::codec::{
    array_at, be8, copy_range, from_be8, get_u64, lemma_be8_roundtrip, lemma_from_be8_injective,
    put_slice, put_u64, put_zeros, string_from_utf8, write_at, write_bytes_at, zeros,
};
use crate::vault::entry::{blocks_valid, occupied, DirectoryEntry, DirectoryView, VaultEntryView};
use crate::vault::entry::tree::{lemma_occupied_bounded, lemma_stored_entry_unique, rebuildable, stored_blocks_valid, stored_entry};
use crate::vault::error::{
    BuildVaultError, InitVaultContextError, FileChangeError, SeekFileError, VaultFileError, InvalidFileReasons, InvalidVaultPathError, ReadHeaderError, RetrieveKeyError,
};
use crate::vault::manager::{
    AES_GCM_AUTH_TAG, BLOCKID_LENGTH, DATABLOCK_LENGTH, ENTRYTYPE_LENGTH, NEXT_OFFSET, VAULTNAME_LENGTH,
};

verus! {

/// An inclusive range `start..=end` of data block ids.
#[derive(Debug, PartialEq, Eq, Structural, Clone, Copy)]
pub struct BlockRange {
    pub start: u64,
    pub end: u64,
}

impl BlockRange {
    /// The block ids this range covers.
    pub open spec fn spec_contains(self, b: int) -> bool {
        self.start <= b <= self.end
    }

    /// The number of blocks this range covers.
    pub open spec fn spec_len(self) -> int {
        self.end - self.start + 1
    }

    /// A range of `len` blocks starting at `start` (`len == 0` gives an empty range that ends
    /// just before `start`).
    pub fn new(start: u64, len: usize) -> (r: Self)
        requires
            1 <= start + len <= u64::MAX + 1,
        ensures
            r.start == start,
            r.end == start + len - 1,
    {
        if len == 0 {
            BlockRange { start, end: start - 1 }
        } else {
            BlockRange { start, end: start + (len as u64 - 1) }
        }
    }

    /// The number of blocks in the range.
    pub fn len(&self) -> (r: usize)
        requires
            self.start <= self.end,
            self.end - self.start < usize::MAX,
        ensures
            r == self.spec_len(),
    {
        (self.end - self.start) as usize + 1
    }

    /// Whether the two ranges share a block.
    pub fn overlaps(&self, other: &Self) -> (r: bool)
        ensures
            r == (self.start <= other.end && other.start <= self.end),
    {
        self.start <= other.end && other.start <= self.end
    }

    /// The smallest range that covers both ranges.
    pub fn merge_block(&self, other: &Self) -> (r: Self)
        ensures
            r.start == if self.start <= other.start { self.start } else { other.start },
            r.end == if self.end >= other.end { self.end } else { other.end },
    {
        BlockRange {
            start: if self.start <= other.start { self.start } else { other.start },
            end: if self.end >= other.end { self.end } else { other.end },
        }
    }
}

/// Whether block `b` lies in one of the ranges of `blocks`.
pub open spec fn ranges_contain(blocks: Seq<BlockRange>, b: int) -> bool {
    exists|k: int| 0 <= k < blocks.len() && (#[trigger] blocks[k]).spec_contains(b)
}

/// The ranges are non-empty, sorted by start and pairwise disjoint.
pub open spec fn ranges_wf(blocks: Seq<BlockRange>) -> bool {
    &&& forall|k: int| 0 <= k < blocks.len() ==> (#[trigger] blocks[k]).start <= blocks[k].end
    &&& forall|k1: int, k2: int|
        0 <= k1 < k2 < blocks.len() ==> (#[trigger] blocks[k1]).end < (#[trigger] blocks[k2]).start
}

/// How the sorted ranges `rs` lie around `b`: those before `lo` end before `b` starts, those
/// from `lo` up to `hi` overlap `b`, and those from `hi` on start after `b` ends.
pub open spec fn put_split(rs: Seq<BlockRange>, b: BlockRange, lo: int, hi: int) -> bool {
    &&& 0 <= lo <= hi <= rs.len()
    &&& forall|k: int| 0 <= k < lo ==> (#[trigger] rs[k]).end < b.start
    &&& forall|k: int| lo <= k < hi ==> (#[trigger] rs[k]).end >= b.start && rs[k].start <= b.end
    &&& forall|k: int| hi <= k < rs.len() ==> (#[trigger] rs[k]).start > b.end
}

/// The ranges after putting `b` into `rs` split as `put_split` says: the ranges that overlap `b`
/// are merged with it into one range, which takes their place (or `b` is inserted there); the
/// others stay as they are.
pub open spec fn put_result(rs: Seq<BlockRange>, b: BlockRange, lo: int, hi: int) -> Seq<BlockRange> {
    rs.subrange(0, lo) + seq![put_merged(rs, b, lo, hi)] + rs.subrange(hi, rs.len() as int)
}

/// `b` merged with the ranges `rs[lo..hi]` that overlap it (`b` itself when there are none).
pub open spec fn put_merged(rs: Seq<BlockRange>, b: BlockRange, lo: int, hi: int) -> BlockRange {
    if lo < hi {
        BlockRange {
            start: if b.start <= rs[lo].start { b.start } else { rs[lo].start },
            end: if b.end >= rs[hi - 1].end { b.end } else { rs[hi - 1].end },
        }
    } else {
        b
    }
}

/// The gaps before and between the first `n` of the sorted ranges `rs`, each as one range, in
/// order: from block 0 up to the first range, and from the end of each range up to the next.
pub open spec fn gap_ranges(rs: Seq<BlockRange>, n: int) -> Seq<BlockRange>
    decreases n,
{
    if n <= 0 {
        Seq::empty()
    } else {
        let from: int = if n == 1 { 0 } else { rs[n - 2].end + 1 };
        if from == rs[n - 1].start {
            gap_ranges(rs, n - 1)
        } else {
            gap_ranges(rs, n - 1).push(BlockRange { start: from as u64, end: (rs[n - 1].start - 1) as u64 })
        }
    }
}

/// Putting a range into sorted, disjoint ranges as `put_result` says keeps them sorted and
/// disjoint, and covers exactly the blocks of both.
pub proof fn lemma_put_result(rs: Seq<BlockRange>, b: BlockRange, lo: int, hi: int)
    requires
        ranges_wf(rs),
        b.start <= b.end,
        put_split(rs, b, lo, hi),
    ensures
        ranges_wf(put_result(rs, b, lo, hi)),
        Set::new(|x: int| ranges_contain(put_result(rs, b, lo, hi), x)) == Set::new(|x: int| ranges_contain(rs, x)).union(
            Set::new(|x: int| b.spec_contains(x)),
        ),
{
    let r = put_result(rs, b, lo, hi);
    let m = put_merged(rs, b, lo, hi);
    assert(r.len() == lo + 1 + (rs.len() - hi));
    assert forall|k: int| 0 <= k < r.len() implies #[trigger] r[k] == (if k < lo { rs[k] } else if k == lo { m } else { rs[k - lo - 1 + hi] }) by {
    }
    if lo < hi {
        assert(rs[lo].start <= rs[lo].end);
        assert(rs[hi - 1].start <= rs[hi - 1].end);
        if lo < hi - 1 {
            assert(rs[lo].end < rs[hi - 1].start);
        }
    }
    assert(m.start <= b.start && m.end >= b.end);
    assert forall|k1: int, k2: int| 0 <= k1 < k2 < r.len() implies (#[trigger] r[k1]).end < (#[trigger] r[k2]).start by {
        if k2 < lo {
        } else if k2 == lo {
            if lo < hi {
                assert(rs[k1].end < rs[lo].start);
            }
        } else if k1 == lo {
            let o = k2 - lo - 1 + hi;
            if lo < hi {
                assert(rs[hi - 1].end < rs[o].start);
            }
        } else if k1 < lo {
            let o = k2 - lo - 1 + hi;
            assert(rs[k1].end < rs[o].start);
        } else {
        }
    }
    assert forall|x: int| ranges_contain(r, x) <==> (ranges_contain(rs, x) || b.spec_contains(x)) by {
        if ranges_contain(r, x) {
            let k = choose|k: int| 0 <= k < r.len() && (#[trigger] r[k]).spec_contains(x);
            if k < lo {
                assert(rs[k].spec_contains(x));
            } else if k > lo {
                assert(rs[k - lo - 1 + hi].spec_contains(x));
            } else if !b.spec_contains(x) && lo < hi {
                if x < b.start {
                    assert(rs[lo].spec_contains(x));
                } else {
                    assert(rs[hi - 1].spec_contains(x));
                }
            }
        }
        if ranges_contain(rs, x) {
            let k = choose|k: int| 0 <= k < rs.len() && (#[trigger] rs[k]).spec_contains(x);
            if k < lo {
                assert(r[k].spec_contains(x));
            } else if k >= hi {
                assert(r[k - hi + lo + 1].spec_contains(x));
            } else {
                if k > lo {
                    assert(rs[lo].start < rs[k].start);
                }
                if k < hi - 1 {
                    assert(rs[k].end < rs[hi - 1].start);
                    assert(rs[hi - 1].start <= rs[hi - 1].end);
                }
                assert(r[lo].spec_contains(x));
            }
        }
        if b.spec_contains(x) {
            assert(r[lo].spec_contains(x));
        }
    }
    assert(Set::new(|x: int| ranges_contain(r, x)) =~= Set::new(|x: int| ranges_contain(rs, x)).union(
        Set::new(|x: int| b.spec_contains(x)),
    ));
}

// It is not optimized for speed efficiency as it is primarily used for the empty block management.
/// A set of data blocks, kept as sorted, disjoint ranges
#[derive(Debug)]
pub struct BlockSet {
    blocks: Vec<BlockRange>,
}

impl View for BlockSet {
    type V = Set<int>;

    open spec fn view(&self) -> Set<int> {
        Set::new(|b: int| ranges_contain(self.ranges(), b))
    }
}

impl BlockSet {
    /// The ranges of the set, in ascending order.
    pub closed spec fn ranges(&self) -> Seq<BlockRange> {
        self.blocks@
    }

    /// The set is kept as sorted, pairwise disjoint, non-empty ranges.
    pub closed spec fn wf(&self) -> bool {
        ranges_wf(self.blocks@)
    }

    /// An empty set of blocks.
    pub fn new() -> (r: Self)
        ensures
            r.wf(),
            r@ == Set::<int>::empty(),
            r.ranges() == Seq::<BlockRange>::empty(),
    {
        let r = BlockSet { blocks: Vec::new() };
        assert(r@ =~= Set::<int>::empty());
        r
    }

    /// The ranges of the set, in ascending order.
    pub fn blocks(&self) -> (r: &Vec<BlockRange>)
        ensures
            r@ == self.ranges(),
    {
        &self.blocks
    }

    /// The ranges of the set, in ascending order.
    pub fn into_vec(self) -> (r: Vec<BlockRange>)
        ensures
            r@ == self.ranges(),
    {
        self.blocks
    }

    /// Put every range of `other` into the set.
    pub fn put_all(&mut self, other: BlockSet)
        requires
            old(self).wf(),
            other.wf(),
        ensures
            final(self).wf(),
            final(self)@ == old(self)@.union(other@),
    {
        let ranges = other.into_vec();
        let mut i: usize = 0;
        while i < ranges.len()
            invariant
                i <= ranges@.len(),
                ranges_wf(ranges@),
                self.wf(),
                self@ == old(self)@.union(Set::new(|b: int| ranges_contain(ranges@.subrange(0, i as int), b))),
            decreases ranges@.len() - i,
        {
            let ghost before = self@;
            self.put(ranges[i]);
            proof {
                assert forall|b: int|
                    ranges_contain(ranges@.subrange(0, i + 1), b) == (ranges_contain(ranges@.subrange(0, i as int), b)
                        || ranges@[i as int].spec_contains(b)) by {
                    if ranges_contain(ranges@.subrange(0, i + 1), b) {
                        let k = choose|k: int|
                            0 <= k < i + 1 && (#[trigger] ranges@.subrange(0, i + 1)[k]).spec_contains(b);
                        if k < i {
                            assert(ranges@.subrange(0, i as int)[k] == ranges@[k]);
                        }
                    }
                    if ranges_contain(ranges@.subrange(0, i as int), b) {
                        let k = choose|k: int|
                            0 <= k < i && (#[trigger] ranges@.subrange(0, i as int)[k]).spec_contains(b);
                        assert(ranges@.subrange(0, i + 1)[k] == ranges@[k]);
                    }
                    if ranges@[i as int].spec_contains(b) {
                        assert(ranges@.subrange(0, i + 1)[i as int] == ranges@[i as int]);
                    }
                }
                assert(self@ =~= old(self)@.union(
                    Set::new(|b: int| ranges_contain(ranges@.subrange(0, i + 1), b)),
                ));
            }
            i += 1;
        }
        assert(ranges@.subrange(0, ranges@.len() as int) =~= ranges@);
        assert(self@ =~= old(self)@.union(other@));
    }

    /// Put a new BlockRange into the Blockset and merge blocks if they overlap
    #[verifier::spinoff_prover]
    pub fn put(&mut self, block: BlockRange)
        requires
            old(self).wf(),
            block.start <= block.end,
        ensures
            final(self).wf(),
            final(self)@ == old(self)@.union(Set::new(|b: int| block.spec_contains(b))),
            exists|lo: int, hi: int|
                put_split(old(self).ranges(), block, lo, hi) && final(self).ranges() == put_result(
                    old(self).ranges(),
                    block,
                    lo,
                    hi,
                ),
    {
        let ghost old_blocks = self.blocks@;
        let ghost mut j: int = 0;
        // get 1st overlap and combine. Then combine until one interval does no longer overlap
        let mut i: usize = 0;
        let mut check_overlap = false;
        loop
            invariant_except_break
                ranges_wf(old_blocks),
                old_blocks == old(self).ranges(),
                block.start <= block.end,
                i <= self.blocks.len(),
                forall|k: int| 0 <= k < i ==> (#[trigger] old_blocks[k]).end < block.start,
                !check_overlap ==> self.blocks@ == old_blocks,
                check_overlap ==> {
                    &&& i < j <= old_blocks.len()
                    &&& self.blocks@.len() == i + 1 + (old_blocks.len() - j)
                    &&& self.blocks@[i as int] == put_merged(old_blocks, block, i as int, j)
                    &&& forall|k: int| 0 <= k < i ==> #[trigger] self.blocks@[k] == old_blocks[k]
                    &&& forall|k: int| i < k < self.blocks@.len() ==> #[trigger] self.blocks@[k] == old_blocks[k - i - 1 + j]
                    &&& forall|k: int| i <= k < j ==> (#[trigger] old_blocks[k]).end >= block.start
                        && old_blocks[k].start <= block.end
                },
            ensures
                exists|lo: int, hi: int|
                    put_split(old_blocks, block, lo, hi) && self.blocks@ == put_result(old_blocks, block, lo, hi),
            decreases 2 * (self.blocks.len() - i) + (if check_overlap { 0int } else { 1int }),
        {
            if i >= self.blocks.len() {
                // Block needs to be appended at end
                self.blocks.push(block);
                proof {
                    let n = old_blocks.len() as int;
                    assert(put_split(old_blocks, block, n, n));
                    assert(self.blocks@ =~= put_result(old_blocks, block, n, n));
                }
                break;
            }
            if check_overlap {
                //Check if the next block region overlaps with the newly created one
                if i + 1 >= self.blocks.len() || !self.blocks[i].overlaps(&self.blocks[i + 1]) {
                    proof {
                        let n = old_blocks.len() as int;
                        if j < n {
                            assert(self.blocks@[i + 1] == old_blocks[(i + 1) - i - 1 + j]);
                            assert(old_blocks[i as int].end < old_blocks[j].start);
                            assert(old_blocks[j].start > block.end);
                        }
                        assert forall|k: int| j <= k < n implies (#[trigger] old_blocks[k]).start > block.end by {
                            if k > j {
                                assert(old_blocks[j].end < old_blocks[k].start);
                            }
                        }
                        assert(put_split(old_blocks, block, i as int, j));
                        assert forall|k: int| 0 <= k < self.blocks@.len() implies #[trigger] self.blocks@[k]
                            == put_result(old_blocks, block, i as int, j)[k] by {
                            if k > i {
                                assert(self.blocks@[k] == old_blocks[k - i - 1 + j]);
                            }
                        }
                        assert(self.blocks@ =~= put_result(old_blocks, block, i as int, j));
                    }
                    break;
                }
                // we need to merge again
                let ghost before = self.blocks@;
                let next_block = self.blocks.remove(i + 1);
                let merged = self.blocks[i].merge_block(&next_block);
                self.blocks.set(i, merged);
                proof {
                    assert(before[i + 1] == old_blocks[(i + 1) - i - 1 + j]);
                    assert(old_blocks[j - 1].end < old_blocks[j].start);
                    assert(old_blocks[i as int].end < old_blocks[j].start || i == j - 1);
                    assert(old_blocks[j].start <= block.end);
                    j = j + 1;
                    assert forall|k: int| i < k < self.blocks@.len() implies #[trigger] self.blocks@[k] == old_blocks[k - i - 1 + j] by {
                        assert(self.blocks@[k] == before[k + 1]);
                    }
                    assert forall|k: int| 0 <= k < i implies #[trigger] self.blocks@[k] == old_blocks[k] by {
                        assert(self.blocks@[k] == before[k]);
                    }
                }
                // avoid increment
                continue;
            }
            if self.blocks[i].overlaps(&block) {
                let merged = block.merge_block(&self.blocks[i]);
                self.blocks.set(i, merged);
                check_overlap = true;
                proof {
                    j = i + 1;
                }
                // Continue to avoid i increment
                continue;
            } else if block.start < self.blocks[i].start {
                // No overlaps -> just insert
                self.blocks.insert(i, block);
                proof {
                    assert forall|k: int| i <= k < old_blocks.len() implies (#[trigger] old_blocks[k]).start > block.end by {
                        if k > i {
                            assert(old_blocks[i as int].end < old_blocks[k].start);
                        }
                        assert(old_blocks[i as int].start <= old_blocks[i as int].end);
                    }
                    assert(put_split(old_blocks, block, i as int, i as int));
                    assert(self.blocks@ =~= put_result(old_blocks, block, i as int, i as int));
                }
                break;
            }
            i += 1;
        }
        proof {
            let (lo, hi) = choose|lo: int, hi: int|
                put_split(old_blocks, block, lo, hi) && self.blocks@ == put_result(old_blocks, block, lo, hi);
            lemma_put_result(old_blocks, block, lo, hi);
            assert(self@ =~= old(self)@.union(Set::new(|b: int| block.spec_contains(b))));
        }
    }

    /// Finds an empty slot where a BlockRange can be inserted. It automatically marks the returned
    /// slot to be filled and removes it from its internal empty blocks.
    /// The slot is the start of the first range with room for `req_block_size` blocks; when no
    /// range is large enough, the slot starts right after the last range and the set is unchanged.
    pub fn occupy(&mut self, req_block_size: usize) -> (r: BlockRange)
        requires
            old(self).wf(),
            req_block_size >= 1,
            old(self).ranges().len() > 0,
            !(exists|k: int| 0 <= k < old(self).ranges().len()
                && fits(#[trigger] old(self).ranges()[k], req_block_size as int)) ==> old(self).ranges().last().end
                + req_block_size <= u64::MAX,
        ensures
            final(self).wf(),
            final(self).ranges() == occupy_ranges(old(self).ranges(), req_block_size as int),
            r.start == alloc_start(old(self).ranges(), req_block_size as int),
            r.spec_len() == req_block_size,
            (exists|k: int| 0 <= k < old(self).ranges().len()
                && fits(#[trigger] old(self).ranges()[k], req_block_size as int)) ==> {
                &&& r.start == old(self).ranges()[first_fit(old(self).ranges(), req_block_size as int)].start
                &&& final(self)@ == old(self)@.difference(Set::new(|b: int| r.spec_contains(b)))
                &&& Set::new(|b: int| r.spec_contains(b)).subset_of(old(self)@)
                &&& r.end <= old(self).ranges().last().end
            },
            !(exists|k: int| 0 <= k < old(self).ranges().len()
                && fits(#[trigger] old(self).ranges()[k], req_block_size as int)) ==> {
                &&& r.start == old(self).ranges().last().end + 1
                &&& final(self).ranges() == old(self).ranges()
            },
    {
        let ghost old_blocks = self.blocks@;
        let mut target_index: Option<usize> = None;
        let mut i: usize = 0;
        while i < self.blocks.len()
            invariant_except_break
                target_index is None,
            invariant
                i <= self.blocks.len(),
                self.blocks@ == old_blocks,
                forall|k: int| 0 <= k < i ==> !fits(#[trigger] old_blocks[k], req_block_size as int),
                ranges_wf(old_blocks),
                req_block_size >= 1,
            ensures
                match target_index {
                    Some(t) => t < old_blocks.len() && fits(old_blocks[t as int], req_block_size as int)
                        && forall|k: int| 0 <= k < t ==> !fits(#[trigger] old_blocks[k], req_block_size as int),
                    None => forall|k: int| 0 <= k < old_blocks.len() ==> !fits(#[trigger] old_blocks[k], req_block_size as int),
                },
            decreases self.blocks.len() - i,
        {
            let block = self.blocks[i];
            if block.end - block.start >= req_block_size as u64 - 1 {
                target_index = Some(i);
                break;
            }
            i += 1;
        }
        match target_index {
            None => {
                let last = self.blocks[self.blocks.len() - 1].end;
                BlockRange::new(last + 1, req_block_size)
            },
            Some(i) => {
                proof {
                    lemma_first_fit(old_blocks, req_block_size as int, i as int);
                    let n = old_blocks.len() - 1;
                    if i < n {
                        assert(old_blocks[i as int].end < old_blocks[n].start);
                        assert(old_blocks[n].start <= old_blocks[n].end);
                    }
                }
                let start = self.blocks[i].start;
                let end = self.blocks[i].end;
                let r = BlockRange::new(start, req_block_size);
                if end - start >= req_block_size as u64 {
                    self.blocks.set(i, BlockRange { start: start + req_block_size as u64, end });
                } else {
                    self.blocks.remove(i);
                }
                proof {
                    let rs = Set::new(|b: int| r.spec_contains(b));
                    assert forall|b: int|
                        ranges_contain(self.blocks@, b) == (ranges_contain(old_blocks, b) && !rs.contains(b)) by {
                        if ranges_contain(self.blocks@, b) {
                            let k = choose|k: int|
                                0 <= k < self.blocks@.len() && (#[trigger] self.blocks@[k]).spec_contains(b);
                            if self.blocks@.len() == old_blocks.len() {
                                if k != i {
                                    assert(self.blocks@[k] == old_blocks[k]);
                                    if k < i {
                                        assert(old_blocks[k].end < old_blocks[i as int].start);
                                    } else {
                                        assert(old_blocks[i as int].end < old_blocks[k].start);
                                    }
                                } else {
                                    assert(old_blocks[i as int].spec_contains(b));
                                }
                            } else {
                                if k < i {
                                    assert(self.blocks@[k] == old_blocks[k]);
                                    assert(old_blocks[k].end < old_blocks[i as int].start);
                                } else {
                                    assert(self.blocks@[k] == old_blocks[k + 1]);
                                    assert(old_blocks[i as int].end < old_blocks[k + 1].start);
                                }
                            }
                        }
                        if ranges_contain(old_blocks, b) && !rs.contains(b) {
                            let k = choose|k: int|
                                0 <= k < old_blocks.len() && (#[trigger] old_blocks[k]).spec_contains(b);
                            if self.blocks@.len() == old_blocks.len() {
                                assert(self.blocks@[k].spec_contains(b));
                            } else {
                                if k < i {
                                    assert(self.blocks@[k] == old_blocks[k]);
                                } else if k > i {
                                    assert(self.blocks@[k - 1] == old_blocks[k]);
                                }
                            }
                        }
                    }
                    assert(Set::new(|b: int| ranges_contain(self.blocks@, b)) =~= old(self)@.difference(rs));
                    assert forall|b: int| rs.contains(b) implies old(self)@.contains(b) by {
                        assert(old_blocks[i as int].spec_contains(b));
                    }
                    assert forall|k1: int, k2: int|
                        0 <= k1 < k2 < self.blocks@.len() implies (#[trigger] self.blocks@[k1]).end
                            < (#[trigger] self.blocks@[k2]).start by {
                        if self.blocks@.len() == old_blocks.len() {
                            assert(old_blocks[k1].end < old_blocks[k2].start);
                        } else {
                            let o1 = if k1 < i { k1 } else { k1 + 1 };
                            let o2 = if k2 < i { k2 } else { k2 + 1 };
                            assert(self.blocks@[k1] == old_blocks[o1]);
                            assert(self.blocks@[k2] == old_blocks[o2]);
                        }
                    }
                    assert forall|k: int| 0 <= k < self.blocks@.len() implies (#[trigger] self.blocks@[k]).start
                        <= self.blocks@[k].end by {
                        if self.blocks@.len() != old_blocks.len() {
                            let o = if k < i { k } else { k + 1 };
                            assert(self.blocks@[k] == old_blocks[o]);
                        }
                    }
                }
                r
            },
        }
    }

    /// Creates a new Blockset by gathering all empty blocks between the blocks of self:
    /// every block below the end of the last range that no range covers.
    pub fn get_empty_space(&self) -> (r: BlockSet)
        requires
            self.wf(),
            self.ranges().len() > 0 ==> self.ranges().last().end < u64::MAX,
        ensures
            r.wf(),
            r@ == Set::new(|b: int| 0 <= b < self.span() && !self@.contains(b)),
            r.ranges() == gap_ranges(self.ranges(), self.ranges().len() as int),
    {
        let mut curr_block: u64 = 0;
        let mut empty_blocks = BlockSet::new();
        let n = self.blocks.len();
        let mut i: usize = 0;
        while i < n
            invariant
                n == self.blocks@.len(),
                i <= n,
                self.wf(),
                n > 0 ==> self.blocks@.last().end < u64::MAX,
                empty_blocks.wf(),
                curr_block == if i == 0 { 0 } else { self.blocks@[i - 1].end + 1 },
                empty_blocks@ == Set::new(|b: int| 0 <= b < curr_block && !self@.contains(b)),
                empty_blocks.ranges() == gap_ranges(self.blocks@, i as int),
                forall|k: int| 0 <= k < empty_blocks.ranges().len() ==> (#[trigger] empty_blocks.ranges()[k]).end < curr_block,
            decreases n - i,
        {
            let block = self.blocks[i];
            proof {
                if i > 0 {
                    assert(self.blocks@[i - 1].end < block.start);
                }
                assert(self.blocks@[i as int].end <= self.blocks@.last().end) by {
                    if i + 1 < n {
                        assert(self.blocks@[i as int].end < self.blocks@[n - 1].start);
                        assert(self.blocks@[n - 1].start <= self.blocks@[n - 1].end);
                    }
                }
            }
            let ghost before = empty_blocks@;
            if curr_block == block.start {
                curr_block += block.end - block.start + 1;
            } else {
                let gap = BlockRange { start: curr_block, end: block.start - 1 };
                let ghost rs0 = empty_blocks.ranges();
                empty_blocks.put(gap);
                proof {
                    let (lo, hi) = choose|lo: int, hi: int|
                        put_split(rs0, gap, lo, hi) && empty_blocks.ranges() == put_result(rs0, gap, lo, hi);
                    if lo < rs0.len() {
                        assert(rs0[lo].end < gap.start);
                    }
                    if hi < rs0.len() {
                        assert(rs0[hi].end < gap.start);
                        assert(rs0[hi].start <= rs0[hi].end) by {
                            empty_blocks.lemma_ranges_wf();
                        }
                    }
                    assert(lo == rs0.len() && hi == rs0.len());
                    assert(empty_blocks.ranges() =~= rs0.push(gap));
                }
                curr_block = block.end + 1;
            }
            proof {
                assert forall|b: int|
                    empty_blocks@.contains(b) == (0 <= b < curr_block && !self@.contains(b)) by {
                    if 0 <= b < curr_block && b >= block.start {
                        assert(self.blocks@[i as int].spec_contains(b));
                    }
                    if self@.contains(b) {
                        let k = choose|k: int|
                            0 <= k < self.blocks@.len() && (#[trigger] self.blocks@[k]).spec_contains(b);
                        if k < i {
                            assert(self.blocks@[k].end <= self.blocks@[i - 1].end) by {
                                if k < i - 1 {
                                    assert(self.blocks@[k].end < self.blocks@[i - 1].start);
                                }
                            }
                        } else if k > i {
                            assert(self.blocks@[i as int].end < self.blocks@[k].start);
                        }
                    }
                }
                assert(empty_blocks@ =~= Set::new(|b: int| 0 <= b < curr_block && !self@.contains(b)));
            }
            i += 1;
        }
        empty_blocks
    }

    /// One past the last block covered by the set (0 for an empty set).
    pub open spec fn span(&self) -> int {
        if self.ranges().len() == 0 { 0 } else { self.ranges().last().end + 1 }
    }

    /// The ranges of a well-formed set are non-empty, sorted and pairwise disjoint.
    pub proof fn lemma_ranges_wf(&self)
        requires
            self.wf(),
        ensures
            ranges_wf(self.ranges()),
    {
    }
}

// Header Constants
pub const VAULT_SIGNATURE: u64 = 0x0000e111e0afbaca;
pub const VAULT_SIGNATURE_LENGTH: usize = 8;
pub const VAULT_VERSION: u8 = 1;
pub const VAULT_VERSION_LENGTH: usize = 1;
pub const VAULTKEY_ENC_LENGTH: usize = 48;
/// Length of the archive header: signature, version, name, user key IV, vault key nonce and the
/// encrypted vault key (with its tag)
pub const VAULTHEADER_LENGTH: usize = 213;

/// Header Information of the archive file
#[derive(Debug)]
pub struct HeaderInfo {
    /// Version specified in the header
    version: u8,
    /// Name of the vault archive
    name: [u8; VAULTNAME_LENGTH],
    /// User key initialization vector
    userkey_iv: [u8; IV_LENGTH],
    /// Key Region nonce
    vaultkey_nonce: [u8; AES_NONCE_LENGTH],
    /// Encrypted VaultKey (includes authentication tag)
    enc_vaultkey: [u8; VAULTKEY_ENC_LENGTH],
}

/// Whether `data` is a header that `build_header` accepts: the signature, the supported
/// version and a UTF-8 name.
pub open spec fn header_accepted(data: Seq<u8>) -> bool {
    &&& data.subrange(0, 8) == be8(VAULT_SIGNATURE)
    &&& data[8] == VAULT_VERSION
    &&& valid_utf8(data.subrange(9, 137))
}

impl HeaderInfo {
    #[verifier::type_invariant]
    spec fn inv(self) -> bool {
        valid_utf8(self.name@)
    }

    pub closed spec fn spec_version(&self) -> u8 {
        self.version
    }

    pub closed spec fn spec_name(&self) -> Seq<u8> {
        self.name@
    }

    pub closed spec fn spec_userkey_iv(&self) -> Seq<u8> {
        self.userkey_iv@
    }

    pub closed spec fn spec_vaultkey_nonce(&self) -> Seq<u8> {
        self.vaultkey_nonce@
    }

    pub closed spec fn spec_enc_vaultkey(&self) -> Seq<u8> {
        self.enc_vaultkey@
    }

    /// Where the fields of a header lie in its bytes.
    pub proof fn lemma_serialized_fields(&self)
        ensures
            self.spec_serialized().len() == VAULTHEADER_LENGTH,
            self.spec_serialized().subrange(9, 137) == self.spec_name(),
            self.spec_serialized().subrange(137, 153) == self.spec_userkey_iv(),
            self.spec_serialized().subrange(153, 165) == self.spec_vaultkey_nonce(),
            self.spec_serialized().subrange(165, 213) == self.spec_enc_vaultkey(),
    {
        let s = self.spec_serialized();
        assert(s.subrange(9, 137) =~= self.spec_name());
        assert(s.subrange(137, 153) =~= self.spec_userkey_iv());
        assert(s.subrange(153, 165) =~= self.spec_vaultkey_nonce());
        assert(s.subrange(165, 213) =~= self.spec_enc_vaultkey());
    }

    /// The bytes of this header in the vault archive file.
    pub open spec fn spec_serialized(&self) -> Seq<u8> {
        be8(VAULT_SIGNATURE) + seq![self.spec_version()] + self.spec_name() + self.spec_userkey_iv()
            + self.spec_vaultkey_nonce() + self.spec_enc_vaultkey()
    }

    /// Serialize this header for storage in the vault archive file
    pub fn serialize(&self) -> (r: [u8; VAULTHEADER_LENGTH])
        ensures
            r@ == self.spec_serialized(),
    {
        let mut header_data: Vec<u8> = Vec::new();
        put_u64(&mut header_data, VAULT_SIGNATURE);
        header_data.push(self.version);
        put_slice(&mut header_data, &self.name);
        put_slice(&mut header_data, &self.userkey_iv);
        put_slice(&mut header_data, &self.vaultkey_nonce);
        put_slice(&mut header_data, &self.enc_vaultkey);
        assert(header_data@ =~= self.spec_serialized());
        array_at::<VAULTHEADER_LENGTH>(header_data.as_slice(), 0)
    }

    /// Get the key encrypted in the header using the supplied password. Uses pbkdf2_hmac to
    /// generate a key which is then used to decrypt the vault master key
    pub fn retrieve_key(&self, password: String) -> (r: Result<[u8; KEY_LENGTH], RetrieveKeyError>)
        ensures
            match spec_decrypt(
                pbkdf2_hmac_sha256(encode_utf8(password@), self.spec_userkey_iv(), PBKDF2_ITERATIONS as nat),
                self.spec_vaultkey_nonce(),
                self.spec_enc_vaultkey(),
            ) {
                Ok(k) => r matches Ok(key) && key@ == k,
                Err(_) => r matches Err(RetrieveKeyError::DecryptError(CryptographyError::InauthenticTag)),
            },
    {
        let user_key = generate_user_key(password, &self.userkey_iv);
        match decrypt_region(&self.enc_vaultkey, &self.vaultkey_nonce, &user_key, KEY_LENGTH) {
            Ok(k) => Ok(array_at::<KEY_LENGTH>(k.as_slice(), 0)),
            Err(e) => Err(RetrieveKeyError::DecryptError(e)),
        }
    }

    /// Read the vault archive file header from its bytes: the signature must match, the
    /// version must be supported and the name must be UTF-8.
    pub fn build_header(header_data: [u8; VAULTHEADER_LENGTH]) -> (r: Result<Self, ReadHeaderError>)
        ensures
            r is Ok <==> header_accepted(header_data@),
            r matches Ok(h) ==> h.spec_serialized() == header_data@,
            header_data@.subrange(0, 8) != be8(VAULT_SIGNATURE) ==> r matches Err(
                ReadHeaderError::InvalidFileError(InvalidFileReasons::WrongSignature),
            ),
            header_data@.subrange(0, 8) == be8(VAULT_SIGNATURE) && header_data@[8] != VAULT_VERSION
                ==> r matches Err(ReadHeaderError::InvalidFileError(InvalidFileReasons::UnsupportedVersion)),
            header_data@.subrange(0, 8) == be8(VAULT_SIGNATURE) && header_data@[8] == VAULT_VERSION
                && !valid_utf8(header_data@.subrange(9, 137)) ==> r matches Err(ReadHeaderError::UTF8Error(_)),
    {
        let data = header_data.as_slice();
        let mut offset: usize = 0;
        // Check if this file is meant to be a vault archive file
        let signature = get_u64(data, offset);
        offset += VAULT_SIGNATURE_LENGTH;
        proof {
            lemma_be8_roundtrip(VAULT_SIGNATURE);
            if data@.subrange(0, 8) == be8(VAULT_SIGNATURE) {
                assert(signature == VAULT_SIGNATURE);
            } else {
                lemma_from_be8_injective(data@.subrange(0, 8));
            }
        }
        if signature != VAULT_SIGNATURE {
            return Err(ReadHeaderError::InvalidFileError(InvalidFileReasons::WrongSignature));
        }
        //Add a version field for future changes to the vault archive structure
        let version = data[offset];
        offset += VAULT_VERSION_LENGTH;
        if version != VAULT_VERSION {
            return Err(ReadHeaderError::InvalidFileError(InvalidFileReasons::UnsupportedVersion));
        }
        // Perform UTF8 Check to be sure no attacker is trying smth funny
        let name = array_at::<VAULTNAME_LENGTH>(data, offset);
        let mut name_vec: Vec<u8> = Vec::new();
        put_slice(&mut name_vec, &name);
        if let Err(e) = string_from_utf8(name_vec) {
            return Err(ReadHeaderError::UTF8Error(e));
        }
        offset += VAULTNAME_LENGTH;
        let userkey_iv = array_at::<IV_LENGTH>(data, offset);
        offset += IV_LENGTH;
        //Get the keyregion nonce for decrypting the keyregion
        let key_nonce = array_at::<AES_NONCE_LENGTH>(data, offset);
        offset += AES_NONCE_LENGTH;
        let encrypted_key = array_at::<VAULTKEY_ENC_LENGTH>(data, offset);
        let h = HeaderInfo {
            version,
            name,
            userkey_iv,
            vaultkey_nonce: key_nonce,
            enc_vaultkey: encrypted_key,
        };
        assert(h.spec_serialized() =~= data@);
        Ok(h)
    }

    /// The name of the vault
    pub fn get_name(&self) -> (r: String)
        ensures
            r@ == decode_utf8(self.spec_name()),
    {
        proof {
            use_type_invariant(self);
        }
        let mut name_vec: Vec<u8> = Vec::new();
        put_slice(&mut name_vec, &self.name);
        match string_from_utf8(name_vec) {
            Ok(s) => s,
            Err(_) => {
                assert(false);
                String::new()
            },
        }
    }
}

/// A header is read back from its own bytes: serializing a header and reading the bytes again
/// gives the same header.
pub proof fn lemma_header_roundtrip(h: HeaderInfo, g: HeaderInfo)
    requires
        h.spec_version() == VAULT_VERSION,
        valid_utf8(h.spec_name()),
        h.spec_name().len() == VAULTNAME_LENGTH,
        h.spec_userkey_iv().len() == IV_LENGTH,
        h.spec_vaultkey_nonce().len() == AES_NONCE_LENGTH,
        g.spec_serialized() == h.spec_serialized(),
    ensures
        header_accepted(h.spec_serialized()),
        g == h,
{
    let s = h.spec_serialized();
    assert(s.subrange(0, 8) =~= be8(VAULT_SIGNATURE));
    assert(s.subrange(9, 137) =~= h.spec_name());
    assert(g.spec_name() =~= s.subrange(9, 137));
    assert(g.spec_userkey_iv() =~= s.subrange(137, 153));
    assert(h.spec_userkey_iv() =~= s.subrange(137, 153));
    assert(g.spec_vaultkey_nonce() =~= s.subrange(153, 165));
    assert(h.spec_vaultkey_nonce() =~= s.subrange(153, 165));
    assert(g.spec_enc_vaultkey() =~= s.subrange(165, 213));
    assert(h.spec_enc_vaultkey() =~= s.subrange(165, 213));
    assert(g.spec_version() == s[8]);
    assert(g.name =~= h.name);
    assert(g.userkey_iv =~= h.userkey_iv);
    assert(g.vaultkey_nonce =~= h.vaultkey_nonce);
    assert(g.enc_vaultkey =~= h.enc_vaultkey);
}

/// Length of the encrypted part of an entry block (everything after type, next and nonce)
pub const ENTRY_ENC_LENGTH: usize = 251;
/// The largest block id whose position in the vault file fits in a `u64`
pub const MAX_BLOCK_ID: u64 = 67818912035696880;

/// Position of a data block in the vault file: the blocks follow the header.
pub open spec fn block_offset(block: int) -> int {
    VAULTHEADER_LENGTH + block * DATABLOCK_LENGTH
}

/// A structure summarizing the most essential fields of a Datablock entry (password, secretfile
/// entry, directory entry)
pub struct DataBlockEntry {
    pub entry_type: u8,
    pub next: i64,
    pub nonce: [u8; AES_NONCE_LENGTH],
    pub data: [u8; ENTRY_ENC_LENGTH],
}

/// The fields of an entry block, read from its bytes: type, next (big-endian two's
/// complement), nonce and the encrypted part.
pub open spec fn entry_block_matches(e: DataBlockEntry, bytes: Seq<u8>) -> bool {
    &&& e.entry_type == bytes[0]
    &&& e.next == from_be8(bytes.subrange(1, 9)) as i64
    &&& e.nonce@ == bytes.subrange(9, 21)
    &&& e.data@ == bytes.subrange(21, DATABLOCK_LENGTH as int)
}

/// A struct which handles vault changes. It holds the contents of the vault file (which
/// the caller reads from and writes back to disk) and the set of empty data blocks.
#[derive(Debug)]
pub struct VaultContext {
    vault_file: Vec<u8>,
    empty_blocks: BlockSet,
}

impl VaultContext {
    /// The contents of the vault file.
    pub closed spec fn file(&self) -> Seq<u8> {
        self.vault_file@
    }

    /// The empty data blocks.
    pub closed spec fn empty(&self) -> BlockSet {
        self.empty_blocks
    }

    /// A context over the given vault file contents and empty blocks.
    pub fn from_parts(vault_file: Vec<u8>, empty_blocks: BlockSet) -> (r: Self)
        ensures
            r.file() == vault_file@,
            r.empty() == empty_blocks,
    {
        VaultContext { vault_file, empty_blocks }
    }

    /// The contents of the vault file.
    pub fn file_data(&self) -> (r: &Vec<u8>)
        ensures
            r@ == self.file(),
    {
        &self.vault_file
    }

    /// The empty data blocks.
    pub fn empty_blocks(&self) -> (r: &BlockSet)
        ensures
            *r == self.empty(),
    {
        &self.empty_blocks
    }

    /// Replace the set of empty data blocks.
    pub fn set_empty_blocks(&mut self, empty_blocks: BlockSet)
        ensures
            final(self).file() == old(self).file(),
            final(self).empty() == empty_blocks,
    {
        self.empty_blocks = empty_blocks;
    }

    /// Internal function that checks that a block offset lies within the file
    fn jump_to_block(&self, block: u64) -> (r: Result<usize, SeekFileError>)
        requires
            block <= MAX_BLOCK_ID,
        ensures
            r matches Ok(off) ==> off == block_offset(block as int) && off <= self.file().len(),
            r is Err ==> (block_offset(block as int) > self.file().len()
                && (r matches Err(SeekFileError::BlockNotFound(b)) && b == block)),
    {
        assert(block * 272 <= 18446744073709551360) by (nonlinear_arith)
            requires
                block <= 67818912035696880u64,
        ;
        let block_offset = VAULTHEADER_LENGTH as u64 + block * DATABLOCK_LENGTH as u64;
        let file_len = self.vault_file.len();
        if (file_len as u64) < block_offset {
            Err(SeekFileError::BlockNotFound(block))
        } else {
            Ok(block_offset as usize)
        }
    }

    /// Changes the next value of an entry block.
    /// Returns an error if the block cannot be found.
    /// Assumes that the block is an entry block
    pub fn change_next(&mut self, block: u64, new_value: i64) -> (r: Result<(), FileChangeError>)
        requires
            block <= MAX_BLOCK_ID,
        ensures
            final(self).empty() == old(self).empty(),
            block_offset(block as int) <= old(self).file().len() ==> r is Ok && final(self).file()
                == write_at(old(self).file(), block_offset(block as int) + NEXT_OFFSET, be8(new_value as u64)),
            block_offset(block as int) > old(self).file().len() ==> (final(self).file() == old(self).file()
                && (r matches Err(FileChangeError::SeekFileError(SeekFileError::BlockNotFound(b))) && b == block)),
    {
        let off = match self.jump_to_block(block) {
            Ok(off) => off,
            Err(e) => return Err(FileChangeError::SeekFileError(e)),
        };
        let mut bytes: Vec<u8> = Vec::new();
        put_u64(&mut bytes, new_value as u64);
        write_bytes_at(&mut self.vault_file, off + NEXT_OFFSET, bytes.as_slice());
        Ok(())
    }

    /// Changes a datablock (or multiple datablocks depending on length of data).
    /// The data length has to be a multiple of DATABLOCK_LENGTH.
    /// This method assumes you are only changing the data and keeping the blockrange the same.
    /// If shrinking/growing is needed use [`change_dyn_block`]
    pub fn change_data(&mut self, block: u64, data: Vec<u8>) -> (r: Result<(), FileChangeError>)
        requires
            block <= MAX_BLOCK_ID,
            data@.len() % (DATABLOCK_LENGTH as nat) == 0,
            old(self).file().len() + data@.len() <= usize::MAX,
        ensures
            final(self).empty() == old(self).empty(),
            block_offset(block as int) <= old(self).file().len() ==> r is Ok && final(self).file()
                == write_at(old(self).file(), block_offset(block as int), data@),
            block_offset(block as int) > old(self).file().len() ==> (final(self).file() == old(self).file()
                && (r matches Err(FileChangeError::SeekFileError(SeekFileError::BlockNotFound(b))) && b == block)),
    {
        let off = match self.jump_to_block(block) {
            Ok(off) => off,
            Err(e) => return Err(FileChangeError::SeekFileError(e)),
        };
        write_bytes_at(&mut self.vault_file, off, data.as_slice());
        Ok(())
    }

    /// Create a new block with size determined by the amount of bytes in data (has to be a multiple
    /// of DATABLOCK_LENGTH). The blocks are taken from the empty blocks; the data is written at
    /// their position, or appended to the file when that position lies at or past its end.
    #[verifier::spinoff_prover]
    #[verifier::rlimit(100)]
    pub fn new_block(&mut self, data: Vec<u8>) -> (r: Result<BlockRange, FileChangeError>)
        requires
            old(self).empty().wf(),
            data@.len() % (DATABLOCK_LENGTH as nat) == 0,
            data@.len() >= DATABLOCK_LENGTH,
            old(self).empty().ranges().len() > 0,
            old(self).empty().ranges().last().end + data@.len() / (DATABLOCK_LENGTH as nat) <= MAX_BLOCK_ID,
            old(self).file().len() + data@.len() <= usize::MAX,
        ensures
            r matches Ok(range) && range.spec_len() == data@.len() / (DATABLOCK_LENGTH as nat),
            r matches Ok(range) && range.end <= MAX_BLOCK_ID,
            final(self).empty().wf(),
            r matches Ok(range) && occupied_from(old(self).empty(), final(self).empty(), range),
            r matches Ok(range) && final(self).file() == block_written(old(self).file(), range.start, data@),
            r matches Ok(range) && range.start == alloc_start(old(self).empty().ranges(), (data@.len() / (DATABLOCK_LENGTH as nat)) as int),
            final(self).empty().ranges() == occupy_ranges(old(self).empty().ranges(), (data@.len() / (DATABLOCK_LENGTH as nat)) as int),
            (exists|k: int| 0 <= k < old(self).empty().ranges().len() && fits(#[trigger] old(self).empty().ranges()[k], (data@.len() / (DATABLOCK_LENGTH as nat)) as int))
                ==> (r matches Ok(range) && Set::new(|b: int| range.spec_contains(b)).subset_of(old(self).empty()@)),
    {
        let block_len = data.len() / DATABLOCK_LENGTH;
        assert(block_len >= 1) by (nonlinear_arith)
            requires
                block_len == data@.len() / 272,
                data@.len() >= 272,
        ;
        let ghost before = self.empty_blocks;
        let new_block = self.empty_blocks.occupy(block_len);
        proof {
            let fit = exists|k: int| 0 <= k < before.ranges().len()
                && fits(#[trigger] before.ranges()[k], block_len as int);
            if fit {
                assert(new_block.end <= before.ranges().last().end);
            } else {
                assert(new_block.start == before.ranges().last().end + 1);
            }
            assert(occupied_from(before, self.empty_blocks, new_block));
        }
        assert(new_block.end <= MAX_BLOCK_ID);
        assert(new_block.start * 272 <= 18446744073709551360) by (nonlinear_arith)
            requires
                new_block.start <= 67818912035696880u64,
        ;
        let offset = VAULTHEADER_LENGTH as u64 + new_block.start * DATABLOCK_LENGTH as u64;
        assert(offset == block_offset(new_block.start as int));
        let file_end = self.vault_file.len();
        let ghost old_file = self.vault_file@;
        if offset >= file_end as u64 {
            write_bytes_at(&mut self.vault_file, file_end, data.as_slice());
            assert(self.vault_file@ =~= old_file + data@);
        } else {
            let pos = offset as usize;
            assert(pos == offset);
            write_bytes_at(&mut self.vault_file, pos, data.as_slice());
        }
        Ok(new_block)
    }

    /// Deletes a block, by zeroing its contents (as far as they lie within the file) and adding
    /// it to the internal empty block set
    pub fn delete_block(&mut self, block: BlockRange) -> (r: Result<(), FileChangeError>)
        requires
            old(self).empty().wf(),
            block.start <= block.end <= MAX_BLOCK_ID,
        ensures
            final(self).empty().wf(),
            final(self).file().len() == old(self).file().len(),
            block_offset(block.start as int) <= old(self).file().len() ==> r is Ok && final(self).file()
                == write_at(old(self).file(), block_offset(block.start as int), zeros(zeroed_len(old(self).file().len() as int, block) as nat))
                && final(self).empty()@ == old(self).empty()@.union(Set::new(|b: int| block.spec_contains(b)))
                && exists|lo: int, hi: int|
                put_split(old(self).empty().ranges(), block, lo, hi) && final(self).empty().ranges() == put_result(
                    old(self).empty().ranges(),
                    block,
                    lo,
                    hi,
                ),
            block_offset(block.start as int) > old(self).file().len() ==> (final(self).file() == old(self).file()
                && final(self).empty() == old(self).empty()
                && (r matches Err(FileChangeError::SeekFileError(SeekFileError::BlockNotFound(b))) && b == block.start)),
    {
        let off = match self.jump_to_block(block.start) {
            Ok(off) => off,
            Err(e) => return Err(FileChangeError::SeekFileError(e)),
        };
        assert((block.end - block.start + 1) * 272 <= u128::MAX) by (nonlinear_arith)
            requires
                block.end - block.start + 1 <= 67818912035696881u64,
        ;
        let full: u128 = ((block.end - block.start + 1) as u128) * (DATABLOCK_LENGTH as u128);
        let avail = self.vault_file.len() - off;
        let n: usize = if full > avail as u128 { avail } else { full as usize };
        let mut new_data: Vec<u8> = Vec::new();
        put_zeros(&mut new_data, n);
        write_bytes_at(&mut self.vault_file, off, new_data.as_slice());
        self.empty_blocks.put(block);
        Ok(())
    }

    /// Read a raw datablock from the vault file
    /// returns an error on unexpected EOF or invalid datablock ids
    pub fn read_datablock(&self, block: u64) -> (r: Result<[u8; DATABLOCK_LENGTH], VaultFileError>)
        requires
            block <= MAX_BLOCK_ID,
        ensures
            block_offset(block as int) > self.file().len() ==> (r matches Err(
                VaultFileError::SeekFileError(SeekFileError::BlockNotFound(b))) && b == block),
            block_offset(block as int) <= self.file().len() < block_offset(block as int) + DATABLOCK_LENGTH
                ==> r matches Err(VaultFileError::UnexpectedEOF),
            block_offset(block as int) + DATABLOCK_LENGTH <= self.file().len() ==> (r matches Ok(b)
                && b@ == self.file().subrange(block_offset(block as int), block_offset(block as int) + DATABLOCK_LENGTH)),
    {
        let off = match self.jump_to_block(block) {
            Ok(off) => off,
            Err(e) => return Err(VaultFileError::SeekFileError(e)),
        };
        if self.vault_file.len() - off < DATABLOCK_LENGTH {
            Err(VaultFileError::UnexpectedEOF)
        } else {
            Ok(array_at::<DATABLOCK_LENGTH>(self.vault_file.as_slice(), off))
        }
    }

    /// Read a multi-datablock structure from the vault file
    /// returns an error on unexpected EOF or invalid datablock ids
    pub fn read_dyn_datablock(&self, block: BlockRange) -> (r: Result<Vec<u8>, VaultFileError>)
        requires
            block.start <= block.end <= MAX_BLOCK_ID,
            block.spec_len() * DATABLOCK_LENGTH <= usize::MAX,
        ensures
            block_offset(block.start as int) > self.file().len() ==> (r matches Err(
                VaultFileError::SeekFileError(SeekFileError::BlockNotFound(b))) && b == block.start),
            block_offset(block.start as int) <= self.file().len() < block_offset(block.end + 1)
                ==> r matches Err(VaultFileError::UnexpectedEOF),
            block_offset(block.end + 1) <= self.file().len() ==> (r matches Ok(b)
                && b@ == self.file().subrange(block_offset(block.start as int), block_offset(block.end + 1))),
    {
        let off = match self.jump_to_block(block.start) {
            Ok(off) => off,
            Err(e) => return Err(VaultFileError::SeekFileError(e)),
        };
        assert((block.end - block.start + 1) <= usize::MAX) by (nonlinear_arith)
            requires
                (block.end - block.start + 1) * 272 <= usize::MAX,
        ;
        let n = (block.end - block.start + 1) as usize;
        assert(block_offset(block.end + 1) == off + n * DATABLOCK_LENGTH) by (nonlinear_arith)
            requires
                off == 213 + block.start * 272,
                n == block.end - block.start + 1,
        ;
        if n > (self.vault_file.len() - off) / DATABLOCK_LENGTH {
            proof {
                assert(self.file().len() - off < n * DATABLOCK_LENGTH) by (nonlinear_arith)
                    requires
                        n > (self.file().len() - off) / (DATABLOCK_LENGTH as int),
                        self.file().len() >= off,
                ;
            }
            Err(VaultFileError::UnexpectedEOF)
        } else {
            proof {
                assert(n * DATABLOCK_LENGTH <= self.file().len() - off) by (nonlinear_arith)
                    requires
                        n <= (self.file().len() - off) / (DATABLOCK_LENGTH as int),
                        self.file().len() >= off,
                ;
            }
            Ok(copy_range(self.vault_file.as_slice(), off, off + n * DATABLOCK_LENGTH))
        }
    }

    /// Reads a datablock containing an entry and decomposes it into its common structure
    /// returns an error on unexpected EOF or invalid datablock ids
    pub fn read_entry(&self, block: u64) -> (r: Result<DataBlockEntry, VaultFileError>)
        requires
            block <= MAX_BLOCK_ID,
        ensures
            block_offset(block as int) > self.file().len() ==> (r matches Err(
                VaultFileError::SeekFileError(SeekFileError::BlockNotFound(b))) && b == block),
            block_offset(block as int) <= self.file().len() < block_offset(block as int) + DATABLOCK_LENGTH
                ==> r matches Err(VaultFileError::UnexpectedEOF),
            block_offset(block as int) + DATABLOCK_LENGTH <= self.file().len() ==> (r matches Ok(e)
                && entry_block_matches(e, self.file().subrange(block_offset(block as int), block_offset(block as int) + DATABLOCK_LENGTH))),
    {
        let buf = match self.read_datablock(block) {
            Ok(b) => b,
            Err(e) => return Err(e),
        };
        let data = buf.as_slice();
        let mut offset: usize = 0;
        let entrytype = data[offset];
        offset += ENTRYTYPE_LENGTH;
        let next = get_u64(data, offset) as i64;
        offset += BLOCKID_LENGTH;
        let nonce = array_at::<AES_NONCE_LENGTH>(data, offset);
        offset += AES_NONCE_LENGTH;
        let data_buf = array_at::<ENTRY_ENC_LENGTH>(data, offset);
        Ok(DataBlockEntry { entry_type: entrytype, next, nonce, data: data_buf })
    }
    /// Changes the data of a dynamic block (Multiblock structure)
    /// Returns a BlockRange if the datablock grew/shrank due to size constraints
    /// Returns None if the datablock is not moved
    #[verifier::spinoff_prover]
    #[verifier::rlimit(80)]
    pub fn change_dyn_block(&mut self, old_block: BlockRange, data: Vec<u8>) -> (r: Result<
        Option<BlockRange>,
        FileChangeError,
    >)
        requires
            old(self).empty().wf(),
            old_block.start <= old_block.end <= MAX_BLOCK_ID,
            data@.len() % (DATABLOCK_LENGTH as nat) == 0,
            data@.len() >= DATABLOCK_LENGTH,
            old(self).empty().span() + data@.len() / (DATABLOCK_LENGTH as nat) <= MAX_BLOCK_ID,
            old_block.end + data@.len() / (DATABLOCK_LENGTH as nat) <= MAX_BLOCK_ID,
            old(self).file().len() + old_block.spec_len() * DATABLOCK_LENGTH + data@.len() <= usize::MAX,
        ensures
            final(self).empty().wf(),
            data@.len() / (DATABLOCK_LENGTH as nat) == old_block.spec_len() ==> r matches Ok(None),
            data@.len() / (DATABLOCK_LENGTH as nat) < old_block.spec_len() ==> (r matches Ok(Some(b))
                && b.start == old_block.start && b.spec_len() == data@.len() / (DATABLOCK_LENGTH as nat)),
            data@.len() / (DATABLOCK_LENGTH as nat) > old_block.spec_len() ==> (r matches Ok(Some(b))
                ==> b.spec_len() == data@.len() / (DATABLOCK_LENGTH as nat) && b.end <= MAX_BLOCK_ID),
            data@.len() / (DATABLOCK_LENGTH as nat) > old_block.spec_len() && block_offset(old_block.start as int)
                <= old(self).file().len() ==> r matches Ok(Some(_)),
            data@.len() / (DATABLOCK_LENGTH as nat) > old_block.spec_len() ==> (r matches Ok(Some(b))
                ==> (block_offset(b.start as int) <= old(self).file().len() ==> {
                let off = block_offset(b.start as int);
                &&& final(self).file().len() >= off + data@.len()
                &&& final(self).file().subrange(off, off + data@.len()) == data@
            })),
            data@.len() / (DATABLOCK_LENGTH as nat) == old_block.spec_len() ==> final(self).empty() == old(self).empty(),
            data@.len() / (DATABLOCK_LENGTH as nat) < old_block.spec_len() ==> final(self).empty()@ == (if block_offset(
                old_block.start + data@.len() / (DATABLOCK_LENGTH as nat),
            ) <= old(self).file().len() {
                old(self).empty()@.union(
                    Set::new(
                        |b: int| old_block.start + data@.len() / (DATABLOCK_LENGTH as nat) <= b <= old_block.end,
                    ),
                )
            } else {
                old(self).empty()@
            }),
            data@.len() / (DATABLOCK_LENGTH as nat) > old_block.spec_len() ==> (r matches Ok(Some(b))
                ==> final(self).empty()@ == old(self).empty()@.union(Set::new(|x: int| old_block.spec_contains(x))).difference(
                Set::new(|x: int| b.spec_contains(x)),
            )),
            data@.len() / (DATABLOCK_LENGTH as nat) > old_block.spec_len() && (exists|k: int|
                0 <= k < old(self).empty().ranges().len() && fits(
                    #[trigger] old(self).empty().ranges()[k],
                    (data@.len() / (DATABLOCK_LENGTH as nat)) as int,
                )) ==> (r matches Ok(Some(b)) ==> Set::new(|x: int| b.spec_contains(x)).subset_of(
                old(self).empty()@.union(Set::new(|x: int| old_block.spec_contains(x))),
            )),
            r matches Ok(None) ==> same_outside(
                old(self).file(),
                final(self).file(),
                Set::new(|x: int| old_block.spec_contains(x)),
            ),
            r matches Ok(Some(b)) ==> same_outside(
                old(self).file(),
                final(self).file(),
                Set::new(|x: int| old_block.spec_contains(x)).union(Set::new(|x: int| b.spec_contains(x))),
            ),
            data@.len() / (DATABLOCK_LENGTH as nat) <= old_block.spec_len() && block_offset(old_block.start as int)
                <= old(self).file().len() ==> ({
                let off = block_offset(old_block.start as int);
                &&& final(self).file().len() >= off + data@.len()
                &&& final(self).file().subrange(off, off + data@.len()) == data@
            }),
    {
        let block_len = data.len() / DATABLOCK_LENGTH;
        let old_len = (old_block.end - old_block.start) as usize + 1;
        let ghost off = block_offset(old_block.start as int);
        let ghost d = data@;
        assert(d.len() == block_len * 272) by (nonlinear_arith)
            requires
                d.len() % 272 == 0,
                block_len == d.len() / 272,
        ;
        let ghost f0 = self.file();
        let ghost so = Set::new(|x: int| old_block.spec_contains(x));
        if block_len == old_len {
            let _ = self.change_data(old_block.start, data);
            proof {
                if off <= old(self).file().len() {
                    assert(self.file().subrange(off, off + d.len()) =~= d);
                    lemma_written_inside_range(f0, old_block, d);
                } else {
                    lemma_same_outside_refl(f0, so);
                }
            }
            Ok(None)
        } else if block_len > old_len {
            //mark old as empty
            match self.delete_block(old_block) {
                Ok(()) => {},
                Err(e) => return Err(e),
            }
            proof {
                assert(self.empty()@.contains(old_block.start as int));
                assert(self.empty().ranges().len() > 0);
                assert(self.empty().ranges().last().end <= MAX_BLOCK_ID - block_len) by {
                    lemma_span_after_put(old(self).empty(), self.empty(), old_block);
                }
            }
            let ghost f1 = self.file();
            let ghost e1 = self.empty();
            proof {
                let n = block_len as int;
                if exists|k: int| 0 <= k < old(self).empty().ranges().len() && fits(#[trigger] old(self).empty().ranges()[k], n) {
                    let k = choose|k: int| 0 <= k < old(self).empty().ranges().len() && fits(#[trigger] old(self).empty().ranges()[k], n);
                    let (lo, hi) = choose|lo: int, hi: int|
                        put_split(old(self).empty().ranges(), old_block, lo, hi) && e1.ranges() == put_result(
                            old(self).empty().ranges(),
                            old_block,
                            lo,
                            hi,
                        );
                    old(self).empty().lemma_ranges_wf();
                    lemma_put_keeps_fit(old(self).empty().ranges(), old_block, lo, hi, k, n);
                }
            }
            match self.new_block(data) {
                Ok(b) => {
                    proof {
                        let bs = Set::new(|x: int| b.spec_contains(x));
                        if !(bs.subset_of(e1@) && self.empty()@ == e1@.difference(bs)) {
                            assert forall|x: int| e1@.contains(x) implies x < e1.span() by {
                                lemma_below_span(e1, x);
                            }
                            assert(e1@.difference(bs) =~= e1@);
                        }
                        let o = block_offset(b.start as int);
                        if o <= old(self).file().len() {
                            assert(self.file().subrange(o, o + d.len()) =~= d);
                        }
                        lemma_range_zeroed_inside(f0, old_block);
                        lemma_block_written_inside(f1, b, d);
                        lemma_same_outside_union(f0, f1, self.file(), so, bs);
                    }
                    Ok(Some(b))
                },
                Err(e) => Err(e),
            }
        } else {
            let diff = old_len - block_len;
            let tail = BlockRange::new(old_block.start + block_len as u64, diff);
            let _ = self.delete_block(tail);
            let ghost f1 = self.file();
            let ghost st = Set::new(|x: int| tail.spec_contains(x));
            proof {
                if block_offset(tail.start as int) <= f0.len() {
                    lemma_range_zeroed_inside(f0, tail);
                } else {
                    lemma_same_outside_refl(f0, st);
                }
            }
            let _ = self.change_data(old_block.start, data);
            let res = BlockRange::new(old_block.start, block_len);
            proof {
                if off <= old(self).file().len() {
                    assert(self.file().subrange(off, off + d.len()) =~= d);
                }
                if off <= f1.len() {
                    lemma_written_inside_range(f1, old_block, d);
                } else {
                    lemma_same_outside_refl(f1, so);
                }
                lemma_same_outside_union(f0, f1, self.file(), st, so);
                lemma_same_outside_larger(f0, self.file(), st.union(so), so.union(Set::new(|x: int| res.spec_contains(x))));
            }
            Ok(Some(res))
        }
    }
}

/// A range with room for `n` blocks keeps room for them when another range is put in: it stays
/// as it is or is merged into a larger one.
pub proof fn lemma_put_keeps_fit(rs: Seq<BlockRange>, b: BlockRange, lo: int, hi: int, k: int, n: int)
    requires
        ranges_wf(rs),
        put_split(rs, b, lo, hi),
        0 <= k < rs.len(),
        fits(rs[k], n),
    ensures
        exists|k2: int| 0 <= k2 < put_result(rs, b, lo, hi).len() && fits(#[trigger] put_result(rs, b, lo, hi)[k2], n),
{
    let r = put_result(rs, b, lo, hi);
    if k < lo {
        assert(r[k] == rs[k]);
    } else if k >= hi {
        let k2 = k - hi + lo + 1;
        assert(r[k2] == rs[k]);
    } else {
        let m = put_merged(rs, b, lo, hi);
        assert(r[lo] == m);
        assert(rs[lo].start <= rs[k].start) by {
            if lo < k {
                assert(rs[lo].end < rs[k].start);
            }
        }
        assert(rs[k].end <= rs[hi - 1].end) by {
            if k < hi - 1 {
                assert(rs[k].end < rs[hi - 1].start);
            }
        }
        assert(fits(r[lo], n));
    }
}

impl VaultContext {
    /// Deletes every block of `blocks` (see `delete_block`), range by range.
    pub fn delete_blocks(&mut self, blocks: BlockSet) -> (r: Result<(), FileChangeError>)
        requires
            old(self).empty().wf(),
            blocks.wf(),
            forall|b: int| #[trigger] blocks@.contains(b) ==> 0 <= b <= MAX_BLOCK_ID,
        ensures
            final(self).empty().wf(),
            old(self).file().len() <= final(self).file().len(),
            r is Ok ==> final(self).empty()@ == old(self).empty()@.union(blocks@),
            r is Ok ==> blocks_erased(final(self).file(), blocks@),
            r is Ok ==> same_outside(old(self).file(), final(self).file(), blocks@),
            (forall|b: int| #[trigger] blocks@.contains(b) ==> block_offset(b) <= old(self).file().len())
                ==> r is Ok,
    {
        proof {
            blocks.lemma_ranges_wf();
        }
        let ghost all = blocks@;
        let ranges = blocks.into_vec();
        let ghost empty0 = self.empty()@;
        let ghost file0 = self.file();
        proof {
            assert(Set::new(|b: int| ranges_contain(ranges@.subrange(0, 0), b)) =~= Set::<int>::empty());
            assert(self.empty()@ =~= empty0.union(Set::<int>::empty()));
        }
        let mut k: usize = 0;
        while k < ranges.len()
            invariant
                k <= ranges@.len(),
                ranges_wf(ranges@),
                forall|b: int| #[trigger] all.contains(b) ==> 0 <= b <= MAX_BLOCK_ID,
                all == Set::new(|b: int| ranges_contain(ranges@, b)),
                self.empty().wf(),
                file0.len() == self.file().len(),
                file0 == old(self).file(),
                empty0 == old(self).empty()@,
                all == blocks@,
                self.empty()@ == empty0.union(Set::new(|b: int| ranges_contain(ranges@.subrange(0, k as int), b))),
                blocks_erased(self.file(), Set::new(|b: int| ranges_contain(ranges@.subrange(0, k as int), b))),
                same_outside(file0, self.file(), Set::new(|b: int| ranges_contain(ranges@.subrange(0, k as int), b))),
            decreases ranges@.len() - k,
        {
            let range = ranges[k];
            assert(all.contains(range.start as int) && all.contains(range.end as int)) by {
                assert(ranges@[k as int].spec_contains(range.start as int));
                assert(ranges@[k as int].spec_contains(range.end as int));
            }
            let ghost file_k = self.file();
            match self.delete_block(range) {
                Ok(()) => {},
                Err(e) => {
                    proof {
                        assert(!(block_offset(range.start as int) <= file0.len()));
                    }
                    return Err(e);
                },
            }
            proof {
                let before = Set::new(|b: int| ranges_contain(ranges@.subrange(0, k as int), b));
                let after = Set::new(|b: int| ranges_contain(ranges@.subrange(0, k + 1), b));
                lemma_range_erased(file_k, range);
                assert(self.file() == write_at(
                    file_k,
                    block_offset(range.start as int),
                    zeros(zeroed_len(file_k.len() as int, range) as nat),
                ));
                lemma_erased_kept(file_k, range, before);
                lemma_range_zeroed_inside(file_k, range);
                lemma_same_outside_union(file0, file_k, self.file(), before, Set::new(|b: int| range.spec_contains(b)));
                assert(after =~= before.union(Set::new(|b: int| range.spec_contains(b)))) by {
                    assert forall|b: int| after.contains(b) implies before.contains(b) || range.spec_contains(b) by {
                        let j = choose|j: int| 0 <= j < k + 1 && (#[trigger] ranges@.subrange(0, k + 1)[j]).spec_contains(b);
                        if j < k {
                            assert(ranges@.subrange(0, k as int)[j] == ranges@.subrange(0, k + 1)[j]);
                        }
                    }
                    assert forall|b: int| before.contains(b) implies after.contains(b) by {
                        let j = choose|j: int| 0 <= j < k && (#[trigger] ranges@.subrange(0, k as int)[j]).spec_contains(b);
                        assert(ranges@.subrange(0, k as int)[j] == ranges@.subrange(0, k + 1)[j]);
                    }
                    assert forall|b: int| range.spec_contains(b) implies after.contains(b) by {
                        assert(ranges@.subrange(0, k + 1)[k as int] == range);
                    }
                }
                assert(self.empty()@ =~= empty0.union(after));
                assert forall|b: int, i: int|
                    #![trigger after.contains(b), self.file()[i]]
                    after.contains(b) && block_offset(b) <= i < block_offset(b) + DATABLOCK_LENGTH && 0 <= i
                        < self.file().len() implies self.file()[i] == 0 by {
                    if before.contains(b) {
                    } else {
                        assert(range.spec_contains(b));
                    }
                }
            }
            k += 1;
        }
        proof {
            assert(ranges@.subrange(0, ranges@.len() as int) =~= ranges@);
        }
        Ok(())
    }
}

/// Every byte of the blocks `blocks` that lies within `file` is zero.
pub open spec fn blocks_erased(file: Seq<u8>, blocks: Set<int>) -> bool {
    forall|b: int, i: int|
        #![trigger blocks.contains(b), file[i]]
        blocks.contains(b) && block_offset(b) <= i < block_offset(b) + DATABLOCK_LENGTH && 0 <= i < file.len()
            ==> file[i] == 0
}

/// Byte `i` lies in one of the blocks `blocks`.
pub open spec fn in_blocks(blocks: Set<int>, i: int) -> bool {
    exists|b: int| #[trigger] blocks.contains(b) && block_offset(b) <= i < block_offset(b) + DATABLOCK_LENGTH
}

/// `after` is `before`, possibly longer, with changes only inside the blocks `blocks`.
pub open spec fn same_outside(before: Seq<u8>, after: Seq<u8>, blocks: Set<int>) -> bool {
    &&& before.len() <= after.len()
    &&& forall|i: int| 0 <= i < before.len() && !in_blocks(blocks, i) ==> #[trigger] after[i] == before[i]
}

/// Every block of a well-formed set lies below its span.
proof fn lemma_below_span(s: BlockSet, x: int)
    requires
        s.wf(),
        s@.contains(x),
    ensures
        x < s.span(),
{
    let rs = s.ranges();
    let k = choose|k: int| 0 <= k < rs.len() && (#[trigger] rs[k]).spec_contains(x);
    let n = rs.len() - 1;
    if k < n {
        assert(rs[k].end < rs[n].start);
    }
    assert(rs[n].start <= rs[n].end);
}

/// Zeroing a range as `delete_block` does changes nothing outside the blocks of the range.
proof fn lemma_range_zeroed_inside(file: Seq<u8>, range: BlockRange)
    requires
        range.start <= range.end <= MAX_BLOCK_ID,
        block_offset(range.start as int) <= file.len(),
    ensures
        same_outside(
            file,
            write_at(file, block_offset(range.start as int), zeros(zeroed_len(file.len() as int, range) as nat)),
            Set::new(|b: int| range.spec_contains(b)),
        ),
{
    let off = block_offset(range.start as int);
    let zl = zeroed_len(file.len() as int, range);
    let f = write_at(file, off, zeros(zl as nat));
    let rs = Set::new(|b: int| range.spec_contains(b));
    assert forall|i: int| 0 <= i < file.len() && !in_blocks(rs, i) implies #[trigger] f[i] == file[i] by {
        if off <= i < off + zl {
            let b = range.start + (i - off) / 272;
            assert(range.start <= b <= range.end && block_offset(b) <= i < block_offset(b) + 272) by (nonlinear_arith)
                requires
                    b == range.start + (i - off) / 272,
                    off == 213 + range.start * 272,
                    off <= i < off + zl,
                    zl <= (range.end - range.start + 1) * 272,
            ;
            assert(rs.contains(b));
        }
    }
}

/// Changes only inside a set of blocks are changes only inside a larger set.
pub proof fn lemma_same_outside_larger(before: Seq<u8>, after: Seq<u8>, small: Set<int>, large: Set<int>)
    requires
        same_outside(before, after, small),
        small.subset_of(large),
    ensures
        same_outside(before, after, large),
{
    assert forall|i: int| 0 <= i < before.len() && !in_blocks(large, i) implies #[trigger] after[i] == before[i] by {
        if in_blocks(small, i) {
            let b = choose|b: int| #[trigger] small.contains(b) && block_offset(b) <= i < block_offset(b) + DATABLOCK_LENGTH;
            assert(large.contains(b));
        }
    }
}

/// Writing at most the blocks of `range` from its first block on changes nothing outside them.
pub proof fn lemma_written_inside_range(file: Seq<u8>, range: BlockRange, data: Seq<u8>)
    requires
        range.start <= range.end <= MAX_BLOCK_ID,
        data.len() <= range.spec_len() * DATABLOCK_LENGTH,
    ensures
        same_outside(file, write_at(file, block_offset(range.start as int), data), Set::new(|b: int| range.spec_contains(b))),
{
    let off = block_offset(range.start as int);
    let f = write_at(file, off, data);
    let rs = Set::new(|b: int| range.spec_contains(b));
    let dl = data.len() as int;
    assert forall|i: int| 0 <= i < file.len() && !in_blocks(rs, i) implies #[trigger] f[i] == file[i] by {
        if off <= i < off + dl {
            let b = range.start + (i - off) / 272;
            assert(range.start <= b <= range.end && block_offset(b) <= i < block_offset(b) + 272) by (nonlinear_arith)
                requires
                    b == range.start + (i - off) / 272,
                    off == 213 + range.start * 272,
                    off <= i < off + dl,
                    dl <= (range.end - range.start + 1) * 272,
            ;
            assert(rs.contains(b));
        }
    }
}

/// Writing a new block as `new_block` does changes nothing outside the blocks it takes.
pub proof fn lemma_block_written_inside(file: Seq<u8>, range: BlockRange, data: Seq<u8>)
    requires
        range.start <= range.end <= MAX_BLOCK_ID,
        data.len() <= range.spec_len() * DATABLOCK_LENGTH,
    ensures
        same_outside(file, block_written(file, range.start, data), Set::new(|b: int| range.spec_contains(b))),
{
    if block_offset(range.start as int) < file.len() {
        lemma_written_inside_range(file, range, data);
    }
}


/// A file is the same as itself outside any blocks.
pub proof fn lemma_same_outside_refl(file: Seq<u8>, blocks: Set<int>)
    ensures
        same_outside(file, file, blocks),
{
}

/// Changes inside `s1` followed by changes inside `s2` are changes inside both together.
pub proof fn lemma_same_outside_union(a: Seq<u8>, b: Seq<u8>, c: Seq<u8>, s1: Set<int>, s2: Set<int>)
    requires
        same_outside(a, b, s1),
        same_outside(b, c, s2),
    ensures
        same_outside(a, c, s1.union(s2)),
{
    assert forall|i: int| 0 <= i < a.len() && !in_blocks(s1.union(s2), i) implies #[trigger] c[i] == a[i] by {
        if in_blocks(s1, i) {
            let x = choose|x: int| #[trigger] s1.contains(x) && block_offset(x) <= i < block_offset(x) + DATABLOCK_LENGTH;
            assert(s1.union(s2).contains(x));
        }
        if in_blocks(s2, i) {
            let x = choose|x: int| #[trigger] s2.contains(x) && block_offset(x) <= i < block_offset(x) + DATABLOCK_LENGTH;
            assert(s1.union(s2).contains(x));
        }
        assert(b[i] == a[i]);
    }
}

/// Zeroing a range as `delete_block` does erases every block of the range.
proof fn lemma_range_erased(file: Seq<u8>, range: BlockRange)
    requires
        range.start <= range.end <= MAX_BLOCK_ID,
        block_offset(range.start as int) <= file.len(),
    ensures
        blocks_erased(
            write_at(file, block_offset(range.start as int), zeros(zeroed_len(file.len() as int, range) as nat)),
            Set::new(|b: int| range.spec_contains(b)),
        ),
{
    let off = block_offset(range.start as int);
    let zl = zeroed_len(file.len() as int, range);
    let f = write_at(file, off, zeros(zl as nat));
    let rs = Set::new(|b: int| range.spec_contains(b));
    assert forall|b: int, i: int|
        #![trigger rs.contains(b), f[i]]
        rs.contains(b) && block_offset(b) <= i < block_offset(b) + DATABLOCK_LENGTH && 0 <= i < f.len() implies f[i]
            == 0 by {
        assert(block_offset(b) + DATABLOCK_LENGTH <= off + range.spec_len() * DATABLOCK_LENGTH) by (nonlinear_arith)
            requires
                range.start <= b <= range.end,
                off == 213 + range.start * 272,
        ;
        assert(block_offset(b) >= off) by (nonlinear_arith)
            requires
                range.start <= b,
                off == 213 + range.start * 272,
        ;
    }
}

/// Zeroing a range keeps erased blocks erased.
proof fn lemma_erased_kept(file: Seq<u8>, range: BlockRange, blocks: Set<int>)
    requires
        range.start <= range.end <= MAX_BLOCK_ID,
        block_offset(range.start as int) <= file.len(),
        blocks_erased(file, blocks),
    ensures
        blocks_erased(
            write_at(file, block_offset(range.start as int), zeros(zeroed_len(file.len() as int, range) as nat)),
            blocks,
        ),
{
    let off = block_offset(range.start as int);
    let zl = zeroed_len(file.len() as int, range);
    let f = write_at(file, off, zeros(zl as nat));
    assert(f.len() == file.len());
    assert forall|b: int, i: int|
        #![trigger blocks.contains(b), f[i]]
        blocks.contains(b) && block_offset(b) <= i < block_offset(b) + DATABLOCK_LENGTH && 0 <= i < f.len() implies f[i]
            == 0 by {
        if off <= i < off + zl {
        } else {
            assert(f[i] == file[i]);
            assert(file[i] == 0);
        }
    }
}

/// The header of a vault file: its first bytes, read as a header.
pub open spec fn header_of(file: Seq<u8>) -> Seq<u8> {
    file.subrange(0, VAULTHEADER_LENGTH as int)
}

/// The vault key that `password` unlocks in a header: the user key derived from the password
/// and the header's IV decrypts the encrypted vault key.
pub open spec fn unlocked_key(h: HeaderInfo, password: Seq<char>) -> Result<Seq<u8>, ()> {
    spec_decrypt(
        pbkdf2_hmac_sha256(encode_utf8(password), h.spec_userkey_iv(), PBKDF2_ITERATIONS as nat),
        h.spec_vaultkey_nonce(),
        h.spec_enc_vaultkey(),
    )
}

/// The vault key that `password` unlocks in the header bytes `data`: the user key derived from
/// the password and the IV decrypts the encrypted vault key.
pub open spec fn header_key(data: Seq<u8>, password: Seq<char>) -> Result<Seq<u8>, ()> {
    spec_decrypt(
        pbkdf2_hmac_sha256(encode_utf8(password), data.subrange(137, 153), PBKDF2_ITERATIONS as nat),
        data.subrange(153, 165),
        data.subrange(165, 213),
    )
}

impl VaultContext {
    /// Open a vault from the contents of its file: read the header, unlock the vault key with
    /// `password`, rebuild the directory tree from the root entry block (block 0), and collect
    /// the empty blocks: every block below the last occupied one that no entry occupies.
    /// Returns the context, the root directory, the header and the vault key.
    pub fn new(vault_file: Vec<u8>, password: String) -> (r: Result<
        (Self, DirectoryEntry, HeaderInfo, [u8; KEY_LENGTH]),
        InitVaultContextError,
    >)
        ensures
            vault_file@.len() < VAULTHEADER_LENGTH ==> r matches Err(
                InitVaultContextError::ReadHeaderError(ReadHeaderError::UnexpectedEOF),
            ),
            vault_file@.len() >= VAULTHEADER_LENGTH && !header_accepted(header_of(vault_file@)) ==> r matches Err(
                InitVaultContextError::ReadHeaderError(_),
            ),
            vault_file@.len() >= VAULTHEADER_LENGTH && header_accepted(header_of(vault_file@)) && header_key(
                header_of(vault_file@),
                password@,
            ) is Err ==> r matches Err(
                InitVaultContextError::RetrieveKeyError(RetrieveKeyError::DecryptError(CryptographyError::InauthenticTag)),
            ),
            vault_file@.len() >= VAULTHEADER_LENGTH && header_accepted(header_of(vault_file@)) && header_key(
                header_of(vault_file@),
                password@,
            ) is Ok ==> ({
                let k = header_key(header_of(vault_file@), password@)->Ok_0;
                &&& r is Ok <==> rebuildable(vault_file@, k, 0, vault_file@.len() as int / DATABLOCK_LENGTH as int + 1)
                    && stored_blocks_valid(vault_file@, k, 0)
                &&& rebuildable(vault_file@, k, 0, vault_file@.len() as int / DATABLOCK_LENGTH as int + 1)
                    && !stored_blocks_valid(vault_file@, k, 0) ==> (r matches Err(
                    InitVaultContextError::BuildVaultError(BuildVaultError::InvalidBlockIds),
                ))
                &&& r is Err ==> r matches Err(InitVaultContextError::BuildVaultError(_))
            }),
            r matches Ok((ctx, root, header, key)) ==> {
                let occ = occupied(VaultEntryView::Directory(root.dview()));
                &&& ctx.file() == vault_file@
                &&& header.spec_serialized() == header_of(vault_file@)
                &&& unlocked_key(header, password@) == Ok::<Seq<u8>, ()>(key@)
                &&& root.dview().block == 0
                &&& blocks_valid(VaultEntryView::Directory(root.dview()))
                &&& stored_entry(vault_file@, key@, VaultEntryView::Directory(root.dview()))
                &&& ctx.empty().wf()
                &&& exists|o: BlockSet| o.wf() && o@ == occ && ctx.empty()@ == Set::new(
                    |b: int| 0 <= b < o.span() && !occ.contains(b),
                )
            },
    {
        if vault_file.len() < VAULTHEADER_LENGTH {
            return Err(InitVaultContextError::ReadHeaderError(ReadHeaderError::UnexpectedEOF));
        }
        let header_bytes = array_at::<VAULTHEADER_LENGTH>(vault_file.as_slice(), 0);
        let header = match HeaderInfo::build_header(header_bytes) {
            Ok(h) => h,
            Err(e) => return Err(InitVaultContextError::ReadHeaderError(e)),
        };
        proof {
            header.lemma_serialized_fields();
        }
        let key = match header.retrieve_key(password) {
            Ok(k) => k,
            Err(e) => return Err(InitVaultContextError::RetrieveKeyError(e)),
        };
        let mut context = VaultContext { vault_file, empty_blocks: BlockSet::new() };
        let root = match DirectoryEntry::build_entry_rec(0, &context, &key) {
            Ok(d) => d,
            Err(e) => return Err(InitVaultContextError::BuildVaultError(e)),
        };
        // the blocks of entries with unusable block ids cannot be told apart from the empty ones
        if !root.has_valid_blocks() {
            proof {
                assert(!stored_blocks_valid(context.file(), key@, 0));
            }
            return Err(InitVaultContextError::BuildVaultError(BuildVaultError::InvalidBlockIds));
        }
        proof {
            assert forall|t: DirectoryView|
                #![trigger stored_entry(context.file(), key@, VaultEntryView::Directory(t))]
                t.block == 0 && stored_entry(context.file(), key@, VaultEntryView::Directory(t)) implies blocks_valid(
                VaultEntryView::Directory(t),
            ) by {
                lemma_stored_entry_unique(context.file(), key@, VaultEntryView::Directory(t), VaultEntryView::Directory(root.dview()));
            }
        }
        let occupied_blocks = root.occupied_datablocks();
        proof {
            lemma_occupied_bounded(VaultEntryView::Directory(root.dview()));
            occupied_blocks.lemma_ranges_wf();
            if occupied_blocks.ranges().len() > 0 {
                let n = occupied_blocks.ranges().len() - 1;
                assert(occupied_blocks.ranges()[n].spec_contains(occupied_blocks.ranges()[n].end as int));
                assert(occupied_blocks@.contains(occupied_blocks.ranges().last().end as int));
            }
        }
        let empty = occupied_blocks.get_empty_space();
        context.empty_blocks = empty;
        Ok((context, root, header, key))
    }
}

impl VaultContext {
    /// Whether the secret occupying `size` blocks from `start` can be replaced by one of `len`
    /// bytes of contents without block ids or the file length running out of range.
    pub fn secret_change_fits(&self, start: u64, size: u64, new_blocks: u64, len: usize) -> (r: bool)
        requires
            self.empty().wf(),
        ensures
            r <==> (self.empty().span() + new_blocks <= MAX_BLOCK_ID && start + size + new_blocks
                <= MAX_BLOCK_ID && self.file().len() + (size + 1) * DATABLOCK_LENGTH + len + AES_GCM_AUTH_TAG
                + DATABLOCK_LENGTH <= usize::MAX),
    {
        let n = self.empty_blocks.blocks().len();
        let span: u64 = if n == 0 {
            0
        } else {
            let last = self.empty_blocks.blocks()[n - 1];
            if last.end >= MAX_BLOCK_ID {
                return false;
            }
            last.end + 1
        };
        assert(span == self.empty().span());
        if new_blocks > MAX_BLOCK_ID || span > MAX_BLOCK_ID - new_blocks {
            return false;
        }
        if start > MAX_BLOCK_ID || size > MAX_BLOCK_ID - start || new_blocks > MAX_BLOCK_ID - start - size {
            return false;
        }
        let file_len = self.vault_file.len();
        if size as u128 >= usize::MAX as u128 / 272 {
            return false;
        }
        let blocks_bytes = ((size + 1) as usize) * DATABLOCK_LENGTH;
        if len > usize::MAX - 2 * DATABLOCK_LENGTH {
            return false;
        }
        let extra = len + AES_GCM_AUTH_TAG + DATABLOCK_LENGTH;
        if blocks_bytes > usize::MAX - extra {
            return false;
        }
        file_len <= usize::MAX - extra - blocks_bytes
    }
}

impl VaultContext {
    /// Whether the empty blocks can serve an allocation of `first` blocks and then one of a
    /// single block, with `extra` bytes to spare in the file length (see `can_allocate`).
    pub fn has_room(&self, first: u64, extra: usize) -> (r: bool)
        requires
            self.empty().wf(),
        ensures
            r == crate::vault::entry::can_allocate(*self, first as int, extra as nat),
    {
        let blocks = self.empty_blocks.blocks();
        let n = blocks.len();
        if n == 0 || first > MAX_BLOCK_ID {
            return false;
        }
        let ghost rs = self.empty().ranges();
        proof {
            self.empty().lemma_ranges_wf();
        }
        let keeps_one = if n >= 2 {
            proof {
                if exists|k: int| 0 <= k < rs.len() && fits(#[trigger] rs[k], first as int) {
                    lemma_first_fit_spec(rs, first as int);
                }
            }
            true
        } else {
            let r0 = blocks[0];
            proof {
                if fits(rs[0], first as int) {
                    lemma_first_fit_spec(rs, first as int);
                }
            }
            !((r0.end - r0.start) as u128 + 1 >= first as u128 && (r0.end - r0.start) as u128 + 1 <= first as u128)
        };
        if !keeps_one {
            return false;
        }
        let last = blocks[n - 1];
        if last.end > MAX_BLOCK_ID || first + 1 > MAX_BLOCK_ID - last.end {
            return false;
        }
        let file_len = self.vault_file.len();
        if (first as u128 + 1) * 272 > usize::MAX as u128 {
            return false;
        }
        let need = ((first + 1) as usize) * DATABLOCK_LENGTH;
        if need > usize::MAX - extra {
            return false;
        }
        file_len <= usize::MAX - extra - need
    }
}

/// Writing blocks grows the file by at most the bytes written.
pub proof fn lemma_block_written_len(file: Seq<u8>, start: u64, data: Seq<u8>)
    ensures
        file.len() <= block_written(file, start, data).len() <= file.len() + data.len(),
{
}

proof fn lemma_span_after_put(before: BlockSet, after: BlockSet, block: BlockRange)
    requires
        before.wf(),
        after.wf(),
        block.start <= block.end,
        after@ == before@.union(Set::new(|b: int| block.spec_contains(b))),
    ensures
        after.ranges().len() > 0,
        after.ranges().last().end <= if before.span() > block.end + 1 { before.span() - 1 } else { block.end as int },
{
    assert(after@.contains(block.start as int));
    let n = after.ranges().len() - 1;
    let e = after.ranges()[n].end as int;
    assert(after.ranges()[n].spec_contains(e));
    assert(after@.contains(e));
    if !Set::new(|b: int| block.spec_contains(b)).contains(e) {
        assert(before@.contains(e));
        let k = choose|k: int| 0 <= k < before.ranges().len() && (#[trigger] before.ranges()[k]).spec_contains(e);
        let m = before.ranges().len() - 1;
        if k < m {
            assert(before.ranges()[k].end < before.ranges()[m].start);
            assert(before.ranges()[m].start <= before.ranges()[m].end);
        }
    }
}

/// How many bytes of a deleted block are zeroed: its whole length, but nothing past the end of
/// a file of `file_len` bytes.
pub open spec fn zeroed_len(file_len: int, block: BlockRange) -> int {
    let off = block_offset(block.start as int);
    let full = block.spec_len() * DATABLOCK_LENGTH;
    if off + full > file_len { file_len - off } else { full }
}

/// After handing out `range`, the empty blocks lost exactly that range when it came from them,
/// and are unchanged when it lies past all of them.
pub open spec fn occupied_from(before: BlockSet, after: BlockSet, range: BlockRange) -> bool {
    ||| (Set::new(|b: int| range.spec_contains(b)).subset_of(before@)
        && after@ == before@.difference(Set::new(|b: int| range.spec_contains(b))))
    ||| (range.start == before.ranges().last().end + 1 && after.ranges() == before.ranges())
}

/// A vault path: starts with '/' and never has a '/' directly after another '/'.
pub open spec fn is_vault_path(s: Seq<char>) -> bool {
    &&& s.len() > 0
    &&& s[0] == '/'
    &&& forall|i: int| 0 < i < s.len() && s[i] == '/' ==> #[trigger] s[i - 1] != '/'
}

/// The index of the last occurrence of `c` in `s` (-1 when there is none).
pub open spec fn last_index_of(s: Seq<char>, c: char) -> int
    decreases s.len(),
{
    if s.len() == 0 {
        -1
    } else if s.last() == c {
        s.len() - 1
    } else {
        last_index_of(s.drop_last(), c)
    }
}

/// Where the last occurrence of a character lies.
pub proof fn lemma_last_index_of(s: Seq<char>, c: char)
    ensures
        -1 <= last_index_of(s, c) < s.len(),
        last_index_of(s, c) >= 0 ==> s[last_index_of(s, c)] == c,
        forall|j: int| last_index_of(s, c) < j < s.len() ==> s[j] != c,
        s.len() > 0 && s[0] == c ==> last_index_of(s, c) >= 0,
    decreases s.len(),
{
    if s.len() > 0 && s.last() != c {
        lemma_last_index_of(s.drop_last(), c);
        assert forall|j: int| last_index_of(s, c) < j < s.len() implies s[j] != c by {
            if j < s.len() - 1 {
                assert(s[j] == s.drop_last()[j]);
            }
        }
        if s.len() > 1 && s[0] == c {
            assert(s.drop_last()[0] == c);
        }
    }
}

/// The pieces of `s` between the occurrences of `sep`, as `str::split` gives them.
pub open spec fn split_chars(s: Seq<char>, sep: char) -> Seq<Seq<char>>
    decreases s.len(),
{
    let l = last_index_of(s, sep);
    if l < 0 {
        seq![s]
    } else {
        proof {
            lemma_last_index_of(s, sep);
        }
        split_chars(s.subrange(0, l), sep).push(s.subrange(l + 1, s.len() as int))
    }
}

/// The pieces joined with `sep` between each two of them.
pub open spec fn join_chars(parts: Seq<Seq<char>>, sep: char) -> Seq<char>
    decreases parts.len(),
{
    if parts.len() == 0 {
        Seq::empty()
    } else if parts.len() == 1 {
        parts[0]
    } else {
        join_chars(parts.drop_last(), sep) + seq![sep] + parts.last()
    }
}

/// How often `c` occurs in `s`.
pub open spec fn count_char(s: Seq<char>, c: char) -> nat
    decreases s.len(),
{
    if s.len() == 0 {
        0
    } else {
        count_char(s.drop_last(), c) + if s.last() == c { 1nat } else { 0nat }
    }
}

/// Counting over two pieces one after the other adds up.
proof fn lemma_count_char_add(a: Seq<char>, b: Seq<char>, c: char)
    ensures
        count_char(a + b, c) == count_char(a, c) + count_char(b, c),
    decreases b.len(),
{
    if b.len() > 0 {
        assert((a + b).drop_last() =~= a + b.drop_last());
        lemma_count_char_add(a, b.drop_last(), c);
    } else {
        assert(a + b =~= a);
    }
}

/// A piece without `c` has no occurrence of it.
proof fn lemma_count_char_none(s: Seq<char>, c: char)
    requires
        forall|j: int| 0 <= j < s.len() ==> s[j] != c,
    ensures
        count_char(s, c) == 0,
    decreases s.len(),
{
    if s.len() > 0 {
        lemma_count_char_none(s.drop_last(), c);
    }
}

/// The law of splitting: joining the pieces of `s` between the occurrences of `sep` with `sep`
/// gives `s` back, and there is one piece more than occurrences.
pub proof fn lemma_split_join(s: Seq<char>, sep: char)
    ensures
        join_chars(split_chars(s, sep), sep) == s,
        split_chars(s, sep).len() == count_char(s, sep) + 1,
    decreases s.len(),
{
    lemma_last_index_of(s, sep);
    let l = last_index_of(s, sep);
    if l < 0 {
        lemma_count_char_none(s, sep);
    } else {
        let pre = s.subrange(0, l);
        let post = s.subrange(l + 1, s.len() as int);
        lemma_split_join(pre, sep);
        let parts = split_chars(s, sep);
        assert(parts.drop_last() =~= split_chars(pre, sep));
        assert(split_chars(pre, sep).len() >= 1);
        assert(s =~= pre + seq![sep] + post);
        lemma_count_char_none(post, sep);
        lemma_count_char_add(pre + seq![sep], post, sep);
        lemma_count_char_add(pre, seq![sep], sep);
        assert(seq![sep].drop_last() =~= Seq::<char>::empty());
        assert(count_char(Seq::<char>::empty(), sep) == 0);
        assert(count_char(seq![sep], sep) == 1);
        assert(count_char(s, sep) == count_char(pre, sep) + 1);
    }
}

/// The parent of a vault path: everything before its last '/', or the root "/" when that
/// is the only '/'; the root itself has no parent.
pub open spec fn parent_path(s: Seq<char>) -> Option<Seq<char>> {
    let l = last_index_of(s, '/');
    if l == 0 && s.len() == 1 {
        None
    } else if l == 0 {
        Some(s.subrange(0, 1))
    } else {
        Some(s.subrange(0, l))
    }
}

/// A very primitive structure used to represent Paths inside of the vault. It only supports global
/// paths and performs minimal checks on robustness
#[derive(Debug)]
pub struct VaultPath {
    path: String,
}

impl View for VaultPath {
    type V = Seq<char>;

    closed spec fn view(&self) -> Seq<char> {
        self.path@
    }
}

impl Clone for VaultPath {
    fn clone(&self) -> (r: Self)
        ensures
            r@ == self@,
    {
        proof {
            use_type_invariant(self);
        }
        VaultPath { path: self.path.clone() }
    }
}

impl VaultPath {
    #[verifier::type_invariant]
    spec fn inv(self) -> bool {
        is_vault_path(self.path@)
    }

    /// Check that `path` is a vault path: '/' is the first character and no '/' follows a '/'.
    pub fn new(path: String) -> (r: Result<Self, InvalidVaultPathError>)
        ensures
            r is Ok <==> is_vault_path(path@),
            r matches Ok(p) ==> p@ == path@,
            r matches Err(e) ==> e.path@ == path@,
    {
        let n = path.as_str().unicode_len();
        if n == 0 {
            return Err(InvalidVaultPathError { path });
        }
        let mut was_sep = false;
        let mut i: usize = 0;
        while i < n
            invariant
                n == path@.len(),
                i <= n,
                i > 0 ==> path@[0] == '/',
                was_sep == (i > 0 && path@[i - 1] == '/'),
                forall|j: int| 0 < j < i && path@[j] == '/' ==> #[trigger] path@[j - 1] != '/',
            decreases n - i,
        {
            let character = path.as_str().get_char(i);
            if i == 0 && character != '/' {
                return Err(InvalidVaultPathError { path });
            }
            if character == '/' {
                if was_sep {
                    return Err(InvalidVaultPathError { path });
                } else {
                    was_sep = true;
                }
            } else {
                was_sep = false;
            }
            i += 1;
        }
        Ok(Self { path })
    }

    /// Gets the entry name of this path: what follows its last '/'.
    pub fn name(&self) -> (r: Option<&str>)
        ensures
            r matches Some(s) && s@ == self@.subrange(last_index_of(self@, '/') + 1, self@.len() as int),
    {
        proof {
            use_type_invariant(self);
            lemma_last_index_of(self.path@, '/');
        }
        let last = self.rfind_sep();
        let n = self.path.as_str().unicode_len();
        Some(self.path.as_str().substring_char(last + 1, n))
    }

    /// The index of the last '/' of the path.
    fn rfind_sep(&self) -> (r: usize)
        ensures
            r == last_index_of(self@, '/'),
    {
        proof {
            use_type_invariant(self);
            lemma_last_index_of(self.path@, '/');
        }
        let n = self.path.as_str().unicode_len();
        let mut i: usize = n;
        while i > 0
            invariant
                i <= n == self.path@.len(),
                is_vault_path(self.path@),
                last_index_of(self.path@, '/') < i,
                last_index_of(self.path@, '/') >= 0 ==> self.path@[last_index_of(self.path@, '/')] == '/',
                forall|j: int| i <= j < n ==> self.path@[j] != '/',
            decreases i,
        {
            if self.path.as_str().get_char(i - 1) == '/' {
                proof {
                    lemma_last_index_of(self.path@, '/');
                }
                return i - 1;
            }
            i -= 1;
        }
        proof {
            assert(self.path@[0] == '/');
        }
        0
    }

    pub fn into_string(self) -> (r: String)
        ensures
            r@ == self@,
    {
        self.path
    }

    /// The pieces of the path between its '/' characters (the first piece is empty).
    pub fn parts(&self) -> (r: Vec<&str>)
        ensures
            r@.len() == split_chars(self@, '/').len(),
            forall|i: int| 0 <= i < r@.len() ==> (#[trigger] r@[i])@ == split_chars(self@, '/')[i],
    {
        split_slash(self.path.as_str())
    }

    /// The parent path; `None` for the root "/".
    pub fn into_parent(self) -> (r: Option<Self>)
        ensures
            match parent_path(self@) {
                Some(p) => r matches Some(q) && q@ == p,
                None => r is None,
            },
    {
        self.parent()
    }

    /// The parent path; `None` for the root "/".
    pub fn parent(&self) -> (r: Option<Self>)
        ensures
            match parent_path(self@) {
                Some(p) => r matches Some(q) && q@ == p,
                None => r is None,
            },
    {
        proof {
            use_type_invariant(self);
        }
        let last = self.rfind_sep();
        let n = self.path.as_str().unicode_len();
        proof {
            lemma_last_index_of(self.path@, '/');
        }
        if last == 0 && n == 1 {
            None
        } else {
            let keep = if last == 0 { 1 } else { last };
            let new_str = String::from_str(self.path.as_str().substring_char(0, keep));
            proof {
                assert forall|i: int| 0 < i < new_str@.len() && new_str@[i] == '/' implies #[trigger] new_str@[i - 1] != '/' by {
                    assert(new_str@[i] == self.path@[i]);
                    assert(new_str@[i - 1] == self.path@[i - 1]);
                }
            }
            Some(Self { path: new_str })
        }
    }
}

/// The pieces of `path` between its '/' characters, as `str::split('/')` gives them.
pub fn split_slash<'a>(path: &'a str) -> (r: Vec<&'a str>)
    ensures
        r@.len() == split_chars(path@, '/').len(),
        forall|i: int| 0 <= i < r@.len() ==> (#[trigger] r@[i])@ == split_chars(path@, '/')[i],
{
    let n = path.unicode_len();
    let mut res: Vec<&str> = Vec::new();
    let mut start: usize = 0;
    let mut i: usize = 0;
    while i < n
        invariant
            n == path@.len(),
            start <= i <= n,
            forall|j: int| start <= j < i ==> path@[j] != '/',
            start > 0 ==> path@[start - 1] == '/',
            res@.len() == pieces_before(path@, start as int).len(),
            forall|k: int| 0 <= k < res@.len() ==> (#[trigger] res@[k])@ == pieces_before(path@, start as int)[k],
        decreases n - i,
    {
        if path.get_char(i) == '/' {
            let piece = path.substring_char(start, i);
            proof {
                lemma_split_step(path@, start as int, i as int);
                assert(path@.subrange(0, (i + 1) - 1) =~= path@.subrange(0, i as int));
            }
            res.push(piece);
            start = i + 1;
        }
        i += 1;
    }
    let piece = path.substring_char(start, n);
    proof {
        lemma_split_step(path@, start as int, n as int);
    }
    res.push(piece);
    proof {
        assert(path@.subrange(0, n as int) =~= path@);
    }
    res
}

/// The pieces of `s` that lie before position `start` (which follows a separator).
pub open spec fn pieces_before(s: Seq<char>, start: int) -> Seq<Seq<char>> {
    if start == 0 {
        Seq::empty()
    } else {
        split_chars(s.subrange(0, start - 1), '/')
    }
}

proof fn lemma_split_step(s: Seq<char>, start: int, i: int)
    requires
        0 <= start <= i <= s.len(),
        start > 0 ==> s[start - 1] == '/',
        forall|j: int| start <= j < i ==> s[j] != '/',
    ensures
        split_chars(s.subrange(0, i), '/') == pieces_before(s, start).push(s.subrange(start, i)),
{
    let t = s.subrange(0, i);
    lemma_last_index_of(t, '/');
    let l = last_index_of(t, '/');
    if start == 0 {
        if l >= 0 {
            assert(t[l] == s[l]);
        }
        assert(seq![t] =~= Seq::<Seq<char>>::empty().push(s.subrange(start, i)));
    } else {
        if l < start - 1 {
            assert(t[start - 1] == s[start - 1]);
        }
        if l >= start {
            assert(t[l] == s[l]);
        }
        assert(l == start - 1);
        assert(t.subrange(0, l) =~= s.subrange(0, start - 1));
        assert(t.subrange(l + 1, t.len() as int) =~= s.subrange(start, i));
    }
}

/// The ranges left after taking `req` blocks from the start of the first range with room for
/// them (a range that is used up is dropped); unchanged when no range has room.
pub open spec fn occupy_ranges(blocks: Seq<BlockRange>, req: int) -> Seq<BlockRange> {
    if exists|k: int| 0 <= k < blocks.len() && fits(#[trigger] blocks[k], req) {
        let i = first_fit(blocks, req);
        if blocks[i].spec_len() > req {
            blocks.update(i, BlockRange { start: (blocks[i].start + req) as u64, end: blocks[i].end })
        } else {
            blocks.remove(i)
        }
    } else {
        blocks
    }
}

/// Where `occupy` places `req` blocks: at the start of the first range with room for them, or
/// right after the last range when none has room.
pub open spec fn alloc_start(blocks: Seq<BlockRange>, req: int) -> u64 {
    if exists|k: int| 0 <= k < blocks.len() && fits(#[trigger] blocks[k], req) {
        blocks[first_fit(blocks, req)].start
    } else {
        (blocks.last().end + 1) as u64
    }
}

/// The vault file after `new_block` wrote `data` for blocks starting at `start`: appended when
/// that position lies at or past the end of the file, written in place otherwise.
pub open spec fn block_written(file: Seq<u8>, start: u64, data: Seq<u8>) -> Seq<u8> {
    if block_offset(start as int) >= file.len() {
        file + data
    } else {
        write_at(file, block_offset(start as int), data)
    }
}

/// Taking blocks never moves the end of the last range up.
pub proof fn lemma_occupy_ranges_end(blocks: Seq<BlockRange>, req: int)
    requires
        ranges_wf(blocks),
        req >= 1,
        occupy_ranges(blocks, req).len() > 0,
    ensures
        occupy_ranges(blocks, req).last().end <= blocks.last().end,
{
    let r = occupy_ranges(blocks, req);
    if exists|k: int| 0 <= k < blocks.len() && fits(#[trigger] blocks[k], req) {
        lemma_first_fit_spec(blocks, req);
        let i = first_fit(blocks, req);
        let n = blocks.len() - 1;
        if blocks[i].spec_len() <= req && i == n {
            assert(r.last() == blocks[n - 1]);
            assert(blocks[n - 1].end < blocks[n].start);
            assert(blocks[n].start <= blocks[n].end);
        }
    }
}

/// Whether a range has room for `req` blocks.
pub open spec fn fits(r: BlockRange, req: int) -> bool {
    r.spec_len() >= req
}

/// The index of the first range with room for `req` blocks.
#[verifier::opaque]
pub open spec fn first_fit(blocks: Seq<BlockRange>, req: int) -> int
    recommends
        exists|k: int| 0 <= k < blocks.len() && fits(#[trigger] blocks[k], req),
{
    choose|k: int|
        0 <= k < blocks.len() && fits(blocks[k], req) && forall|j: int|
            0 <= j < k ==> !fits(#[trigger] blocks[j], req)
}

/// The first range with room is a range with room, and no range before it has room.
pub proof fn lemma_first_fit_spec(blocks: Seq<BlockRange>, req: int)
    requires
        exists|k: int| 0 <= k < blocks.len() && fits(#[trigger] blocks[k], req),
    ensures
        0 <= first_fit(blocks, req) < blocks.len(),
        fits(blocks[first_fit(blocks, req)], req),
        forall|j: int| 0 <= j < first_fit(blocks, req) ==> !fits(#[trigger] blocks[j], req),
{
    reveal(first_fit);
    let k = choose|k: int| 0 <= k < blocks.len() && fits(#[trigger] blocks[k], req);
    lemma_least_fit(blocks, req, k);
}

proof fn lemma_least_fit(blocks: Seq<BlockRange>, req: int, k: int)
    requires
        0 <= k < blocks.len(),
        fits(blocks[k], req),
    ensures
        exists|i: int|
            0 <= i < blocks.len() && fits(blocks[i], req) && forall|j: int|
                0 <= j < i ==> !fits(#[trigger] blocks[j], req),
    decreases k,
{
    if exists|j: int| 0 <= j < k && fits(#[trigger] blocks[j], req) {
        let j = choose|j: int| 0 <= j < k && fits(#[trigger] blocks[j], req);
        lemma_least_fit(blocks, req, j);
    } else {
        assert(forall|j: int| 0 <= j < k ==> !fits(#[trigger] blocks[j], req));
    }
}

pub proof fn lemma_first_fit(blocks: Seq<BlockRange>, req: int, i: int)
    requires
        0 <= i < blocks.len(),
        fits(blocks[i], req),
        forall|j: int| 0 <= j < i ==> !fits(#[trigger] blocks[j], req),
    ensures
        first_fit(blocks, req) == i,
{
    lemma_first_fit_spec(blocks, req);
    let f = first_fit(blocks, req);
    assert(0 <= f < blocks.len() && fits(blocks[f], req) && forall|j: int|
        0 <= j < f ==> !fits(#[trigger] blocks[j], req));
    if f < i {
        assert(!fits(blocks[f], req));
    }
    if f > i {
        assert(!fits(blocks[i], req));
    }
}

} // verus!
