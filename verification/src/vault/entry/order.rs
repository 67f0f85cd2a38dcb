//! The order in which the entries of a directory are listed: by name field, byte by byte, entries
//! with equal names in directory order.
use vstd::prelude::*;
use std::cmp::Ordering;
use crate::vault::entry::{children_views, lemma_children_views, DirectoryEntry, VaultEntry, VaultEntryView};
use crate::vault::manager::VAULTENTRYNAME_LENGTH;

verus! {

broadcast use lemma_children_views;

/// `a` comes before `b`, or equals it, in lexicographic order of bytes.
pub open spec fn bytes_le(a: Seq<u8>, b: Seq<u8>) -> bool
    decreases a.len(),
{
    if a.len() == 0 || b.len() == 0 {
        a.len() <= b.len()
    } else if a[0] != b[0] {
        a[0] < b[0]
    } else {
        bytes_le(a.drop_first(), b.drop_first())
    }
}

pub proof fn lemma_bytes_le_skip(a: Seq<u8>, b: Seq<u8>, i: int)
    requires
        0 <= i <= a.len(),
        i <= b.len(),
        a.subrange(0, i) == b.subrange(0, i),
    ensures
        bytes_le(a, b) == bytes_le(a.subrange(i, a.len() as int), b.subrange(i, b.len() as int)),
    decreases i,
{
    if i > 0 {
        assert(a.subrange(0, i)[0] == a[0]);
        assert(b.subrange(0, i)[0] == b[0]);
        assert(a.drop_first().subrange(0, i - 1) =~= a.subrange(0, i).drop_first());
        assert(b.drop_first().subrange(0, i - 1) =~= b.subrange(0, i).drop_first());
        lemma_bytes_le_skip(a.drop_first(), b.drop_first(), i - 1);
        assert(a.drop_first().subrange(i - 1, a.len() - 1) =~= a.subrange(i, a.len() as int));
        assert(b.drop_first().subrange(i - 1, b.len() - 1) =~= b.subrange(i, b.len() as int));
    } else {
        assert(a.subrange(0, a.len() as int) =~= a);
        assert(b.subrange(0, b.len() as int) =~= b);
    }
}

/// Every byte string comes before itself or equals it.
pub proof fn lemma_bytes_le_refl(a: Seq<u8>)
    ensures
        bytes_le(a, a),
    decreases a.len(),
{
    if a.len() > 0 {
        lemma_bytes_le_refl(a.drop_first());
    }
}

/// How byte string `a` compares to `b`: negative when it comes first, zero when they are equal,
/// positive when it comes after.
pub fn bytes_order(a: &[u8], b: &[u8]) -> (r: i8)
    ensures
        (r == 0) == (a@ == b@),
        (r < 0) == (a@ != b@ && bytes_le(a@, b@)),
        (r > 0) == !bytes_le(a@, b@),
{
    let n = if a.len() < b.len() { a.len() } else { b.len() };
    let mut i: usize = 0;
    while i < n
        invariant
            n <= a@.len(),
            n <= b@.len(),
            n == a@.len() || n == b@.len(),
            i <= n,
            a@.subrange(0, i as int) == b@.subrange(0, i as int),
        decreases n - i,
    {
        if a[i] != b[i] {
            proof {
                lemma_bytes_le_skip(a@, b@, i as int);
                assert(a@[i as int] != b@[i as int]);
            }
            return if a[i] < b[i] { -1 } else { 1 };
        }
        assert(a@.subrange(0, i + 1) =~= a@.subrange(0, i as int).push(a@[i as int]));
        assert(b@.subrange(0, i + 1) =~= b@.subrange(0, i as int).push(b@[i as int]));
        i += 1;
    }
    proof {
        lemma_bytes_le_skip(a@, b@, n as int);
    }
    if a.len() == b.len() {
        proof {
            assert(a@ =~= a@.subrange(0, n as int));
            assert(b@ =~= b@.subrange(0, n as int));
            lemma_bytes_le_refl(a@);
        }
        0
    } else if a.len() < b.len() {
        assert(a@.len() != b@.len());
        -1
    } else {
        assert(a@.len() != b@.len());
        1
    }
}

/// Whether name field `a` comes before name field `b` or equals it.
pub fn name_le(a: &[u8; VAULTENTRYNAME_LENGTH], b: &[u8; VAULTENTRYNAME_LENGTH]) -> (r: bool)
    ensures
        r == bytes_le(a@, b@),
{
    let mut i: usize = 0;
    while i < VAULTENTRYNAME_LENGTH
        invariant
            i <= VAULTENTRYNAME_LENGTH,
            a@.subrange(0, i as int) == b@.subrange(0, i as int),
        decreases VAULTENTRYNAME_LENGTH - i,
    {
        if a[i] != b[i] {
            proof {
                lemma_bytes_le_skip(a@, b@, i as int);
            }
            return a[i] < b[i];
        }
        assert(a@.subrange(0, i + 1) =~= a@.subrange(0, i as int).push(a@[i as int]));
        assert(b@.subrange(0, i + 1) =~= b@.subrange(0, i as int).push(b@[i as int]));
        i += 1;
    }
    proof {
        lemma_bytes_le_skip(a@, b@, VAULTENTRYNAME_LENGTH as int);
    }
    true
}

/// Where index `j` goes in the listing `p` (indices into `s`): after every entry whose name
/// comes before its name or equals it, looking from position `from` on.
pub open spec fn insert_pos(s: Seq<VaultEntryView>, p: Seq<int>, j: int, from: int) -> int
    decreases p.len() - from,
{
    if from < 0 || from >= p.len() {
        p.len() as int
    } else if bytes_le(s[p[from]].name(), s[j].name()) {
        insert_pos(s, p, j, from + 1)
    } else {
        from
    }
}

/// The listing order of the first `n` entries of `s`: each entry is placed after every earlier
/// entry whose name comes before its name or equals it (a stable sort by name).
pub open spec fn sort_order(s: Seq<VaultEntryView>, n: int) -> Seq<int>
    decreases n,
{
    if n <= 0 {
        Seq::empty()
    } else {
        let p = sort_order(s, n - 1);
        p.insert(insert_pos(s, p, n - 1, 0), n - 1)
    }
}

/// The entries of `s` in listing order.
pub open spec fn sorted_views(s: Seq<VaultEntryView>) -> Seq<VaultEntryView> {
    sort_order(s, s.len() as int).map_values(|j: int| s[j])
}

pub proof fn lemma_insert_pos(s: Seq<VaultEntryView>, p: Seq<int>, j: int, from: int)
    requires
        0 <= from <= p.len(),
    ensures
        from <= insert_pos(s, p, j, from) <= p.len(),
    decreases p.len() - from,
{
    if from < p.len() {
        lemma_insert_pos(s, p, j, from + 1);
    }
}

/// The listing order holds each of the first `n` indices once.
pub proof fn lemma_sort_order(s: Seq<VaultEntryView>, n: int)
    requires
        0 <= n,
    ensures
        sort_order(s, n).len() == n,
        forall|k: int| 0 <= k < n ==> 0 <= #[trigger] sort_order(s, n)[k] < n,
    decreases n,
{
    if n > 0 {
        lemma_sort_order(s, n - 1);
        let p = sort_order(s, n - 1);
        lemma_insert_pos(s, p, n - 1, 0);
        let q = p.insert(insert_pos(s, p, n - 1, 0), n - 1);
        assert forall|k: int| 0 <= k < n implies 0 <= #[trigger] q[k] < n by {
            let pos = insert_pos(s, p, n - 1, 0);
            if k < pos {
                assert(q[k] == p[k]);
            } else if k > pos {
                assert(q[k] == p[k - 1]);
            }
        }
    }
}

impl DirectoryEntry {
    /// The entries of the directory, in listing order (by name)
    pub fn get_sorted_children(&self) -> (r: Vec<&VaultEntry>)
        ensures
            r@.len() == self.dview().children.len(),
            forall|k: int| 0 <= k < r@.len() ==> (#[trigger] r@[k]).eview() == sorted_views(self.dview().children)[k],
    {
        let children = self.get_children();
        let ghost s = self.dview().children;
        proof {
            lemma_children_views(children@);
        }
        let n = children.len();
        let mut order: Vec<usize> = Vec::new();
        let mut j: usize = 0;
        while j < n
            invariant
                n == children@.len(),
                s == children_views(children@),
                s.len() == n,
                forall|i: int| 0 <= i < n ==> #[trigger] s[i] == children@[i].eview(),
                j <= n,
                order@.len() == j,
                forall|k: int| 0 <= k < j ==> (#[trigger] order@[k]) as int == sort_order(s, j as int)[k],
            decreases n - j,
        {
            proof {
                lemma_sort_order(s, j as int);
            }
            let ghost p = sort_order(s, j as int);
            let mut pos: usize = 0;
            let mut done = false;
            while pos < order.len() && !done
                invariant
                    n == children@.len(),
                    s == children_views(children@),
                    s.len() == n,
                    forall|i: int| 0 <= i < n ==> #[trigger] s[i] == children@[i].eview(),
                    j < n,
                    order@.len() == j,
                    p == sort_order(s, j as int),
                    p.len() == j,
                    forall|k: int| 0 <= k < j ==> 0 <= #[trigger] p[k] < j,
                    forall|k: int| 0 <= k < j ==> (#[trigger] order@[k]) as int == p[k],
                    pos <= order@.len(),
                    !done ==> insert_pos(s, p, j as int, 0) == insert_pos(s, p, j as int, pos as int),
                    done ==> insert_pos(s, p, j as int, 0) == pos,
                decreases order@.len() - pos + (if done { 0int } else { 1int }),
            {
                let other = order[pos];
                assert(other as int == p[pos as int]);
                assert(0 <= p[pos as int] < j);
                let le = name_le(children[other].name_ref(), children[j].name_ref());
                assert(children@[other as int].eview() == s[p[pos as int]]);
                assert(children@[j as int].eview() == s[j as int]);
                if le {
                    pos += 1;
                } else {
                    done = true;
                }
            }
            order.insert(pos, j);
            proof {
                let q = p.insert(pos as int, j as int);
                assert(sort_order(s, j + 1) == q);
                assert forall|k: int| 0 <= k < j + 1 implies (#[trigger] order@[k]) as int == q[k] by {
                    if k < pos {
                    } else if k > pos {
                    }
                }
            }
            j += 1;
        }
        proof {
            lemma_sort_order(s, n as int);
        }
        let mut r: Vec<&VaultEntry> = Vec::new();
        let mut k: usize = 0;
        while k < n
            invariant
                n == children@.len(),
                s == children_views(children@),
                s.len() == n,
                forall|i: int| 0 <= i < n ==> #[trigger] s[i] == children@[i].eview(),
                sort_order(s, n as int).len() == n,
                order@.len() == n,
                forall|m: int| 0 <= m < n ==> (#[trigger] order@[m]) as int == sort_order(s, n as int)[m],
                forall|m: int| 0 <= m < n ==> 0 <= #[trigger] sort_order(s, n as int)[m] < n,
                k <= n,
                r@.len() == k,
                forall|m: int| 0 <= m < k ==> (#[trigger] r@[m]).eview() == sorted_views(s)[m],
            decreases n - k,
        {
            let idx = order[k];
            assert(0 <= sort_order(s, n as int)[k as int] < n);
            assert(sorted_views(s)[k as int] == s[sort_order(s, n as int)[k as int]]);
            let ghost r0 = r@;
            r.push(&children[idx]);
            assert(r@[k as int].eview() == children@[idx as int].eview());
            assert forall|m: int| 0 <= m < k + 1 implies (#[trigger] r@[m]).eview() == sorted_views(s)[m] by {
                if m < k {
                    assert(r@[m] == r0[m]);
                }
            }
            k += 1;
        }
        r
    }
}

impl VaultEntry {
    /// The order of entries: by name field, byte by byte.
    pub fn cmp(&self, other: &Self) -> (r: Ordering)
        ensures
            (r == Ordering::Equal) == (self.eview().name() == other.eview().name()),
            (r == Ordering::Less) == (self.eview().name() != other.eview().name() && bytes_le(
                self.eview().name(),
                other.eview().name(),
            )),
            (r == Ordering::Greater) == !bytes_le(self.eview().name(), other.eview().name()),
    {
        let o = bytes_order(self.name_ref(), other.name_ref());
        if o < 0 {
            Ordering::Less
        } else if o == 0 {
            Ordering::Equal
        } else {
            Ordering::Greater
        }
    }
}

/// Lexicographic order of bytes is total: of two byte strings one comes before the other or
/// equals it.
pub proof fn lemma_bytes_le_total(a: Seq<u8>, b: Seq<u8>)
    ensures
        bytes_le(a, b) || bytes_le(b, a),
    decreases a.len(),
{
    if a.len() > 0 && b.len() > 0 && a[0] == b[0] {
        lemma_bytes_le_total(a.drop_first(), b.drop_first());
    }
}

/// Lexicographic order of bytes is transitive.
pub proof fn lemma_bytes_le_trans(a: Seq<u8>, b: Seq<u8>, c: Seq<u8>)
    requires
        bytes_le(a, b),
        bytes_le(b, c),
    ensures
        bytes_le(a, c),
    decreases a.len(),
{
    if a.len() > 0 && b.len() > 0 && c.len() > 0 && a[0] == b[0] && b[0] == c[0] {
        lemma_bytes_le_trans(a.drop_first(), b.drop_first(), c.drop_first());
    }
}

/// Where index `j` goes in the order `p` of the indices of `keys`: after every index whose key
/// comes before key `j` or equals it, looking from position `from` on.
pub open spec fn key_insert_pos(keys: Seq<Seq<u8>>, p: Seq<int>, j: int, from: int) -> int
    decreases p.len() - from,
{
    if from < 0 || from >= p.len() {
        p.len() as int
    } else if bytes_le(keys[p[from]], keys[j]) {
        key_insert_pos(keys, p, j, from + 1)
    } else {
        from
    }
}

/// The order of the first `n` indices of `keys` that inserting each after every earlier index
/// with a key before it or equal gives (a stable sort by key).
pub open spec fn key_sort_order(keys: Seq<Seq<u8>>, n: int) -> Seq<int>
    decreases n,
{
    if n <= 0 {
        Seq::empty()
    } else {
        let p = key_sort_order(keys, n - 1);
        p.insert(key_insert_pos(keys, p, n - 1, 0), n - 1)
    }
}

/// Every index before the insertion position has a key before key `j` or equal to it; the index
/// at the insertion position (if any) has a key after it.
proof fn lemma_key_insert_pos(keys: Seq<Seq<u8>>, p: Seq<int>, j: int, from: int)
    requires
        0 <= from <= p.len(),
    ensures
        from <= key_insert_pos(keys, p, j, from) <= p.len(),
        forall|k: int| from <= k < key_insert_pos(keys, p, j, from) ==> bytes_le(#[trigger] keys[p[k]], keys[j]),
        key_insert_pos(keys, p, j, from) < p.len() ==> !bytes_le(keys[p[key_insert_pos(keys, p, j, from)]], keys[j]),
    decreases p.len() - from,
{
    if from < p.len() {
        lemma_key_insert_pos(keys, p, j, from + 1);
    }
}

/// The key order lists each of the first `n` indices once, in order of their keys.
pub proof fn lemma_key_sort_order(keys: Seq<Seq<u8>>, n: int)
    requires
        0 <= n <= keys.len(),
    ensures
        key_sort_order(keys, n).len() == n,
        forall|k: int| 0 <= k < n ==> 0 <= #[trigger] key_sort_order(keys, n)[k] < n,
        forall|a: int, b: int|
            0 <= a < b < n ==> #[trigger] key_sort_order(keys, n)[a] != #[trigger] key_sort_order(keys, n)[b],
        forall|a: int, b: int|
            0 <= a < b < n ==> bytes_le(
                keys[#[trigger] key_sort_order(keys, n)[a]],
                keys[#[trigger] key_sort_order(keys, n)[b]],
            ),
    decreases n,
{
    if n > 0 {
        lemma_key_sort_order(keys, n - 1);
        let p = key_sort_order(keys, n - 1);
        let j = n - 1;
        lemma_key_insert_pos(keys, p, j, 0);
        let pos = key_insert_pos(keys, p, j, 0);
        let q = p.insert(pos, j);
        assert(q == key_sort_order(keys, n));
        assert forall|k: int| 0 <= k < n implies 0 <= #[trigger] q[k] < n by {
            if k < pos {
                assert(q[k] == p[k]);
            } else if k > pos {
                assert(q[k] == p[k - 1]);
            }
        }
        assert forall|a: int, b: int| 0 <= a < b < n implies #[trigger] q[a] != #[trigger] q[b] by {
            if a < pos {
                assert(q[a] == p[a]);
            } else if a > pos {
                assert(q[a] == p[a - 1]);
            }
            if b < pos {
                assert(q[b] == p[b]);
            } else if b > pos {
                assert(q[b] == p[b - 1]);
            }
        }
        if pos < p.len() {
            lemma_bytes_le_total(keys[p[pos]], keys[j]);
        }
        assert forall|a: int, b: int| 0 <= a < b < n implies bytes_le(keys[#[trigger] q[a]], keys[#[trigger] q[b]]) by {
            if b < pos {
                assert(q[a] == p[a] && q[b] == p[b]);
            } else if b == pos {
                assert(q[a] == p[a] && q[b] == j);
            } else if a == pos {
                assert(q[a] == j && q[b] == p[b - 1]);
                if pos < b - 1 {
                    assert(bytes_le(keys[p[pos]], keys[p[b - 1]]));
                    lemma_bytes_le_trans(keys[j], keys[p[pos]], keys[p[b - 1]]);
                }
            } else if a < pos {
                assert(q[a] == p[a] && q[b] == p[b - 1]);
                if a < b - 1 {
                } else {
                    assert(a == b - 1);
                }
            } else {
                assert(q[a] == p[a - 1] && q[b] == p[b - 1]);
            }
        }
    }
}

/// The name fields of entries
pub open spec fn name_keys(s: Seq<VaultEntryView>) -> Seq<Seq<u8>> {
    s.map_values(|e: VaultEntryView| e.name())
}

proof fn lemma_insert_pos_keys(s: Seq<VaultEntryView>, p: Seq<int>, j: int, from: int)
    requires
        0 <= j < s.len(),
        forall|k: int| 0 <= k < p.len() ==> 0 <= #[trigger] p[k] < s.len(),
    ensures
        insert_pos(s, p, j, from) == key_insert_pos(name_keys(s), p, j, from),
    decreases p.len() - from,
{
    if 0 <= from < p.len() {
        lemma_insert_pos_keys(s, p, j, from + 1);
    }
}

proof fn lemma_sort_order_keys(s: Seq<VaultEntryView>, n: int)
    requires
        0 <= n <= s.len(),
    ensures
        sort_order(s, n) == key_sort_order(name_keys(s), n),
    decreases n,
{
    if n > 0 {
        lemma_sort_order_keys(s, n - 1);
        lemma_sort_order(s, n - 1);
        lemma_insert_pos_keys(s, sort_order(s, n - 1), n - 1, 0);
    }
}

/// The listing of entries is sorted by name field and lists each entry once: its order is a
/// permutation of the entries' indices, with names in lexicographic order.
pub proof fn lemma_listing_sorted(s: Seq<VaultEntryView>)
    ensures
        sorted_views(s).len() == s.len(),
        forall|a: int, b: int|
            0 <= a < b < s.len() ==> #[trigger] sort_order(s, s.len() as int)[a] != #[trigger] sort_order(
                s,
                s.len() as int,
            )[b],
        forall|k: int| 0 <= k < s.len() ==> 0 <= #[trigger] sort_order(s, s.len() as int)[k] < s.len(),
        forall|k: int| 0 <= k < s.len() ==> #[trigger] sorted_views(s)[k] == s[sort_order(s, s.len() as int)[k]],
        forall|a: int, b: int|
            0 <= a < b < s.len() ==> bytes_le(#[trigger] sorted_views(s)[a].name(), #[trigger] sorted_views(s)[b].name()),
{
    let n = s.len() as int;
    lemma_sort_order_keys(s, n);
    lemma_key_sort_order(name_keys(s), n);
    let p = sort_order(s, n);
    assert forall|a: int, b: int| 0 <= a < b < n implies bytes_le(
        #[trigger] sorted_views(s)[a].name(),
        #[trigger] sorted_views(s)[b].name(),
    ) by {
        assert(name_keys(s)[p[a]] == s[p[a]].name());
        assert(name_keys(s)[p[b]] == s[p[b]].name());
    }
}

/// Every entry of `s` up to `n` is listed: each index below `n` is at some listing position.
pub proof fn lemma_sort_order_covers(s: Seq<VaultEntryView>, n: int, j: int)
    requires
        0 <= j < n,
    ensures
        exists|k: int| 0 <= k < n && #[trigger] sort_order(s, n)[k] == j,
    decreases n,
{
    lemma_sort_order(s, n);
    let p = sort_order(s, n - 1);
    lemma_sort_order(s, n - 1);
    lemma_insert_pos(s, p, n - 1, 0);
    let pos = insert_pos(s, p, n - 1, 0);
    let q = p.insert(pos, n - 1);
    assert(sort_order(s, n) == q);
    if j == n - 1 {
        assert(q[pos] == j);
    } else {
        lemma_sort_order_covers(s, n - 1, j);
        let k0 = choose|k: int| 0 <= k < n - 1 && #[trigger] p[k] == j;
        if k0 < pos {
            assert(q[k0] == j);
        } else {
            assert(q[k0 + 1] == j);
        }
    }
}

} // verus!
