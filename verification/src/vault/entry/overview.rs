//! The textual overview of a directory tree, one line per entry, in listing order.
use vstd::prelude::*;
use crate::vault::entry::order::{insert_pos, lemma_insert_pos, lemma_sort_order, sort_order, sorted_views};
use crate::vault::entry::{
    build_prefix_str, display_of, lemma_children_views, prefix_of, DirectoryEntry, DirectoryView,
    VaultEntry, VaultEntryView,
};

verus! {

broadcast use lemma_children_views;

/// How many levels of directories lie below the entries of `s`, from listing position `k` on.
pub open spec fn height_from(s: Seq<VaultEntryView>, k: int) -> nat
    decreases s, s.len() - k,
{
    if k < 0 || k >= s.len() {
        0
    } else {
        let h = match s[k] {
            VaultEntryView::Directory(sub) => 1 + height_from(sub.children, 0),
            _ => 0,
        };
        let rest = height_from(s, k + 1);
        if h > rest { h } else { rest }
    }
}

/// The depth one level below `depth` (a depth never grows past `u64::MAX`).
pub open spec fn deeper(depth: nat) -> nat {
    if depth < u64::MAX { depth + 1 } else { depth }
}

/// The overview lines of the entries of `s` at `depth`, from listing position `k` on: a file
/// or password gives a line with its branch mark (the end mark for the last entry); a directory
/// gives its own overview one level deeper.
pub open spec fn overview_entries(s: Seq<VaultEntryView>, depth: nat, k: int) -> Seq<char>
    decreases s, s.len() - k,
{
    if k < 0 || k >= s.len() {
        Seq::empty()
    } else {
        let j = sort_order(s, s.len() as int)[k];
        proof {
            lemma_sort_order(s, s.len() as int);
        }
        let line = match s[j] {
            VaultEntryView::Directory(sub) => prefix_of(deeper(depth), false) + " "@ + display_of(s[j])
                + overview_entries(sub.children, deeper(depth), 0),
            _ => prefix_of(depth, k == s.len() - 1) + " "@ + display_of(s[j]) + "\n"@,
        };
        line + overview_entries(s, depth, k + 1)
    }
}

/// The overview of a directory at `depth`: its own line, then those of its entries.
pub open spec fn overview(d: DirectoryView, depth: nat) -> Seq<char> {
    prefix_of(depth, false) + " "@ + display_of(VaultEntryView::Directory(d)) + overview_entries(
        d.children,
        depth,
        0,
    )
}

proof fn lemma_height_from(s: Seq<VaultEntryView>, k: int, j: int)
    requires
        0 <= k <= j < s.len(),
        s[j] is Directory,
    ensures
        height_from(s, k) >= 1 + height_from(s[j]->Directory_0.children, 0),
    decreases j - k,
{
    if k < j {
        lemma_height_from(s, k + 1, j);
    }
}

impl DirectoryEntry {
    /// Write the overview of the directory at `depth` to `buffer`: its line, then its entries in
    /// listing order, directories with their own entries one level deeper.
    pub fn get_directory_overview(&self, depth: u64, buffer: &mut String) -> (r: Result<(), std::fmt::Error>)
        ensures
            r is Ok,
            final(buffer)@ == old(buffer)@ + overview(self.dview(), depth as nat),
        decreases height_from(self.dview().children, 0),
    {
        proof {
            reveal_strlit(" ");
            reveal_strlit("\n");
        }
        let ghost s = self.dview().children;
        let ghost start = buffer@;
        let prefix = build_prefix_str(depth, false);
        buffer.append(prefix.as_str());
        buffer.append(" ");
        let shown = self.display();
        buffer.append(shown.as_str());
        let ghost head = buffer@;
        assert(head == start + (prefix_of(depth as nat, false) + " "@ + display_of(VaultEntryView::Directory(self.dview()))));
        let children = self.get_sorted_children();
        let len = children.len();
        proof {
            lemma_sort_order(s, s.len() as int);
        }
        let mut i: usize = 0;
        while i < len
            invariant
                len == children@.len(),
                len == s.len(),
                s == self.dview().children,
                sort_order(s, s.len() as int).len() == s.len(),
                forall|m: int| 0 <= m < s.len() ==> 0 <= #[trigger] sort_order(s, s.len() as int)[m] < s.len(),
                forall|k: int| 0 <= k < len ==> (#[trigger] children@[k]).eview() == sorted_views(s)[k],
                i <= len,
                buffer@ + overview_entries(s, depth as nat, i as int) == head + overview_entries(s, depth as nat, 0),
            decreases len - i,
        {
            let entry = children[i];
            let is_last = i == len - 1;
            let ghost j = sort_order(s, s.len() as int)[i as int];
            assert(sorted_views(s)[i as int] == s[j]);
            assert(entry.eview() == s[j]);
            let ghost before = buffer@;
            match entry {
                VaultEntry::Directory(dir) => {
                    proof {
                        lemma_height_from(s, 0, j);
                    }
                    let next_depth = if depth < u64::MAX { depth + 1 } else { depth };
                    dir.get_directory_overview(next_depth, buffer);
                },
                _ => {
                    let prefix = build_prefix_str(depth, is_last);
                    buffer.append(prefix.as_str());
                    buffer.append(" ");
                    let shown = entry.display();
                    buffer.append(shown.as_str());
                    buffer.append("\n");
                },
            }
            proof {
                let line = buffer@.subrange(before.len() as int, buffer@.len() as int);
                assert(buffer@ =~= before + line);
                assert(overview_entries(s, depth as nat, i as int) == line + overview_entries(s, depth as nat, i + 1));
                assert(before + overview_entries(s, depth as nat, i as int) =~= buffer@ + overview_entries(s, depth as nat, i + 1));
            }
            i += 1;
        }
        proof {
            assert(overview_entries(s, depth as nat, i as int) == Seq::<char>::empty());
            assert(buffer@ =~= buffer@ + overview_entries(s, depth as nat, i as int));
            assert(buffer@ =~= start + overview(self.dview(), depth as nat));
        }
        Ok(())
    }
}

/// The views of a sequence of entry references.
pub open spec fn ref_views(r: Seq<&VaultEntry>) -> Seq<VaultEntryView> {
    r.map_values(|e: &VaultEntry| e.eview())
}

/// Every entry inside the entries of `s` from position `k` on, in directory order: each entry is
/// followed by everything inside it.
pub open spec fn walk(s: Seq<VaultEntryView>, k: int) -> Seq<VaultEntryView>
    decreases s, s.len() - k,
{
    if k < 0 || k >= s.len() {
        Seq::empty()
    } else {
        let inner = match s[k] {
            VaultEntryView::Directory(sub) => walk(sub.children, 0),
            _ => Seq::empty(),
        };
        seq![s[k]] + inner + walk(s, k + 1)
    }
}

/// Every entry inside the entries of `s` from listing position `k` on, in listing order: each
/// entry is followed by everything inside it.
pub open spec fn sorted_walk(s: Seq<VaultEntryView>, k: int) -> Seq<VaultEntryView>
    decreases s, s.len() - k,
{
    if k < 0 || k >= s.len() {
        Seq::empty()
    } else {
        let j = sort_order(s, s.len() as int)[k];
        proof {
            lemma_sort_order(s, s.len() as int);
        }
        let inner = match s[j] {
            VaultEntryView::Directory(sub) => sorted_walk(sub.children, 0),
            _ => Seq::empty(),
        };
        seq![s[j]] + inner + sorted_walk(s, k + 1)
    }
}

/// What the walk puts after an entry: everything inside it, in directory order.
pub open spec fn inner_walk(e: VaultEntryView) -> Seq<VaultEntryView> {
    match e {
        VaultEntryView::Directory(sub) => walk(sub.children, 0),
        _ => Seq::empty(),
    }
}

/// What the sorted walk puts after an entry: everything inside it, in listing order.
pub open spec fn inner_sorted_walk(e: VaultEntryView) -> Seq<VaultEntryView> {
    match e {
        VaultEntryView::Directory(sub) => sorted_walk(sub.children, 0),
        _ => Seq::empty(),
    }
}

/// The entries the walk gives for the entries of `s` at the positions `idx`, counted.
pub open spec fn parts_ms(s: Seq<VaultEntryView>, idx: Seq<int>) -> vstd::multiset::Multiset<VaultEntryView>
    decreases idx.len(),
{
    if idx.len() == 0 {
        vstd::multiset::Multiset::empty()
    } else {
        (seq![s[idx[0]]] + inner_walk(s[idx[0]])).to_multiset().add(parts_ms(s, idx.drop_first()))
    }
}

/// The positions `k` up to `n`.
pub open spec fn positions(k: int, n: int) -> Seq<int> {
    Seq::new((if n > k { n - k } else { 0 }) as nat, |m: int| k + m)
}

/// Inserting a position adds what the walk gives for it.
proof fn lemma_parts_insert(s: Seq<VaultEntryView>, p: Seq<int>, pos: int, x: int)
    requires
        0 <= pos <= p.len(),
    ensures
        parts_ms(s, p.insert(pos, x)) == parts_ms(s, p).add((seq![s[x]] + inner_walk(s[x])).to_multiset()),
    decreases p.len(),
{
    broadcast use vstd::multiset::group_multiset_axioms;
    let q = p.insert(pos, x);
    if pos == 0 {
        assert(q[0] == x);
        assert(q.drop_first() =~= p);
    } else {
        assert(q[0] == p[0]);
        assert(q.drop_first() =~= p.drop_first().insert(pos - 1, x));
        lemma_parts_insert(s, p.drop_first(), pos - 1, x);
    }
    assert(parts_ms(s, q) =~= parts_ms(s, p).add((seq![s[x]] + inner_walk(s[x])).to_multiset()));
}

/// The listing order of the first `n` entries gives the same entries as the positions up to `n`.
proof fn lemma_sort_order_parts(s: Seq<VaultEntryView>, n: int)
    requires
        0 <= n,
    ensures
        parts_ms(s, sort_order(s, n)) == parts_ms(s, positions(0, n)),
    decreases n,
{
    if n > 0 {
        lemma_sort_order_parts(s, n - 1);
        lemma_sort_order(s, n - 1);
        let p = sort_order(s, n - 1);
        lemma_insert_pos(s, p, n - 1, 0);
        lemma_parts_insert(s, p, insert_pos(s, p, n - 1, 0), n - 1);
        let r = positions(0, n - 1);
        lemma_parts_insert(s, r, r.len() as int, n - 1);
        assert(r.insert(r.len() as int, n - 1) =~= positions(0, n));
    }
}

/// The walk from position `k` on gives the entries of the positions `k` up to the end.
proof fn lemma_walk_parts(s: Seq<VaultEntryView>, k: int)
    requires
        0 <= k <= s.len(),
    ensures
        walk(s, k).to_multiset() == parts_ms(s, positions(k, s.len() as int)),
    decreases s.len() - k,
{
    broadcast use vstd::multiset::group_multiset_axioms;
    broadcast use vstd::seq_lib::lemma_multiset_commutative;
    let idx = positions(k, s.len() as int);
    if k < s.len() {
        lemma_walk_parts(s, k + 1);
        assert(idx[0] == k);
        assert(idx.drop_first() =~= positions(k + 1, s.len() as int));
        assert(walk(s, k) == seq![s[k]] + inner_walk(s[k]) + walk(s, k + 1));
    } else {
        assert(walk(s, k) =~= Seq::<VaultEntryView>::empty());
        assert(idx.len() == 0);
        Seq::<VaultEntryView>::empty().to_multiset_ensures();
        vstd::multiset::lemma_multiset_empty_len(Seq::<VaultEntryView>::empty().to_multiset());
    }
}

/// The sorted walk from listing position `k` on gives the entries of the listing positions `k`
/// up to the end, when what is inside each entry is the same in both orders.
proof fn lemma_sorted_walk_parts(s: Seq<VaultEntryView>, k: int)
    requires
        0 <= k <= s.len(),
        forall|j: int| 0 <= j < s.len() ==> (#[trigger] inner_sorted_walk(s[j])).to_multiset() == inner_walk(s[j]).to_multiset(),
    ensures
        sorted_walk(s, k).to_multiset() == parts_ms(s, sort_order(s, s.len() as int).subrange(k, s.len() as int)),
    decreases s.len() - k,
{
    broadcast use vstd::multiset::group_multiset_axioms;
    broadcast use vstd::seq_lib::lemma_multiset_commutative;
    lemma_sort_order(s, s.len() as int);
    let order = sort_order(s, s.len() as int);
    let idx = order.subrange(k, s.len() as int);
    if k < s.len() {
        lemma_sorted_walk_parts(s, k + 1);
        let j = order[k];
        assert(idx[0] == j);
        assert(idx.drop_first() =~= order.subrange(k + 1, s.len() as int));
        assert(sorted_walk(s, k) == seq![s[j]] + inner_sorted_walk(s[j]) + sorted_walk(s, k + 1));
        assert(inner_sorted_walk(s[j]).to_multiset() == inner_walk(s[j]).to_multiset());
        assert((seq![s[j]] + inner_sorted_walk(s[j])).to_multiset() == (seq![s[j]] + inner_walk(s[j])).to_multiset());
    } else {
        assert(sorted_walk(s, k) =~= Seq::<VaultEntryView>::empty());
        assert(idx.len() == 0);
        Seq::<VaultEntryView>::empty().to_multiset_ensures();
        vstd::multiset::lemma_multiset_empty_len(Seq::<VaultEntryView>::empty().to_multiset());
    }
}

/// The law of the two walks: the walk in listing order gives the same entries, as often, as the
/// walk in directory order (it is a permutation of it).
pub proof fn lemma_sorted_walk_permutes(s: Seq<VaultEntryView>)
    ensures
        sorted_walk(s, 0).to_multiset() == walk(s, 0).to_multiset(),
    decreases s,
{
    assert forall|j: int| 0 <= j < s.len() implies (#[trigger] inner_sorted_walk(s[j])).to_multiset()
        == inner_walk(s[j]).to_multiset() by {
        if let VaultEntryView::Directory(sub) = s[j] {
            lemma_sorted_walk_permutes(sub.children);
        }
    }
    lemma_sort_order(s, s.len() as int);
    lemma_sorted_walk_parts(s, 0);
    assert(sort_order(s, s.len() as int).subrange(0, s.len() as int) =~= sort_order(s, s.len() as int));
    lemma_sort_order_parts(s, s.len() as int);
    lemma_walk_parts(s, 0);
}

/// Append every entry of `other` to `res`.
fn append_refs<'a>(res: &mut Vec<&'a VaultEntry>, other: Vec<&'a VaultEntry>)
    ensures
        ref_views(final(res)@) == ref_views(old(res)@) + ref_views(other@),
{
    let ghost start = res@;
    let mut i: usize = 0;
    while i < other.len()
        invariant
            i <= other@.len(),
            res@ == start + other@.subrange(0, i as int),
        decreases other@.len() - i,
    {
        res.push(other[i]);
        assert(other@.subrange(0, i + 1) =~= other@.subrange(0, i as int).push(other@[i as int]));
        assert(res@ =~= start + other@.subrange(0, i + 1));
        i += 1;
    }
    assert(other@.subrange(0, other@.len() as int) =~= other@);
    assert(ref_views(res@) =~= ref_views(start) + ref_views(other@));
}

impl DirectoryEntry {
    /// Every entry inside the directory, in directory order: each entry is followed by everything
    /// inside it.
    pub fn iter(&self) -> (r: Vec<&VaultEntry>)
        ensures
            ref_views(r@) == walk(self.dview().children, 0),
        decreases height_from(self.dview().children, 0),
    {
        let entries = self.get_children();
        let ghost s = self.dview().children;
        let n = entries.len();
        let mut res: Vec<&VaultEntry> = Vec::new();
        let mut k: usize = 0;
        assert(ref_views(res@) =~= Seq::<VaultEntryView>::empty());
        while k < n
            invariant
                n == entries@.len(),
                s == self.dview().children,
                s == crate::vault::entry::children_views(entries@),
                k <= n,
                ref_views(res@) + walk(s, k as int) == walk(s, 0),
            decreases n - k,
        {
            let entry = &entries[k];
            assert(entry.eview() == s[k as int]);
            let ghost before = ref_views(res@);
            res.push(entry);
            assert(ref_views(res@) =~= before + seq![s[k as int]]);
            match entry {
                VaultEntry::Directory(dir) => {
                    proof {
                        lemma_height_from(s, 0, k as int);
                    }
                    let sub = dir.iter();
                    append_refs(&mut res, sub);
                },
                _ => {},
            }
            proof {
                let inner = match s[k as int] {
                    VaultEntryView::Directory(sub) => walk(sub.children, 0),
                    _ => Seq::empty(),
                };
                assert(ref_views(res@) =~= before + seq![s[k as int]] + inner);
                assert(walk(s, k as int) == seq![s[k as int]] + inner + walk(s, k + 1));
                assert(before + walk(s, k as int) =~= ref_views(res@) + walk(s, k + 1));
            }
            k += 1;
        }
        assert(ref_views(res@) =~= ref_views(res@) + walk(s, k as int));
        res
    }

    /// Every entry inside the directory, in listing order: each entry is followed by everything
    /// inside it.
    pub fn sorted_iter(&self) -> (r: Vec<&VaultEntry>)
        ensures
            ref_views(r@) == sorted_walk(self.dview().children, 0),
        decreases height_from(self.dview().children, 0),
    {
        let sorted_entries = self.get_sorted_children();
        let ghost s = self.dview().children;
        let n = sorted_entries.len();
        proof {
            lemma_sort_order(s, s.len() as int);
        }
        let mut res: Vec<&VaultEntry> = Vec::new();
        let mut k: usize = 0;
        assert(ref_views(res@) =~= Seq::<VaultEntryView>::empty());
        while k < n
            invariant
                n == sorted_entries@.len(),
                n == s.len(),
                s == self.dview().children,
                sort_order(s, s.len() as int).len() == s.len(),
                forall|m: int| 0 <= m < s.len() ==> 0 <= #[trigger] sort_order(s, s.len() as int)[m] < s.len(),
                forall|m: int| 0 <= m < n ==> (#[trigger] sorted_entries@[m]).eview() == sorted_views(s)[m],
                k <= n,
                ref_views(res@) + sorted_walk(s, k as int) == sorted_walk(s, 0),
            decreases n - k,
        {
            let entry = sorted_entries[k];
            let ghost j = sort_order(s, s.len() as int)[k as int];
            assert(sorted_views(s)[k as int] == s[j]);
            assert(entry.eview() == s[j]);
            let ghost before = ref_views(res@);
            res.push(entry);
            assert(ref_views(res@) =~= before + seq![s[j]]);
            match entry {
                VaultEntry::Directory(dir) => {
                    proof {
                        lemma_height_from(s, 0, j);
                    }
                    let sub = dir.sorted_iter();
                    append_refs(&mut res, sub);
                },
                _ => {},
            }
            proof {
                let inner = match s[j] {
                    VaultEntryView::Directory(sub) => sorted_walk(sub.children, 0),
                    _ => Seq::empty(),
                };
                assert(ref_views(res@) =~= before + seq![s[j]] + inner);
                assert(sorted_walk(s, k as int) == seq![s[j]] + inner + sorted_walk(s, k + 1));
                assert(before + sorted_walk(s, k as int) =~= ref_views(res@) + sorted_walk(s, k + 1));
            }
            k += 1;
        }
        assert(ref_views(res@) =~= ref_views(res@) + sorted_walk(s, k as int));
        res
    }
}

} // verus!
