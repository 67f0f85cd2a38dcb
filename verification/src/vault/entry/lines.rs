//! The lines of the vault overview: every entry, however deep, is drawn on a line of its own
//! whose indentation is its nesting level, with the end mark exactly on the last entry listed in
//! its directory.
use vstd::prelude::*;
use crate::vault::entry::order::{lemma_sort_order, lemma_sort_order_covers, sort_order, sorted_views};
use crate::vault::entry::overview::{deeper, overview, overview_entries};
use crate::vault::entry::tree::{child_index, lemma_child_index_from, lookup};
use crate::vault::entry::{display_of, lemma_prefix_of, prefix_of, repeat_connector, DirectoryView, VaultEntryView};
use crate::vault::codec::name_field;
use crate::vault::properties::dir_at;

verus! {

/// The text `t` holds `row` starting at position `i`, and the character before it is not a
/// connector's tab: the row starts a line there, with no more indentation than its own.
pub open spec fn row_at(t: Seq<char>, i: int, row: Seq<char>) -> bool {
    &&& 0 < i
    &&& i + row.len() <= t.len()
    &&& t[i - 1] != '\t'
    &&& t.subrange(i, i + row.len()) == row
}

/// The start of the line of entry `e` at nesting level `level` of the overview: `level`
/// connectors, the branch mark (the end mark `└` when `last`), a space and what the entry shows.
pub open spec fn row_start(e: VaultEntryView, level: nat, last: bool) -> Seq<char> {
    repeat_connector(level) + (if last { "└ "@ } else { "├─ "@ }) + " "@ + display_of(e)
}

/// The start of the line of the entry at listing position `k` of the entries `cs` of a directory
/// at nesting level `level`: a password or a secret file at that level, with the end mark
/// exactly when it is listed last; a directory one level deeper, with the branch mark.
pub open spec fn listed_row(cs: Seq<VaultEntryView>, k: int, level: nat) -> Seq<char> {
    let e = sorted_views(cs)[k];
    if e is Directory {
        row_start(e, level + 1, false)
    } else {
        row_start(e, level, k == cs.len() - 1)
    }
}

/// Empty, or ending in something other than a tab.
spec fn no_tab_end(t: Seq<char>) -> bool {
    t.len() == 0 || t.last() != '\t'
}

/// The text the overview gives for the entry at listing position `k` of `s` at `depth`.
spec fn line_at(s: Seq<VaultEntryView>, depth: nat, k: int) -> Seq<char> {
    let j = sort_order(s, s.len() as int)[k];
    match s[j] {
        VaultEntryView::Directory(sub) => overview(sub, deeper(depth)),
        _ => prefix_of(depth, k == s.len() - 1) + " "@ + display_of(s[j]) + "\n"@,
    }
}

proof fn lemma_entries_unfold(s: Seq<VaultEntryView>, depth: nat, k: int)
    requires
        0 <= k < s.len(),
    ensures
        overview_entries(s, depth, k) == line_at(s, depth, k) + overview_entries(s, depth, k + 1),
{
    lemma_sort_order(s, s.len() as int);
}

/// A directory's own line ends with its item count.
proof fn lemma_directory_shown(d: DirectoryView)
    ensures
        display_of(VaultEntryView::Directory(d)).len() > 0,
        display_of(VaultEntryView::Directory(d)).last() == 's',
{
    reveal_strlit(" Items");
    let t = display_of(VaultEntryView::Directory(d));
    assert(t.last() == (" Items"@).last());
}

/// The overview of a directory is not empty and does not end in a tab.
proof fn lemma_overview_end(d: DirectoryView, depth: nat)
    ensures
        overview(d, depth).len() > 0,
        overview(d, depth).last() != '\t',
    decreases d, 0int, 0int,
{
    lemma_directory_shown(d);
    let head = prefix_of(depth, false) + " "@ + display_of(VaultEntryView::Directory(d));
    let rest = overview_entries(d.children, depth, 0);
    lemma_entries_end(d.children, depth, 0);
    assert(overview(d, depth) == head + rest);
    assert(head.last() == 's');
    if rest.len() == 0 {
        assert(head + rest =~= head);
    }
}

/// The overview of entries is empty or does not end in a tab.
proof fn lemma_entries_end(s: Seq<VaultEntryView>, depth: nat, k: int)
    ensures
        no_tab_end(overview_entries(s, depth, k)),
    decreases s, s.len() - k, 1int,
{
    if 0 <= k < s.len() {
        lemma_entries_unfold(s, depth, k);
        lemma_line_end(s, depth, k);
        lemma_entries_end(s, depth, k + 1);
        let rest = overview_entries(s, depth, k + 1);
        if rest.len() == 0 {
            assert(line_at(s, depth, k) + rest =~= line_at(s, depth, k));
        }
    }
}

/// `t` is `a`, then `mid`, then `b`, where `a` is empty or does not end in a tab.
spec fn pieces(t: Seq<char>, a: Seq<char>, mid: Seq<char>, b: Seq<char>) -> bool {
    t == a + mid + b && no_tab_end(a)
}

/// The text of an entry is not empty and does not end in a tab.
proof fn lemma_line_end(s: Seq<VaultEntryView>, depth: nat, k: int)
    requires
        0 <= k < s.len(),
    ensures
        line_at(s, depth, k).len() > 0,
        line_at(s, depth, k).last() != '\t',
    decreases s, s.len() - k, 0int,
{
    lemma_sort_order(s, s.len() as int);
    let j = sort_order(s, s.len() as int)[k];
    reveal_strlit("\n");
    match s[j] {
        VaultEntryView::Directory(sub) => {
            lemma_overview_end(sub, deeper(depth));
        },
        _ => {},
    }
}

/// The overview of the entries of `s` from position `k0` on holds the text of entry `k` after
/// something that is empty or does not end in a tab.
/// The overview of the entries of `s` from position `k0` on holds the text of entry `k`, after
/// something that is empty or does not end in a tab and before the text of the entries after it.
proof fn lemma_entries_split(s: Seq<VaultEntryView>, depth: nat, k0: int, k: int)
    requires
        0 <= k0 <= k < s.len(),
    ensures
        exists|a: Seq<char>|
            #[trigger] pieces(overview_entries(s, depth, k0), a, line_at(s, depth, k), overview_entries(s, depth, k + 1)),
    decreases k - k0,
{
    lemma_entries_unfold(s, depth, k0);
    if k0 == k {
        let a = Seq::<char>::empty();
        assert(overview_entries(s, depth, k0) =~= a + line_at(s, depth, k) + overview_entries(s, depth, k + 1));
        assert(pieces(overview_entries(s, depth, k0), a, line_at(s, depth, k), overview_entries(s, depth, k + 1)));
    } else {
        lemma_entries_split(s, depth, k0 + 1, k);
        let b = overview_entries(s, depth, k + 1);
        let a1 = choose|a: Seq<char>| #[trigger] pieces(overview_entries(s, depth, k0 + 1), a, line_at(s, depth, k), b);
        lemma_line_end(s, depth, k0);
        let a = line_at(s, depth, k0) + a1;
        if a1.len() == 0 {
            assert(a =~= line_at(s, depth, k0));
        }
        assert(no_tab_end(a));
        assert(line_at(s, depth, k0) + (a1 + line_at(s, depth, k) + b) =~= a + line_at(s, depth, k) + b);
        assert(pieces(overview_entries(s, depth, k0), a, line_at(s, depth, k), b));
    }
}

/// The overview of `d` holds the overview of the entries of the directory at `path`, at that
/// directory's nesting level, after something that is not empty and does not end in a tab.
proof fn lemma_dir_entries_in(d: DirectoryView, n: nat, path: Seq<Seq<char>>)
    requires
        dir_at(d, path) is Some,
        n + path.len() < u64::MAX,
    ensures
        exists|a: Seq<char>, b: Seq<char>|
            #[trigger] pieces(
                overview(d, n),
                a,
                overview_entries(dir_at(d, path)->0.children, (n + path.len()) as nat, 0),
                b,
            ) && a.len() > 0,
    decreases path.len(),
{
    lemma_directory_shown(d);
    let head = prefix_of(n, false) + " "@ + display_of(VaultEntryView::Directory(d));
    assert(overview(d, n) == head + overview_entries(d.children, n, 0));
    assert(head.last() == 's');
    if path.len() == 0 {
        let b = Seq::<char>::empty();
        assert((n + path.len()) as nat == n);
        assert(overview(d, n) =~= head + overview_entries(d.children, n, 0) + b);
        assert(pieces(overview(d, n), head, overview_entries(d.children, n, 0), b));
        assert(pieces(overview(d, n), head, overview_entries(dir_at(d, path)->0.children, (n + path.len()) as nat, 0), b));
    } else {
        let c = d.children;
        lemma_child_index_from(c, name_field(path[0]), 0);
        let ci = child_index(c, path[0])->0;
        let sub = c[ci]->Directory_0;
        let rest = path.drop_first();
        assert(c[ci] is Directory) by {
            if path.len() > 1 {
                assert(lookup(c, path) == lookup(sub.children, rest));
            }
        }
        assert(dir_at(sub, rest) == dir_at(d, path)) by {
            if rest.len() > 0 {
                assert(lookup(c, path) == lookup(sub.children, rest));
            }
        }
        lemma_dir_entries_in(sub, deeper(n), rest);
        assert(deeper(n) + rest.len() == n + path.len());
        let dd = dir_at(d, path)->0;
        let lv = (n + path.len()) as nat;
        let e = overview_entries(dd.children, lv, 0);
        let (a2, b2) = choose|a: Seq<char>, b: Seq<char>| #[trigger] pieces(overview(sub, deeper(n)), a, e, b) && a.len() > 0;
        // the overview of `sub` is the text of `sub` in the overview of `d`
        lemma_sort_order_covers(c, c.len() as int, ci);
        let kk = choose|kk: int| 0 <= kk < c.len() && #[trigger] sort_order(c, c.len() as int)[kk] == ci;
        assert(line_at(c, n, kk) == overview(sub, deeper(n)));
        lemma_entries_split(c, n, 0, kk);
        let b1 = overview_entries(c, n, kk + 1);
        let a1 = choose|a: Seq<char>| #[trigger] pieces(overview_entries(c, n, 0), a, line_at(c, n, kk), b1);
        let a = head + a1 + a2;
        assert(a.last() == a2.last());
        assert(no_tab_end(a));
        assert(overview(d, n) =~= a + e + (b2 + b1));
        assert(pieces(overview(d, n), a, e, b2 + b1));
        assert(pieces(overview(d, n), a, overview_entries(dir_at(d, path)->0.children, (n + path.len()) as nat, 0), b2 + b1));
    }
}

/// Where the overview of `d` holds the text of entry `k` of the directory at `path` (with `a`
/// before it), that entry's row starts a line.
proof fn lemma_row_from_pieces(d: DirectoryView, n: nat, path: Seq<Seq<char>>, k: int, a: Seq<char>, b: Seq<char>)
    requires
        dir_at(d, path) is Some,
        0 <= k < dir_at(d, path)->0.children.len(),
        n + path.len() < u64::MAX,
        pieces(overview(d, n), a, line_at(dir_at(d, path)->0.children, (n + path.len()) as nat, k), b),
        a.len() > 0,
    ensures
        row_at(overview(d, n), a.len() as int, listed_row(dir_at(d, path)->0.children, k, (n + path.len()) as nat)),
{
    let cs = dir_at(d, path)->0.children;
    let level = (n + path.len()) as nat;
    lemma_sort_order(cs, cs.len() as int);
    let j = sort_order(cs, cs.len() as int)[k];
    let e = sorted_views(cs)[k];
    assert(e == cs[j]);
    let t = overview(d, n);
    let l = line_at(cs, level, k);
    let row = listed_row(cs, k, level);
    match e {
        VaultEntryView::Directory(sub) => {
            lemma_prefix_of(level + 1, false);
            assert(deeper(level) == level + 1);
            assert(l == overview(sub, level + 1));
            assert(l == row + overview_entries(sub.children, level + 1, 0));
        },
        _ => {
            lemma_prefix_of(level, k == cs.len() - 1);
            assert(l == row + "\n"@);
        },
    }
    let i = a.len() as int;
    assert(t == a + l + b);
    assert(t.subrange(i, i + row.len()) =~= row);
    assert(t[i - 1] == a.last());
}

/// The law of the overview's lines: for every directory at `path` below `d` (`d` itself for an
/// empty path) and every entry at listing position `k` there, the overview of `d` at depth `n`
/// has a line for that entry. A password or a secret file is drawn at the directory's nesting
/// level `n + path.len()`, with the end mark exactly when it is the last entry listed; a
/// directory is drawn one level deeper, with the branch mark (its own entries follow, drawn as
/// its directory's).
pub proof fn lemma_overview_lines(d: DirectoryView, n: nat, path: Seq<Seq<char>>, k: int)
    requires
        dir_at(d, path) is Some,
        0 <= k < dir_at(d, path)->0.children.len(),
        n + path.len() < u64::MAX,
    ensures
        exists|i: int|
            #[trigger] row_at(
                overview(d, n),
                i,
                listed_row(dir_at(d, path)->0.children, k, (n + path.len()) as nat),
            ),
{
    lemma_overview_order(d, n, path, k, k);
}

/// The law of the overview's order: within every directory at `path` below `d`, the lines of its
/// entries come in listing order: the line of the entry at position `k1` starts no later than
/// that of the entry at `k2 >= k1`, and strictly before it when `k1 < k2` (each being the line
/// the law of the overview's lines gives).
#[verifier::spinoff_prover]
#[verifier::rlimit(50)]
pub proof fn lemma_overview_order(d: DirectoryView, n: nat, path: Seq<Seq<char>>, k1: int, k2: int)
    requires
        dir_at(d, path) is Some,
        0 <= k1 <= k2 < dir_at(d, path)->0.children.len(),
        n + path.len() < u64::MAX,
    ensures
        exists|i1: int, i2: int|
            i1 <= i2 && (k1 < k2 ==> i1 < i2) && #[trigger] row_at(
                overview(d, n),
                i1,
                listed_row(dir_at(d, path)->0.children, k1, (n + path.len()) as nat),
            ) && #[trigger] row_at(
                overview(d, n),
                i2,
                listed_row(dir_at(d, path)->0.children, k2, (n + path.len()) as nat),
            ),
{
    let cs = dir_at(d, path)->0.children;
    let lv = (n + path.len()) as nat;
    let t = overview(d, n);
    lemma_dir_entries_in(d, n, path);
    let e = overview_entries(cs, lv, 0);
    let (a0, b0) = choose|a: Seq<char>, b: Seq<char>| #[trigger] pieces(t, a, e, b) && a.len() > 0;
    lemma_entries_split(cs, lv, 0, k1);
    let r1 = overview_entries(cs, lv, k1 + 1);
    let a1 = choose|a: Seq<char>| #[trigger] pieces(e, a, line_at(cs, lv, k1), r1);
    let p1 = a0 + a1;
    if a1.len() == 0 {
        assert(p1 =~= a0);
    }
    assert(t =~= p1 + line_at(cs, lv, k1) + (r1 + b0));
    assert(pieces(t, p1, line_at(cs, lv, k1), r1 + b0));
    lemma_row_from_pieces(d, n, path, k1, p1, r1 + b0);
    if k1 == k2 {
        assert(row_at(t, p1.len() as int, listed_row(cs, k2, lv)));
    } else {
        lemma_entries_split(cs, lv, k1 + 1, k2);
        let r2 = overview_entries(cs, lv, k2 + 1);
        let a2 = choose|a: Seq<char>| #[trigger] pieces(r1, a, line_at(cs, lv, k2), r2);
        lemma_line_end(cs, lv, k1);
        let p2 = p1 + line_at(cs, lv, k1) + a2;
        if a2.len() == 0 {
            assert(p2 =~= p1 + line_at(cs, lv, k1));
        }
        assert(no_tab_end(p2));
        assert(t =~= p2 + line_at(cs, lv, k2) + (r2 + b0));
        assert(pieces(t, p2, line_at(cs, lv, k2), r2 + b0));
        lemma_row_from_pieces(d, n, path, k2, p2, r2 + b0);
    }
}

} // verus!
