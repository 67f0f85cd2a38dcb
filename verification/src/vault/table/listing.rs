//! The listing of the table-based archive: the entries of a directory ordered by name (byte by
//! byte, as `String`'s order compares), and the overview of the vault built from it.
use vstd::prelude::*;
use std::cmp::Ordering;
use vstd::utf8::encode_utf8;
use crate::vault::entry::order::{bytes_le, bytes_order, key_insert_pos, key_sort_order, lemma_bytes_le_skip, lemma_key_sort_order};
use crate::vault::entry::{build_prefix_str, decimal, prefix_of};
use crate::vault::entry::overview::deeper;
use crate::vault::table::records::table_display;
use crate::error::VaultError;
use crate::vault::table::{DirectoryEntry, VaultEntry};

verus! {

/// An entry as the listing sees it: its kind and name, and for a directory its entries in
/// directory order.
pub enum ListedEntry {
    Password(Seq<char>),
    Secret(Seq<char>),
    Directory(Seq<char>, Seq<ListedEntry>),
}

impl ListedEntry {
    /// The name of the entry
    pub open spec fn name(self) -> Seq<char> {
        match self {
            ListedEntry::Password(n) => n,
            ListedEntry::Secret(n) => n,
            ListedEntry::Directory(n, _) => n,
        }
    }
}

/// How an entry is displayed in the listing
pub open spec fn listed_display(e: ListedEntry) -> Seq<char> {
    match e {
        ListedEntry::Password(n) => n + " (Password)"@,
        ListedEntry::Secret(n) => n + " (File)"@,
        ListedEntry::Directory(n, c) => n + ": "@ + decimal(c.len()) + " Items"@,
    }
}

impl VaultEntry {
    /// The entry as the listing sees it
    pub closed spec fn lview(&self) -> ListedEntry
        decreases self,
    {
        match self {
            VaultEntry::Password(p) => ListedEntry::Password(p.password_name@),
            VaultEntry::Secret(s) => ListedEntry::Secret(s.secret_name@),
            VaultEntry::Directory(d) => ListedEntry::Directory(d.directory_name@, listed_children(d.children@)),
        }
    }
}

/// The entries of `s` as the listing sees them
pub closed spec fn listed_children(s: Seq<VaultEntry>) -> Seq<ListedEntry>
    decreases s,
{
    if s.len() == 0 {
        Seq::empty()
    } else {
        listed_children(s.drop_last()).push(s.last().lview())
    }
}

proof fn lemma_listed_children(s: Seq<VaultEntry>)
    ensures
        listed_children(s).len() == s.len(),
        forall|i: int| 0 <= i < s.len() ==> #[trigger] listed_children(s)[i] == s[i].lview(),
    decreases s.len(),
{
    if s.len() > 0 {
        lemma_listed_children(s.drop_last());
        assert forall|i: int| 0 <= i < s.len() implies #[trigger] listed_children(s)[i] == s[i].lview() by {
            if i < s.len() - 1 {
                assert(s.drop_last()[i] == s[i]);
            }
        }
    }
}

impl DirectoryEntry {
    /// The entries of the directory as the listing sees them, in directory order
    pub closed spec fn listed(&self) -> Seq<ListedEntry> {
        listed_children(self.children@)
    }
}

/// The key the listing orders an entry by: the UTF-8 bytes of its name
pub open spec fn listing_key(e: ListedEntry) -> Seq<u8> {
    encode_utf8(e.name())
}

/// Where index `j` goes in the listing `p` (indices into `s`): after every entry whose key comes
/// before its key or equals it, looking from position `from` on.
pub open spec fn listed_insert_pos(s: Seq<ListedEntry>, p: Seq<int>, j: int, from: int) -> int
    decreases p.len() - from,
{
    if from < 0 || from >= p.len() {
        p.len() as int
    } else if bytes_le(listing_key(s[p[from]]), listing_key(s[j])) {
        listed_insert_pos(s, p, j, from + 1)
    } else {
        from
    }
}

/// The listing order of the first `n` entries of `s` (a stable sort by name).
pub open spec fn listed_order(s: Seq<ListedEntry>, n: int) -> Seq<int>
    decreases n,
{
    if n <= 0 {
        Seq::empty()
    } else {
        let p = listed_order(s, n - 1);
        p.insert(listed_insert_pos(s, p, n - 1, 0), n - 1)
    }
}

proof fn lemma_listed_insert_pos(s: Seq<ListedEntry>, p: Seq<int>, j: int, from: int)
    requires
        0 <= from <= p.len(),
    ensures
        from <= listed_insert_pos(s, p, j, from) <= p.len(),
    decreases p.len() - from,
{
    if from < p.len() {
        lemma_listed_insert_pos(s, p, j, from + 1);
    }
}

/// The listing order holds each of the first `n` indices once.
pub proof fn lemma_listed_order(s: Seq<ListedEntry>, n: int)
    requires
        0 <= n,
    ensures
        listed_order(s, n).len() == n,
        forall|k: int| 0 <= k < n ==> 0 <= #[trigger] listed_order(s, n)[k] < n,
    decreases n,
{
    if n > 0 {
        lemma_listed_order(s, n - 1);
        let p = listed_order(s, n - 1);
        lemma_listed_insert_pos(s, p, n - 1, 0);
        let q = p.insert(listed_insert_pos(s, p, n - 1, 0), n - 1);
        assert forall|k: int| 0 <= k < n implies 0 <= #[trigger] q[k] < n by {
            let pos = listed_insert_pos(s, p, n - 1, 0);
            if k < pos {
                assert(q[k] == p[k]);
            } else if k > pos {
                assert(q[k] == p[k - 1]);
            }
        }
    }
}

/// The entries of `s` in listing order
pub open spec fn sorted_listed(s: Seq<ListedEntry>) -> Seq<ListedEntry> {
    listed_order(s, s.len() as int).map_values(|j: int| s[j])
}

/// Whether `a` comes before `b` or equals it, byte by byte
pub fn slice_le(a: &[u8], b: &[u8]) -> (r: bool)
    ensures
        r == bytes_le(a@, b@),
{
    let n = if a.len() < b.len() { a.len() } else { b.len() };
    let mut i: usize = 0;
    while i < n
        invariant
            n <= a@.len(),
            n <= b@.len(),
            n == a@.len() || n == b@.len(),
            i <= n,
            a@.subrange(0, i as int) == b@.subrange(0, i as int),
        decreases n - i,
    {
        if a[i] != b[i] {
            proof {
                lemma_bytes_le_skip(a@, b@, i as int);
            }
            return a[i] < b[i];
        }
        assert(a@.subrange(0, i + 1) =~= a@.subrange(0, i as int).push(a@[i as int]));
        assert(b@.subrange(0, i + 1) =~= b@.subrange(0, i as int).push(b@[i as int]));
        i += 1;
    }
    proof {
        lemma_bytes_le_skip(a@, b@, n as int);
    }
    a.len() <= b.len()
}

impl DirectoryEntry {
    /// The entries of the directory, in listing order (by name)
    pub fn get_sorted_children(&self) -> (r: Vec<&VaultEntry>)
        ensures
            r@.len() == self.listed().len(),
            forall|k: int| 0 <= k < r@.len() ==> (#[trigger] r@[k]).lview() == sorted_listed(self.listed())[k],
    {
        let children = &self.children;
        let ghost s = self.listed();
        proof {
            lemma_listed_children(children@);
        }
        let n = children.len();
        let mut order: Vec<usize> = Vec::new();
        let mut j: usize = 0;
        while j < n
            invariant
                n == children@.len(),
                s == listed_children(children@),
                s.len() == n,
                forall|i: int| 0 <= i < n ==> #[trigger] s[i] == children@[i].lview(),
                j <= n,
                order@.len() == j,
                forall|k: int| 0 <= k < j ==> (#[trigger] order@[k]) as int == listed_order(s, j as int)[k],
            decreases n - j,
        {
            proof {
                lemma_listed_order(s, j as int);
            }
            let ghost p = listed_order(s, j as int);
            let mut pos: usize = 0;
            let mut done = false;
            while pos < order.len() && !done
                invariant
                    n == children@.len(),
                    s.len() == n,
                    forall|i: int| 0 <= i < n ==> #[trigger] s[i] == children@[i].lview(),
                    j < n,
                    order@.len() == j,
                    p == listed_order(s, j as int),
                    p.len() == j,
                    forall|k: int| 0 <= k < j ==> 0 <= #[trigger] p[k] < j,
                    forall|k: int| 0 <= k < j ==> (#[trigger] order@[k]) as int == p[k],
                    pos <= order@.len(),
                    !done ==> listed_insert_pos(s, p, j as int, 0) == listed_insert_pos(s, p, j as int, pos as int),
                    done ==> listed_insert_pos(s, p, j as int, 0) == pos,
                decreases order@.len() - pos + (if done { 0int } else { 1int }),
            {
                let other = order[pos];
                assert(other as int == p[pos as int]);
                assert(0 <= p[pos as int] < j);
                let a = children[other].name().as_str().as_bytes();
                let b = children[j].name().as_str().as_bytes();
                let le = slice_le(a, b);
                assert(children@[other as int].lview() == s[p[pos as int]]);
                assert(children@[j as int].lview() == s[j as int]);
                assert(children@[other as int].lview().name() == children@[other as int].tname());
                assert(children@[j as int].lview().name() == children@[j as int].tname());
                if le {
                    pos += 1;
                } else {
                    done = true;
                }
            }
            order.insert(pos, j);
            proof {
                let q = p.insert(pos as int, j as int);
                assert(listed_order(s, j + 1) == q);
                assert forall|k: int| 0 <= k < j + 1 implies (#[trigger] order@[k]) as int == q[k] by {
                    if k < pos {
                    } else if k > pos {
                    }
                }
            }
            j += 1;
        }
        proof {
            lemma_listed_order(s, n as int);
        }
        let mut r: Vec<&VaultEntry> = Vec::new();
        let mut k: usize = 0;
        while k < n
            invariant
                n == children@.len(),
                s.len() == n,
                forall|i: int| 0 <= i < n ==> #[trigger] s[i] == children@[i].lview(),
                listed_order(s, n as int).len() == n,
                order@.len() == n,
                forall|m: int| 0 <= m < n ==> (#[trigger] order@[m]) as int == listed_order(s, n as int)[m],
                forall|m: int| 0 <= m < n ==> 0 <= #[trigger] listed_order(s, n as int)[m] < n,
                k <= n,
                r@.len() == k,
                forall|m: int| 0 <= m < k ==> (#[trigger] r@[m]).lview() == sorted_listed(s)[m],
            decreases n - k,
        {
            let idx = order[k];
            assert(0 <= listed_order(s, n as int)[k as int] < n);
            assert(sorted_listed(s)[k as int] == s[listed_order(s, n as int)[k as int]]);
            let ghost r0 = r@;
            r.push(&children[idx]);
            assert forall|m: int| 0 <= m < k + 1 implies (#[trigger] r@[m]).lview() == sorted_listed(s)[m] by {
                if m < k {
                    assert(r@[m] == r0[m]);
                }
            }
            k += 1;
        }
        r
    }
}

/// How many levels of directories lie below the entries of `s`, from position `k` on.
pub open spec fn listed_height(s: Seq<ListedEntry>, k: int) -> nat
    decreases s, s.len() - k,
{
    if k < 0 || k >= s.len() {
        0
    } else {
        let h = match s[k] {
            ListedEntry::Directory(_, c) => 1 + listed_height(c, 0),
            _ => 0,
        };
        let rest = listed_height(s, k + 1);
        if h > rest { h } else { rest }
    }
}

proof fn lemma_listed_height(s: Seq<ListedEntry>, k: int, j: int)
    requires
        0 <= k <= j < s.len(),
        s[j] is Directory,
    ensures
        listed_height(s, k) >= 1 + listed_height(s[j]->Directory_1, 0),
    decreases j - k,
{
    if k < j {
        lemma_listed_height(s, k + 1, j);
    }
}

/// The lines of the vault overview for the entries of `s` at `level`, from listing position
/// `k` on: each entry gives its prefix (with the end mark for the last entry of a directory) and
/// display; a directory's line sits one level deeper and is followed by the lines of its entries.
pub open spec fn listing_lines(s: Seq<ListedEntry>, level: nat, k: int) -> Seq<char>
    decreases s, s.len() - k,
{
    if k < 0 || k >= s.len() {
        Seq::empty()
    } else {
        let j = listed_order(s, s.len() as int)[k];
        proof {
            lemma_listed_order(s, s.len() as int);
        }
        let last = k == s.len() - 1;
        let line = match s[j] {
            ListedEntry::Directory(_, c) => prefix_of(deeper(level), last) + " "@ + listed_display(s[j])
                + listing_lines(c, deeper(level), 0),
            _ => prefix_of(level, last) + " "@ + listed_display(s[j]),
        };
        line + listing_lines(s, level, k + 1)
    }
}

proof fn lemma_display_listed(e: &VaultEntry)
    ensures
        table_display(e) == listed_display(e.lview()),
{
    if let VaultEntry::Directory(d) = e {
        lemma_listed_children(d.children@);
        assert(d.child_count() == d.children@.len());
    }
}

impl DirectoryEntry {
    /// Append the overview lines of the directory's entries at `level` to `out`
    #[verifier::spinoff_prover]
    #[verifier::rlimit(40)]
    pub fn write_listing(&self, level: u64, out: &mut String)
        ensures
            final(out)@ == old(out)@ + listing_lines(self.listed(), level as nat, 0),
        decreases listed_height(self.listed(), 0),
    {
        proof {
            reveal_strlit(" ");
        }
        let ghost s = self.listed();
        let ghost start = out@;
        let children = self.get_sorted_children();
        let len = children.len();
        proof {
            lemma_listed_order(s, s.len() as int);
        }
        let mut i: usize = 0;
        while i < len
            invariant
                len == children@.len(),
                len == s.len(),
                s == self.listed(),
                listed_order(s, s.len() as int).len() == s.len(),
                forall|m: int| 0 <= m < s.len() ==> 0 <= #[trigger] listed_order(s, s.len() as int)[m] < s.len(),
                forall|k: int| 0 <= k < len ==> (#[trigger] children@[k]).lview() == sorted_listed(s)[k],
                i <= len,
                out@ + listing_lines(s, level as nat, i as int) == start + listing_lines(s, level as nat, 0),
            decreases len - i,
        {
            let entry = children[i];
            let is_last = i == len - 1;
            let ghost j = listed_order(s, s.len() as int)[i as int];
            assert(sorted_listed(s)[i as int] == s[j]);
            assert(entry.lview() == s[j]);
            proof {
                lemma_display_listed(entry);
            }
            let ghost before = out@;
            match entry {
                VaultEntry::Directory(dir) => {
                    proof {
                        lemma_listed_height(s, 0, j);
                    }
                    let next_level = if level < u64::MAX { level + 1 } else { level };
                    let prefix = build_prefix_str(next_level, is_last);
                    out.append(prefix.as_str());
                    out.append(" ");
                    let shown = entry.display();
                    out.append(shown.as_str());
                    dir.write_listing(next_level, out);
                },
                _ => {
                    let prefix = build_prefix_str(level, is_last);
                    out.append(prefix.as_str());
                    out.append(" ");
                    let shown = entry.display();
                    out.append(shown.as_str());
                },
            }
            proof {
                let line = out@.subrange(before.len() as int, out@.len() as int);
                assert(out@ =~= before + line);
                assert(listing_lines(s, level as nat, i as int) == line + listing_lines(s, level as nat, i + 1));
                assert(before + listing_lines(s, level as nat, i as int) =~= out@ + listing_lines(s, level as nat, i + 1));
            }
            i += 1;
        }
        proof {
            assert(listing_lines(s, level as nat, i as int) == Seq::<char>::empty());
            assert(out@ =~= out@ + listing_lines(s, level as nat, i as int));
        }
    }
}

/// The overview lines of the entries of `s` at `depth`, from listing position `k` on: a file
/// or password gives a line with its branch mark (the end mark for the last entry); a directory
/// gives its own overview one level deeper.
pub open spec fn listed_overview_entries(s: Seq<ListedEntry>, depth: nat, k: int) -> Seq<char>
    decreases s, s.len() - k,
{
    if k < 0 || k >= s.len() {
        Seq::empty()
    } else {
        let j = listed_order(s, s.len() as int)[k];
        proof {
            lemma_listed_order(s, s.len() as int);
        }
        let line = match s[j] {
            ListedEntry::Directory(_, c) => prefix_of(deeper(depth), false) + " "@ + listed_display(s[j])
                + listed_overview_entries(c, deeper(depth), 0),
            _ => prefix_of(depth, k == s.len() - 1) + " "@ + listed_display(s[j]) + "\n"@,
        };
        line + listed_overview_entries(s, depth, k + 1)
    }
}

impl DirectoryEntry {
    /// The directory as the listing sees it
    pub open spec fn as_listed(&self) -> ListedEntry {
        ListedEntry::Directory(self.dname(), self.listed())
    }

    /// Write the overview of the directory at `depth` to `buffer`: its line, then its entries in
    /// listing order, directories with their own entries one level deeper.
    #[verifier::spinoff_prover]
    #[verifier::rlimit(40)]
    pub fn get_directory_overview(&self, depth: u64, buffer: &mut String) -> (r: Result<(), VaultError>)
        ensures
            r is Ok,
            final(buffer)@ == old(buffer)@ + prefix_of(depth as nat, false) + " "@ + listed_display(self.as_listed())
                + listed_overview_entries(self.listed(), depth as nat, 0),
        decreases listed_height(self.listed(), 0),
    {
        proof {
            reveal_strlit(" ");
            reveal_strlit("\n");
            lemma_listed_children(self.children@);
        }
        let ghost s = self.listed();
        let ghost start = buffer@;
        let prefix = build_prefix_str(depth, false);
        buffer.append(prefix.as_str());
        buffer.append(" ");
        let shown = self.display();
        buffer.append(shown.as_str());
        let ghost head = buffer@;
        assert(head == start + prefix_of(depth as nat, false) + " "@ + listed_display(self.as_listed()));
        let children = self.get_sorted_children();
        let len = children.len();
        proof {
            lemma_listed_order(s, s.len() as int);
        }
        let mut i: usize = 0;
        while i < len
            invariant
                len == children@.len(),
                len == s.len(),
                s == self.listed(),
                listed_order(s, s.len() as int).len() == s.len(),
                forall|m: int| 0 <= m < s.len() ==> 0 <= #[trigger] listed_order(s, s.len() as int)[m] < s.len(),
                forall|k: int| 0 <= k < len ==> (#[trigger] children@[k]).lview() == sorted_listed(s)[k],
                i <= len,
                buffer@ + listed_overview_entries(s, depth as nat, i as int) == head + listed_overview_entries(s, depth as nat, 0),
            decreases len - i,
        {
            let entry = children[i];
            let is_last = i == len - 1;
            let ghost j = listed_order(s, s.len() as int)[i as int];
            assert(sorted_listed(s)[i as int] == s[j]);
            assert(entry.lview() == s[j]);
            proof {
                lemma_display_listed(entry);
            }
            let ghost before = buffer@;
            match entry {
                VaultEntry::Directory(dir) => {
                    proof {
                        lemma_listed_height(s, 0, j);
                        lemma_listed_children(dir.children@);
                    }
                    let next_depth = if depth < u64::MAX { depth + 1 } else { depth };
                    let _ = dir.get_directory_overview(next_depth, buffer);
                },
                _ => {
                    let prefix = build_prefix_str(depth, is_last);
                    buffer.append(prefix.as_str());
                    buffer.append(" ");
                    let shown = entry.display();
                    buffer.append(shown.as_str());
                    buffer.append("\n");
                },
            }
            proof {
                let line = buffer@.subrange(before.len() as int, buffer@.len() as int);
                assert(buffer@ =~= before + line);
                assert(listed_overview_entries(s, depth as nat, i as int) == line + listed_overview_entries(s, depth as nat, i + 1));
                assert(before + listed_overview_entries(s, depth as nat, i as int) =~= buffer@ + listed_overview_entries(s, depth as nat, i + 1));
            }
            i += 1;
        }
        proof {
            assert(listed_overview_entries(s, depth as nat, i as int) == Seq::<char>::empty());
            assert(buffer@ =~= buffer@ + listed_overview_entries(s, depth as nat, i as int));
        }
        Ok(())
    }
}

/// The listing views of a sequence of entry references.
pub open spec fn listed_refs(r: Seq<&VaultEntry>) -> Seq<ListedEntry> {
    r.map_values(|e: &VaultEntry| e.lview())
}

/// Every entry inside the entries of `s` from position `k` on, in directory order: each entry is
/// followed by everything inside it.
pub open spec fn listed_walk(s: Seq<ListedEntry>, k: int) -> Seq<ListedEntry>
    decreases s, s.len() - k,
{
    if k < 0 || k >= s.len() {
        Seq::empty()
    } else {
        let inner = match s[k] {
            ListedEntry::Directory(_, c) => listed_walk(c, 0),
            _ => Seq::empty(),
        };
        seq![s[k]] + inner + listed_walk(s, k + 1)
    }
}

/// Every entry inside the entries of `s` from listing position `k` on, in listing order: each
/// entry is followed by everything inside it.
pub open spec fn listed_sorted_walk(s: Seq<ListedEntry>, k: int) -> Seq<ListedEntry>
    decreases s, s.len() - k,
{
    if k < 0 || k >= s.len() {
        Seq::empty()
    } else {
        let j = listed_order(s, s.len() as int)[k];
        proof {
            lemma_listed_order(s, s.len() as int);
        }
        let inner = match s[j] {
            ListedEntry::Directory(_, c) => listed_sorted_walk(c, 0),
            _ => Seq::empty(),
        };
        seq![s[j]] + inner + listed_sorted_walk(s, k + 1)
    }
}

/// Append every entry of `other` to `res`.
fn append_listed<'a>(res: &mut Vec<&'a VaultEntry>, other: Vec<&'a VaultEntry>)
    ensures
        listed_refs(final(res)@) == listed_refs(old(res)@) + listed_refs(other@),
{
    let ghost start = res@;
    let mut i: usize = 0;
    while i < other.len()
        invariant
            i <= other@.len(),
            res@ == start + other@.subrange(0, i as int),
        decreases other@.len() - i,
    {
        res.push(other[i]);
        assert(other@.subrange(0, i + 1) =~= other@.subrange(0, i as int).push(other@[i as int]));
        assert(res@ =~= start + other@.subrange(0, i + 1));
        i += 1;
    }
    assert(other@.subrange(0, other@.len() as int) =~= other@);
    assert(listed_refs(res@) =~= listed_refs(start) + listed_refs(other@));
}

impl DirectoryEntry {
    /// The entries of the directory, in directory order
    pub fn get_children(&self) -> (r: Vec<&VaultEntry>)
        ensures
            listed_refs(r@) == self.listed(),
    {
        proof {
            lemma_listed_children(self.children@);
        }
        let mut r: Vec<&VaultEntry> = Vec::new();
        let mut i: usize = 0;
        while i < self.children.len()
            invariant
                i <= self.children@.len(),
                r@.len() == i,
                forall|k: int| 0 <= k < i ==> *(#[trigger] r@[k]) == self.children@[k],
            decreases self.children@.len() - i,
        {
            r.push(&self.children[i]);
            i += 1;
        }
        assert(listed_refs(r@) =~= self.listed());
        r
    }

    /// Every entry inside the directory, in directory order: each entry is followed by everything
    /// inside it.
    pub fn iter(&self) -> (r: Vec<&VaultEntry>)
        ensures
            listed_refs(r@) == listed_walk(self.listed(), 0),
        decreases listed_height(self.listed(), 0),
    {
        let entries = self.get_children();
        let ghost s = self.listed();
        let n = entries.len();
        let mut res: Vec<&VaultEntry> = Vec::new();
        let mut k: usize = 0;
        assert(listed_refs(res@) =~= Seq::<ListedEntry>::empty());
        while k < n
            invariant
                n == entries@.len(),
                s == self.listed(),
                s == listed_refs(entries@),
                k <= n,
                listed_refs(res@) + listed_walk(s, k as int) == listed_walk(s, 0),
            decreases n - k,
        {
            let entry = entries[k];
            assert(entry.lview() == s[k as int]);
            let ghost before = listed_refs(res@);
            res.push(entry);
            assert(listed_refs(res@) =~= before + seq![s[k as int]]);
            match entry {
                VaultEntry::Directory(dir) => {
                    proof {
                        lemma_listed_height(s, 0, k as int);
                        lemma_listed_children(dir.children@);
                    }
                    let sub = dir.iter();
                    append_listed(&mut res, sub);
                },
                _ => {},
            }
            proof {
                let inner = match s[k as int] {
                    ListedEntry::Directory(_, c) => listed_walk(c, 0),
                    _ => Seq::empty(),
                };
                assert(listed_refs(res@) =~= before + seq![s[k as int]] + inner);
                assert(listed_walk(s, k as int) == seq![s[k as int]] + inner + listed_walk(s, k + 1));
                assert(before + listed_walk(s, k as int) =~= listed_refs(res@) + listed_walk(s, k + 1));
            }
            k += 1;
        }
        assert(listed_refs(res@) =~= listed_refs(res@) + listed_walk(s, k as int));
        res
    }

    /// Every entry inside the directory, in listing order: each entry is followed by everything
    /// inside it.
    pub fn sorted_iter(&self) -> (r: Vec<&VaultEntry>)
        ensures
            listed_refs(r@) == listed_sorted_walk(self.listed(), 0),
        decreases listed_height(self.listed(), 0),
    {
        let sorted_entries = self.get_sorted_children();
        let ghost s = self.listed();
        let n = sorted_entries.len();
        proof {
            lemma_listed_order(s, s.len() as int);
        }
        let mut res: Vec<&VaultEntry> = Vec::new();
        let mut k: usize = 0;
        assert(listed_refs(res@) =~= Seq::<ListedEntry>::empty());
        while k < n
            invariant
                n == sorted_entries@.len(),
                n == s.len(),
                s == self.listed(),
                listed_order(s, s.len() as int).len() == s.len(),
                forall|m: int| 0 <= m < s.len() ==> 0 <= #[trigger] listed_order(s, s.len() as int)[m] < s.len(),
                forall|m: int| 0 <= m < n ==> (#[trigger] sorted_entries@[m]).lview() == sorted_listed(s)[m],
                k <= n,
                listed_refs(res@) + listed_sorted_walk(s, k as int) == listed_sorted_walk(s, 0),
            decreases n - k,
        {
            let entry = sorted_entries[k];
            let ghost j = listed_order(s, s.len() as int)[k as int];
            assert(sorted_listed(s)[k as int] == s[j]);
            assert(entry.lview() == s[j]);
            let ghost before = listed_refs(res@);
            res.push(entry);
            assert(listed_refs(res@) =~= before + seq![s[j]]);
            match entry {
                VaultEntry::Directory(dir) => {
                    proof {
                        lemma_listed_height(s, 0, j);
                        lemma_listed_children(dir.children@);
                    }
                    let sub = dir.sorted_iter();
                    append_listed(&mut res, sub);
                },
                _ => {},
            }
            proof {
                let inner = match s[j] {
                    ListedEntry::Directory(_, c) => listed_sorted_walk(c, 0),
                    _ => Seq::empty(),
                };
                assert(listed_refs(res@) =~= before + seq![s[j]] + inner);
                assert(listed_sorted_walk(s, k as int) == seq![s[j]] + inner + listed_sorted_walk(s, k + 1));
                assert(before + listed_sorted_walk(s, k as int) =~= listed_refs(res@) + listed_sorted_walk(s, k + 1));
            }
            k += 1;
        }
        assert(listed_refs(res@) =~= listed_refs(res@) + listed_sorted_walk(s, k as int));
        res
    }
}

/// Names with the same UTF-8 bytes are the same name.
proof fn lemma_same_bytes_same_name(a: Seq<char>, b: Seq<char>)
    ensures
        (encode_utf8(a) == encode_utf8(b)) == (a == b),
{
    vstd::utf8::encode_utf8_decode_utf8(a);
    vstd::utf8::encode_utf8_decode_utf8(b);
}

impl VaultEntry {
    /// The order of entries: by name, byte by byte (as `String`'s order compares).
    pub fn cmp(&self, other: &Self) -> (r: Ordering)
        ensures
            (r == Ordering::Equal) == (self.tname() == other.tname()),
            (r == Ordering::Less) == (self.tname() != other.tname() && bytes_le(
                encode_utf8(self.tname()),
                encode_utf8(other.tname()),
            )),
            (r == Ordering::Greater) == !bytes_le(encode_utf8(self.tname()), encode_utf8(other.tname())),
    {
        proof {
            lemma_same_bytes_same_name(self.tname(), other.tname());
        }
        let o = bytes_order(self.name().as_str().as_bytes(), other.name().as_str().as_bytes());
        if o < 0 {
            Ordering::Less
        } else if o == 0 {
            Ordering::Equal
        } else {
            Ordering::Greater
        }
    }
}

/// The listing keys of entries
pub open spec fn listed_keys(s: Seq<ListedEntry>) -> Seq<Seq<u8>> {
    s.map_values(|e: ListedEntry| listing_key(e))
}

proof fn lemma_listed_insert_pos_keys(s: Seq<ListedEntry>, p: Seq<int>, j: int, from: int)
    requires
        0 <= j < s.len(),
        forall|k: int| 0 <= k < p.len() ==> 0 <= #[trigger] p[k] < s.len(),
    ensures
        listed_insert_pos(s, p, j, from) == key_insert_pos(listed_keys(s), p, j, from),
    decreases p.len() - from,
{
    if 0 <= from < p.len() {
        lemma_listed_insert_pos_keys(s, p, j, from + 1);
    }
}

proof fn lemma_listed_order_keys(s: Seq<ListedEntry>, n: int)
    requires
        0 <= n <= s.len(),
    ensures
        listed_order(s, n) == key_sort_order(listed_keys(s), n),
    decreases n,
{
    if n > 0 {
        lemma_listed_order_keys(s, n - 1);
        lemma_listed_order(s, n - 1);
        lemma_listed_insert_pos_keys(s, listed_order(s, n - 1), n - 1, 0);
    }
}

/// The listing is sorted by name (byte by byte) and lists each entry once: its order is a
/// permutation of the entries' indices.
pub proof fn lemma_listed_sorted(s: Seq<ListedEntry>)
    ensures
        sorted_listed(s).len() == s.len(),
        forall|a: int, b: int|
            0 <= a < b < s.len() ==> #[trigger] listed_order(s, s.len() as int)[a] != #[trigger] listed_order(
                s,
                s.len() as int,
            )[b],
        forall|k: int| 0 <= k < s.len() ==> 0 <= #[trigger] listed_order(s, s.len() as int)[k] < s.len(),
        forall|k: int| 0 <= k < s.len() ==> #[trigger] sorted_listed(s)[k] == s[listed_order(s, s.len() as int)[k]],
        forall|a: int, b: int|
            0 <= a < b < s.len() ==> bytes_le(
                encode_utf8(#[trigger] sorted_listed(s)[a].name()),
                encode_utf8(#[trigger] sorted_listed(s)[b].name()),
            ),
{
    let n = s.len() as int;
    lemma_listed_order_keys(s, n);
    lemma_key_sort_order(listed_keys(s), n);
    let p = listed_order(s, n);
    assert forall|a: int, b: int| 0 <= a < b < n implies bytes_le(
        encode_utf8(#[trigger] sorted_listed(s)[a].name()),
        encode_utf8(#[trigger] sorted_listed(s)[b].name()),
    ) by {
        assert(listed_keys(s)[p[a]] == listing_key(s[p[a]]));
        assert(listed_keys(s)[p[b]] == listing_key(s[p[b]]));
    }
}

} // verus!
