use vstd::prelude::*;
use vstd::multiset::Multiset;
use vstd::seq_lib::lemma_multiset_commutative;
use crate::text::{
    bytes_eq, bytes_view, copy_bytes, copy_from, lemma_split_nonempty, lossy_text, split,
    split_bytes, text_of,
};

verus! {

/// One line of `s` with a single trailing carriage return removed.
pub open spec fn strip_cr(l: Seq<u8>) -> Seq<u8> {
    if l.len() > 0 && l.last() == 13u8 {
        l.drop_last()
    } else {
        l
    }
}

pub open spec fn strip_all(p: Seq<Seq<u8>>) -> Seq<Seq<u8>> {
    p.map_values(|l: Seq<u8>| strip_cr(l))
}

/// The lines of `s`: pieces between newlines, each newline-terminated piece without
/// one trailing carriage return, and no final empty piece.
pub open spec fn lines(s: Seq<u8>) -> Seq<Seq<u8>> {
    let p = split(s, 10u8);
    let head = strip_all(p.drop_last());
    if p.last().len() == 0 {
        head
    } else {
        head.push(p.last())
    }
}

pub open spec fn is_space(b: u8) -> bool {
    b == 9u8 || b == 10u8 || b == 11u8 || b == 12u8 || b == 13u8 || b == 32u8
}

/// `s` without its leading whitespace.
pub open spec fn trim_start(s: Seq<u8>) -> Seq<u8>
    decreases s.len(),
{
    if s.len() > 0 && is_space(s[0]) {
        trim_start(s.drop_first())
    } else {
        s
    }
}

/// The single-letter status of a porcelain entry with columns `x` (index) and
/// `y` (working tree): `?` when untracked, else the index column when not blank,
/// else the working-tree column.
pub open spec fn status_code(x: u8, y: u8) -> u8 {
    if x == 63u8 {
        63u8
    } else if x != 32u8 {
        x
    } else {
        y
    }
}

/// The path and status of one porcelain status line, if it is long enough.
pub open spec fn parse_status_line(l: Seq<u8>) -> Option<(Seq<u8>, u8)> {
    if l.len() < 3 {
        None
    } else {
        Some((trim_start(l.skip(3)), status_code(l[0], l[1])))
    }
}

pub open spec fn has_path(e: Seq<(Seq<u8>, u8)>, p: Seq<u8>) -> bool {
    exists|i: int| 0 <= i < e.len() && #[trigger] e[i].0 == p
}

pub open spec fn path_index(e: Seq<(Seq<u8>, u8)>, p: Seq<u8>) -> int {
    choose|i: int| 0 <= i < e.len() && #[trigger] e[i].0 == p
}

/// No path occurs twice.
pub open spec fn unique_paths(e: Seq<(Seq<u8>, u8)>) -> bool {
    forall|i: int, j: int| 0 <= i < e.len() && 0 <= j < e.len() && i != j ==> e[i].0 != e[j].0
}

/// The mapping `e` with `p` now mapped to `c`: in place when present, else appended.
pub open spec fn upsert(e: Seq<(Seq<u8>, u8)>, p: Seq<u8>, c: u8) -> Seq<(Seq<u8>, u8)> {
    if has_path(e, p) {
        e.update(path_index(e, p), (p, c))
    } else {
        e.push((p, c))
    }
}

/// The status that the mapping gives `p`, `M` when it has none.
pub open spec fn lookup_status(e: Seq<(Seq<u8>, u8)>, p: Seq<u8>) -> u8 {
    if has_path(e, p) {
        e[path_index(e, p)].1
    } else {
        77u8
    }
}

/// The status mapping built from porcelain status lines, a later line for a path
/// replacing an earlier one.
pub open spec fn status_entries(ls: Seq<Seq<u8>>) -> Seq<(Seq<u8>, u8)>
    decreases ls.len(),
{
    if ls.len() == 0 {
        Seq::empty()
    } else {
        let e = status_entries(ls.drop_last());
        match parse_status_line(ls.last()) {
            Some(ps) => upsert(e, ps.0, ps.1),
            None => e,
        }
    }
}

pub open spec fn is_digit(b: u8) -> bool {
    48u8 <= b <= 57u8
}

/// The value of a sequence of decimal digits.
pub open spec fn digits_value(d: Seq<u8>) -> nat
    decreases d.len(),
{
    if d.len() == 0 {
        0
    } else {
        digits_value(d.drop_last()) * 10 + (d.last() - 48) as nat
    }
}

/// A line count as `u32` parsing reads it (an optional `+`, then decimal digits),
/// and 0 where that parse fails (a `-` for a binary file, an overflow).
pub open spec fn count_of(s: Seq<u8>) -> u32 {
    count_value(sign_stripped(s))
}

/// `s` without one leading `+`.
pub open spec fn sign_stripped(s: Seq<u8>) -> Seq<u8> {
    if s.len() > 0 && s[0] == 43u8 {
        s.drop_first()
    } else {
        s
    }
}

/// The value of a digit sequence that fits in `u32`, else 0.
pub open spec fn count_value(d: Seq<u8>) -> u32 {
    if d.len() > 0 && (forall|i: int| 0 <= i < d.len() ==> is_digit(#[trigger] d[i]))
        && digits_value(d) <= u32::MAX {
        digits_value(d) as u32
    } else {
        0
    }
}

/// One changed file: path, lines added, lines removed, status letter.
pub type RecordModel = (Seq<u8>, u32, u32, u8);

/// The records of the numeric diff summary lines `ls` (added, removed, path,
/// separated by tabs), each with its status from `e`.
pub open spec fn diff_records(ls: Seq<Seq<u8>>, e: Seq<(Seq<u8>, u8)>) -> Seq<RecordModel>
    decreases ls.len(),
{
    if ls.len() == 0 {
        Seq::empty()
    } else {
        let r = diff_records(ls.drop_last(), e);
        let parts = split(ls.last(), 9u8);
        if parts.len() < 3 {
            r
        } else {
            r.push((parts[2], count_of(parts[0]), count_of(parts[1]), lookup_status(e, parts[2])))
        }
    }
}

pub open spec fn in_records(recs: Seq<RecordModel>, p: Seq<u8>) -> bool {
    exists|i: int| 0 <= i < recs.len() && #[trigger] recs[i].0 == p
}

/// The entries of `e` whose path has no record in `recs`, with no line counts.
pub open spec fn unseen(e: Seq<(Seq<u8>, u8)>, recs: Seq<RecordModel>) -> Seq<RecordModel>
    decreases e.len(),
{
    if e.len() == 0 {
        Seq::empty()
    } else {
        let r = unseen(e.drop_last(), recs);
        if in_records(recs, e.last().0) {
            r
        } else {
            r.push((e.last().0, 0u32, 0u32, e.last().1))
        }
    }
}

/// The change set, unsorted, of a porcelain status output and a numeric diff output.
pub open spec fn change_set(status_out: Seq<u8>, numstat_out: Seq<u8>) -> Seq<RecordModel> {
    let e = status_entries(lines(status_out));
    let d = diff_records(lines(numstat_out), e);
    d + unseen(e, d)
}

pub open spec fn entries_view(e: Seq<(Vec<u8>, u8)>) -> Seq<(Seq<u8>, u8)> {
    e.map_values(|x: (Vec<u8>, u8)| (x.0@, x.1))
}

/// The lines of `s`.
pub fn text_lines(s: &[u8]) -> (r: Vec<Vec<u8>>)
    ensures
        bytes_view(r@) == lines(s@),
{
    let p = split_bytes(s, 10u8);
    proof { lemma_split_nonempty(s@, 10u8); }
    let n = p.len();
    let mut out: Vec<Vec<u8>> = Vec::new();
    let mut k: usize = 0;
    while k + 1 < n
        invariant
            n == p@.len(),
            n >= 1,
            bytes_view(p@) == split(s@, 10u8),
            k < n,
            bytes_view(out@) == strip_all(split(s@, 10u8).take(k as int)),
        decreases n - k,
    {
        let l = &p[k];
        assert(l@ == split(s@, 10u8)[k as int]);
        let mut c = copy_bytes(l.as_slice());
        if c.len() > 0 && c[c.len() - 1] == 13u8 {
            c.pop();
        }
        assert(c@ == strip_cr(l@));
        let ghost sp = split(s@, 10u8);
        assert(sp.take(k + 1) =~= sp.take(k as int).push(sp[k as int]));
        assert(strip_all(sp.take(k + 1)) =~= strip_all(sp.take(k as int)).push(strip_cr(sp[k as int])));
        let ghost before = out@;
        out.push(c);
        assert(bytes_view(out@) =~= bytes_view(before).push(c@));
        k = k + 1;
    }
    assert(split(s@, 10u8).take(k as int) =~= split(s@, 10u8).drop_last());
    let last = &p[n - 1];
    if last.len() > 0 {
        out.push(copy_bytes(last.as_slice()));
        assert(bytes_view(out@) =~= lines(s@));
    }
    out
}

/// `s` from index `start` on, without leading whitespace.
fn trimmed_from(s: &[u8], start: usize) -> (r: Vec<u8>)
    requires
        start <= s@.len(),
    ensures
        r@ == trim_start(s@.skip(start as int)),
{
    let mut j: usize = start;
    while j < s.len() && (s[j] == 9u8 || s[j] == 10u8 || s[j] == 11u8 || s[j] == 12u8 || s[j]
        == 13u8 || s[j] == 32u8)
        invariant
            start <= j <= s@.len(),
            trim_start(s@.skip(start as int)) == trim_start(s@.skip(j as int)),
        decreases s@.len() - j,
    {
        assert(s@.skip(j as int).drop_first() =~= s@.skip(j + 1));
        j = j + 1;
    }
    copy_from(s, j)
}

fn find_entry(e: &Vec<(Vec<u8>, u8)>, p: &[u8]) -> (r: Option<usize>)
    ensures
        r is None <==> !has_path(entries_view(e@), p@),
        r is Some ==> r->0 < e@.len() && entries_view(e@)[r->0 as int].0 == p@,
{
    let mut i: usize = 0;
    while i < e.len()
        invariant
            i <= e@.len(),
            forall|m: int| 0 <= m < i ==> #[trigger] entries_view(e@)[m].0 != p@,
        decreases e@.len() - i,
    {
        if bytes_eq(e[i].0.as_slice(), p) {
            assert(entries_view(e@)[i as int].0 == p@);
            return Some(i);
        }
        i = i + 1;
    }
    None
}

proof fn lemma_index_unique(e: Seq<(Seq<u8>, u8)>, p: Seq<u8>, i: int)
    requires
        unique_paths(e),
        0 <= i < e.len(),
        e[i].0 == p,
    ensures
        has_path(e, p),
        path_index(e, p) == i,
{
    assert(has_path(e, p));
}

fn upsert_entry(e: &mut Vec<(Vec<u8>, u8)>, p: Vec<u8>, c: u8)
    requires
        unique_paths(entries_view(old(e)@)),
    ensures
        entries_view(final(e)@) == upsert(entries_view(old(e)@), p@, c),
        unique_paths(entries_view(final(e)@)),
{
    let ghost pv = p@;
    match find_entry(e, p.as_slice()) {
        Some(i) => {
            proof { lemma_index_unique(entries_view(e@), pv, i as int); }
            e.set(i, (p, c));
            assert(entries_view(e@) =~= upsert(entries_view(old(e)@), pv, c));
        },
        None => {
            e.push((p, c));
            assert(entries_view(e@) =~= upsert(entries_view(old(e)@), pv, c));
        },
    }
}

/// The status mapping of porcelain status lines.
pub fn status_entries_of(ls: &Vec<Vec<u8>>) -> (e: Vec<(Vec<u8>, u8)>)
    ensures
        entries_view(e@) == status_entries(bytes_view(ls@)),
        unique_paths(entries_view(e@)),
{
    let mut e: Vec<(Vec<u8>, u8)> = Vec::new();
    let mut k: usize = 0;
    assert(bytes_view(ls@).take(0) =~= Seq::<Seq<u8>>::empty());
    assert(entries_view(e@) =~= Seq::<(Seq<u8>, u8)>::empty());
    while k < ls.len()
        invariant
            k <= ls@.len(),
            entries_view(e@) == status_entries(bytes_view(ls@).take(k as int)),
            unique_paths(entries_view(e@)),
        decreases ls@.len() - k,
    {
        let ghost t = bytes_view(ls@).take(k + 1);
        assert(t.drop_last() =~= bytes_view(ls@).take(k as int));
        assert(t.last() == ls@[k as int]@);
        let l = &ls[k];
        if l.len() >= 3 {
            let code: u8 = if l[0] == 63u8 {
                63u8
            } else if l[0] != 32u8 {
                l[0]
            } else {
                l[1]
            };
            let p = trimmed_from(l.as_slice(), 3);
            upsert_entry(&mut e, p, code);
        }
        k = k + 1;
    }
    assert(bytes_view(ls@).take(k as int) =~= bytes_view(ls@));
    e
}


/// A changed file as the library computes it: raw path bytes and status letter.
pub struct FileRecord {
    pub path: Vec<u8>,
    pub lines_added: u32,
    pub lines_removed: u32,
    pub status: u8,
}

impl View for FileRecord {
    type V = RecordModel;

    open spec fn view(&self) -> RecordModel {
        (self.path@, self.lines_added, self.lines_removed, self.status)
    }
}

impl FileRecord {
    fn copy(&self) -> (r: FileRecord)
        ensures
            r@ == self@,
    {
        FileRecord {
            path: copy_bytes(self.path.as_slice()),
            lines_added: self.lines_added,
            lines_removed: self.lines_removed,
            status: self.status,
        }
    }
}

pub open spec fn records_view(v: Seq<FileRecord>) -> Seq<RecordModel> {
    v.map_values(|r: FileRecord| r@)
}

/// A line count of the numeric diff summary.
pub fn parse_count(s: &[u8]) -> (r: u32)
    ensures
        r == count_of(s@),
{
    let start: usize = if s.len() > 0 && s[0] == 43u8 {
        1
    } else {
        0
    };
    let ghost d = sign_stripped(s@);
    assert(d =~= s@.skip(start as int));
    if start == s.len() {
        return 0;
    }
    let mut acc: u64 = 0;
    let mut i: usize = start;
    assert(s@.subrange(start as int, start as int) =~= Seq::<u8>::empty());
    while i < s.len()
        invariant
            start <= i <= s@.len(),
            d == s@.skip(start as int),
            d == sign_stripped(s@),
            acc == digits_value(s@.subrange(start as int, i as int)),
            acc <= u32::MAX,
            forall|m: int| start <= m < i ==> is_digit(#[trigger] s@[m]),
        decreases s@.len() - i,
    {
        let ghost pre = s@.subrange(start as int, i as int);
        let ghost nxt = s@.subrange(start as int, i + 1);
        assert(nxt.drop_last() =~= pre);
        assert(d[i - start] == s@[i as int]);
        if s[i] < 48u8 || s[i] > 57u8 {
            assert(!is_digit(d[i - start]));
            assert(!(forall|m: int| 0 <= m < d.len() ==> is_digit(#[trigger] d[m])));
            assert(count_of(s@) == 0);
            return 0;
        }
        assert(nxt.last() == s@[i as int]);
        assert(digits_value(nxt) == digits_value(pre) * 10 + (s@[i as int] - 48) as nat);
        acc = acc * 10 + (s[i] - 48u8) as u64;
        i = i + 1;
        if acc > 4294967295u64 {
            proof {
                lemma_digits_grow(d, i - start);
                assert(d.take(i - start) =~= nxt);
                assert(digits_value(d) > u32::MAX);
                assert(count_of(s@) == 0);
            }
            return 0;
        }
    }
    assert(s@.subrange(start as int, i as int) =~= d);
    acc as u32
}

proof fn lemma_digits_grow(d: Seq<u8>, k: int)
    requires
        0 <= k <= d.len(),
    ensures
        digits_value(d.take(k)) <= digits_value(d),
    decreases d.len() - k,
{
    if k < d.len() {
        lemma_digits_grow(d, k + 1);
        assert(d.take(k + 1).drop_last() =~= d.take(k));
    } else {
        assert(d.take(k) =~= d);
    }
}

fn lookup_exec(e: &Vec<(Vec<u8>, u8)>, p: &[u8]) -> (r: u8)
    requires
        unique_paths(entries_view(e@)),
    ensures
        r == lookup_status(entries_view(e@), p@),
{
    match find_entry(e, p) {
        Some(i) => {
            proof { lemma_index_unique(entries_view(e@), p@, i as int); }
            e[i].1
        },
        None => 77u8,
    }
}

/// The records of numeric diff summary lines, with statuses from the mapping `e`.
pub fn diff_records_of(ls: &Vec<Vec<u8>>, e: &Vec<(Vec<u8>, u8)>) -> (r: Vec<FileRecord>)
    requires
        unique_paths(entries_view(e@)),
    ensures
        records_view(r@) == diff_records(bytes_view(ls@), entries_view(e@)),
{
    let mut out: Vec<FileRecord> = Vec::new();
    let mut k: usize = 0;
    assert(bytes_view(ls@).take(0) =~= Seq::<Seq<u8>>::empty());
    assert(records_view(out@) =~= Seq::<RecordModel>::empty());
    while k < ls.len()
        invariant
            k <= ls@.len(),
            unique_paths(entries_view(e@)),
            records_view(out@) == diff_records(bytes_view(ls@).take(k as int), entries_view(e@)),
        decreases ls@.len() - k,
    {
        let ghost t = bytes_view(ls@).take(k + 1);
        assert(t.drop_last() =~= bytes_view(ls@).take(k as int));
        assert(t.last() == ls@[k as int]@);
        let parts = split_bytes(ls[k].as_slice(), 9u8);
        if parts.len() >= 3 {
            let added = parse_count(parts[0].as_slice());
            let removed = parse_count(parts[1].as_slice());
            let status = lookup_exec(e, parts[2].as_slice());
            let path = copy_bytes(parts[2].as_slice());
            let ghost before = out@;
            out.push(FileRecord { path, lines_added: added, lines_removed: removed, status });
            assert(records_view(out@) =~= records_view(before).push(out@.last()@));
        }
        k = k + 1;
    }
    assert(bytes_view(ls@).take(k as int) =~= bytes_view(ls@));
    out
}

fn has_record(recs: &Vec<FileRecord>, n: usize, p: &[u8]) -> (r: bool)
    requires
        n <= recs@.len(),
    ensures
        r == in_records(records_view(recs@).take(n as int), p@),
{
    let mut i: usize = 0;
    while i < n
        invariant
            n <= recs@.len(),
            i <= n,
            forall|m: int| 0 <= m < i ==> #[trigger] records_view(recs@)[m].0 != p@,
        decreases recs@.len() - i,
    {
        if bytes_eq(recs[i].path.as_slice(), p) {
            assert(records_view(recs@).take(n as int)[i as int].0 == p@);
            return true;
        }
        i = i + 1;
    }
    assert forall|m: int| 0 <= m < n implies #[trigger] records_view(recs@).take(n as int)[m].0
        != p@ by {
        assert(records_view(recs@).take(n as int)[m] == records_view(recs@)[m]);
    }
    false
}

/// Appends to `out` the entries of `e` that have no record in it, with no line counts.
pub fn append_unseen(e: &Vec<(Vec<u8>, u8)>, out: &mut Vec<FileRecord>)
    ensures
        records_view(final(out)@) == records_view(old(out)@) + unseen(
            entries_view(e@),
            records_view(old(out)@),
        ),
{
    let ghost d = records_view(out@);
    let n = out.len();
    let mut k: usize = 0;
    assert(entries_view(e@).take(0) =~= Seq::<(Seq<u8>, u8)>::empty());
    assert(records_view(out@) =~= d + unseen(entries_view(e@).take(0), d));
    while k < e.len()
        invariant
            k <= e@.len(),
            n == d.len(),
            n <= out@.len(),
            records_view(out@).take(n as int) == d,
            records_view(out@) == d + unseen(entries_view(e@).take(k as int), d),
        decreases e@.len() - k,
    {
        let ghost t = entries_view(e@).take(k + 1);
        assert(t.drop_last() =~= entries_view(e@).take(k as int));
        assert(t.last() == (e@[k as int].0@, e@[k as int].1));
        let seen = has_record(out, n, e[k].0.as_slice());
        if !seen {
            let ghost before = out@;
            let path = copy_bytes(e[k].0.as_slice());
            out.push(FileRecord { path, lines_added: 0, lines_removed: 0, status: e[k].1 });
            assert(records_view(out@) =~= records_view(before).push(out@.last()@));
            assert(records_view(out@).take(n as int) =~= records_view(before).take(n as int));
        }
        k = k + 1;
        assert(records_view(out@) =~= d + unseen(entries_view(e@).take(k as int), d));
    }
    assert(entries_view(e@).take(k as int) =~= entries_view(e@));
}


/// Byte-wise lexicographic order: `a` is `b` or comes before it.
pub open spec fn lex_le(a: Seq<u8>, b: Seq<u8>) -> bool
    decreases a.len(),
{
    if a.len() == 0 {
        true
    } else if b.len() == 0 {
        false
    } else if a[0] < b[0] {
        true
    } else if a[0] > b[0] {
        false
    } else {
        lex_le(a.drop_first(), b.drop_first())
    }
}

pub proof fn lemma_lex_total(a: Seq<u8>, b: Seq<u8>)
    ensures
        lex_le(a, b) || lex_le(b, a),
    decreases a.len(),
{
    if a.len() > 0 && b.len() > 0 && a[0] == b[0] {
        lemma_lex_total(a.drop_first(), b.drop_first());
    }
}

pub proof fn lemma_lex_trans(a: Seq<u8>, b: Seq<u8>, c: Seq<u8>)
    requires
        lex_le(a, b),
        lex_le(b, c),
    ensures
        lex_le(a, c),
    decreases a.len(),
{
    if a.len() > 0 && b.len() > 0 && c.len() > 0 && a[0] == b[0] && b[0] == c[0] {
        lemma_lex_trans(a.drop_first(), b.drop_first(), c.drop_first());
    }
}

/// The records are in ascending order of path.
pub open spec fn sorted_by_path(v: Seq<RecordModel>) -> bool {
    forall|i: int, j: int| 0 <= i < j < v.len() ==> lex_le(#[trigger] v[i].0, #[trigger] v[j].0)
}

/// Whether `a` is `b` or comes before it, byte-wise.
pub fn path_le(a: &[u8], b: &[u8]) -> (r: bool)
    ensures
        r == lex_le(a@, b@),
{
    let mut i: usize = 0;
    assert(a@.skip(0) =~= a@);
    assert(b@.skip(0) =~= b@);
    while i < a.len() && i < b.len() && a[i] == b[i]
        invariant
            i <= a@.len(),
            i <= b@.len(),
            lex_le(a@, b@) == lex_le(a@.skip(i as int), b@.skip(i as int)),
        decreases a@.len() - i,
    {
        assert(a@.skip(i as int).drop_first() =~= a@.skip(i + 1));
        assert(b@.skip(i as int).drop_first() =~= b@.skip(i + 1));
        i = i + 1;
    }
    if i == a.len() {
        true
    } else if i == b.len() {
        false
    } else {
        assert(a@.skip(i as int)[0] == a@[i as int]);
        assert(b@.skip(i as int)[0] == b@[i as int]);
        a[i] < b[i]
    }
}

/// The records in ascending order of path; records with equal paths keep their order.
pub fn sort_by_path(v: &Vec<FileRecord>) -> (r: Vec<FileRecord>)
    ensures
        sorted_by_path(records_view(r@)),
        records_view(r@).to_multiset() == records_view(v@).to_multiset(),
{
    let mut out: Vec<FileRecord> = Vec::new();
    let mut k: usize = 0;
    assert(records_view(v@).take(0) =~= Seq::<RecordModel>::empty());
    assert(records_view(out@) =~= Seq::<RecordModel>::empty());
    while k < v.len()
        invariant
            k <= v@.len(),
            sorted_by_path(records_view(out@)),
            records_view(out@).to_multiset() == records_view(v@).take(k as int).to_multiset(),
        decreases v@.len() - k,
    {
        let x = v[k].copy();
        let ghost xv = x@;
        let mut j: usize = 0;
        while j < out.len() && path_le(out[j].path.as_slice(), x.path.as_slice())
            invariant
                j <= out@.len(),
                x@ == xv,
                forall|m: int| 0 <= m < j ==> lex_le(#[trigger] records_view(out@)[m].0, xv.0),
            decreases out@.len() - j,
        {
            j = j + 1;
        }
        let ghost before = records_view(out@);
        proof {
            if j < before.len() {
                lemma_lex_total(before[j as int].0, xv.0);
                assert forall|m: int| j <= m < before.len() implies lex_le(xv.0, #[trigger] before[m].0) by {
                    if m > j {
                        lemma_lex_trans(xv.0, before[j as int].0, before[m].0);
                    }
                }
            }
        }
        out.insert(j, x);
        let ghost after = records_view(out@);
        assert(after =~= before.insert(j as int, xv));
        assert(sorted_by_path(after)) by {
            assert forall|a: int, b: int| 0 <= a < b < after.len() implies lex_le(
                #[trigger] after[a].0,
                #[trigger] after[b].0,
            ) by {
                if b < j {
                } else if b == j {
                } else if a < j {
                    lemma_lex_trans(before[a].0, xv.0, before[b - 1].0);
                } else if a == j {
                } else {
                }
            }
        }
        proof {
            broadcast use vstd::seq_lib::group_to_multiset_ensures;
            broadcast use vstd::multiset::group_multiset_axioms;
            assert(before =~= before.take(j as int) + before.skip(j as int));
            assert(after =~= before.take(j as int) + (seq![xv] + before.skip(j as int)));
            lemma_multiset_commutative(before.take(j as int), before.skip(j as int));
            lemma_multiset_commutative(before.take(j as int), seq![xv] + before.skip(j as int));
            lemma_multiset_commutative(seq![xv], before.skip(j as int));
            assert(seq![xv] =~= Seq::<RecordModel>::empty().push(xv));
            let tk = records_view(v@).take(k + 1);
            assert(tk =~= records_view(v@).take(k as int).push(xv));
            assert(seq![xv].to_multiset() =~= Multiset::<RecordModel>::empty().insert(xv));
            assert(after.to_multiset() =~= before.to_multiset().insert(xv));
            assert(after.to_multiset() =~= tk.to_multiset());
        }
        k = k + 1;
    }
    assert(records_view(v@).take(k as int) =~= records_view(v@));
    out
}

/// The change set of a working directory, from the output of a porcelain status
/// listing and of a numeric diff summary against the head commit: one record per
/// summary line, then one without line counts per status entry that has no summary
/// line, all in ascending order of path.
pub fn change_records(status_out: &[u8], numstat_out: &[u8]) -> (r: Vec<FileRecord>)
    ensures
        sorted_by_path(records_view(r@)),
        records_view(r@).to_multiset() == change_set(status_out@, numstat_out@).to_multiset(),
{
    let status_lines = text_lines(status_out);
    let entries = status_entries_of(&status_lines);
    let diff_lines = text_lines(numstat_out);
    let mut files = diff_records_of(&diff_lines, &entries);
    append_unseen(&entries, &mut files);
    sort_by_path(&files)
}


/// A changed file of a working directory, repository-relative.
#[derive(Debug, Clone, PartialEq, Eq)]
pub struct ChangedFile {
    pub path: String,
    pub lines_added: u32,
    pub lines_removed: u32,
    pub status: String,
}

/// `f` is the text form of the record `m`.
pub open spec fn shows(f: ChangedFile, m: RecordModel) -> bool {
    f.path@ == lossy_text(m.0) && f.lines_added == m.1 && f.lines_removed == m.2 && f.status@
        == lossy_text(seq![m.3])
}

/// `files` are the text forms of `recs`, one for one.
pub open spec fn shows_all(files: Seq<ChangedFile>, recs: Seq<RecordModel>) -> bool {
    files.len() == recs.len() && forall|i: int| 0 <= i < recs.len() ==> shows(#[trigger] files[i], recs[i])
}

/// The change set of a working directory from the output of `status --porcelain`
/// and of `diff --numstat HEAD`: the records of `change_records`, in its order, as text.
pub fn get_changed_files(status_out: &[u8], numstat_out: &[u8]) -> (r: Vec<ChangedFile>)
    ensures
        exists|recs: Seq<RecordModel>|
            sorted_by_path(recs) && recs.to_multiset() == change_set(status_out@, numstat_out@).to_multiset()
                && shows_all(r@, recs),
{
    let recs = change_records(status_out, numstat_out);
    let mut out: Vec<ChangedFile> = Vec::new();
    let mut i: usize = 0;
    while i < recs.len()
        invariant
            i <= recs@.len(),
            out@.len() == i,
            forall|m: int| 0 <= m < i ==> shows(#[trigger] out@[m], records_view(recs@)[m]),
        decreases recs@.len() - i,
    {
        let rec = &recs[i];
        let status_byte: Vec<u8> = vec![rec.status];
        assert(status_byte@ =~= seq![rec.status]);
        let f = ChangedFile {
            path: text_of(rec.path.as_slice()),
            lines_added: rec.lines_added,
            lines_removed: rec.lines_removed,
            status: text_of(status_byte.as_slice()),
        };
        out.push(f);
        i = i + 1;
    }
    assert(shows_all(out@, records_view(recs@)));
    out
}

} // verus!
