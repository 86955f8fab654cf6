use vstd::prelude::*;
use crate::parse::all_digits;
use crate::parse::chars_of;
use crate::parse::check_all_digits;
use crate::parse::digit_val;
use crate::parse::digit_value;
use crate::parse::digits_val;
use crate::parse::digits_value_capped;
use crate::parse::find_char_from;
use crate::parse::find_first;
use crate::parse::is_digit;
use crate::parse::is_ws;
use crate::parse::lemma_digits_val_nonneg;
use crate::parse::lemma_find_first_is;
use crate::parse::lemma_find_first_le;
use crate::parse::parse_i32_range;
use crate::parse::parse_i32_spec;
use crate::parse::skip_ws_from;
use crate::parse::token_end_from;
use crate::parse::ws_char;

verus! {

/// The map that a sequence of `(pid, tenths)` entries denotes. Entries are
/// applied in order, so a later entry for a PID overrides an earlier one.
pub open spec fn entries_map(s: Seq<(i32, u32)>) -> Map<i32, u32>
    decreases s.len(),
{
    if s.len() == 0 {
        Map::empty()
    } else {
        entries_map(s.drop_last()).insert(s.last().0, s.last().1)
    }
}

/// PID -> CPU usage (in tenths of a percent), as sampled by the secondary
/// CPU source. Kept as an insertion-ordered list of entries; the view is
/// the map those entries denote, with the last entry for a PID winning.
pub struct CpuMap {
    entries: Vec<(i32, u32)>,
}

impl View for CpuMap {
    type V = Map<i32, u32>;

    closed spec fn view(&self) -> Map<i32, u32> {
        entries_map(self.entries@)
    }
}

proof fn lemma_entries_map_absent(s: Seq<(i32, u32)>, pid: i32)
    requires
        forall|k: int| 0 <= k < s.len() ==> (#[trigger] s[k]).0 != pid,
    ensures
        !entries_map(s).contains_key(pid),
    decreases s.len(),
{
    if s.len() > 0 {
        lemma_entries_map_absent(s.drop_last(), pid);
    }
}

proof fn lemma_entries_map_found(s: Seq<(i32, u32)>, j: int, pid: i32)
    requires
        0 <= j < s.len(),
        s[j].0 == pid,
        forall|k: int| j < k < s.len() ==> (#[trigger] s[k]).0 != pid,
    ensures
        entries_map(s).contains_key(pid),
        entries_map(s)[pid] == s[j].1,
    decreases s.len(),
{
    if j < s.len() - 1 {
        lemma_entries_map_found(s.drop_last(), j, pid);
    }
}

impl CpuMap {
    /// An empty map: every lookup falls back to 0.
    pub fn new() -> (m: CpuMap)
        ensures
            m@ == Map::<i32, u32>::empty(),
    {
        CpuMap { entries: Vec::new() }
    }

    /// Record a sampled CPU value for a PID, overriding any earlier one.
    pub fn insert(&mut self, pid: i32, tenths: u32)
        ensures
            final(self)@ == old(self)@.insert(pid, tenths),
    {
        self.entries.push((pid, tenths));
        proof {
            assert(self.entries@.drop_last() =~= old(self).entries@);
        }
    }

    /// The authoritative CPU value for a PID: the sampled value when
    /// present, else 0.
    pub fn cpu_for(&self, pid: i32) -> (r: u32)
        ensures
            r == (if self@.contains_key(pid) {
                self@[pid]
            } else {
                0u32
            }),
    {
        let mut i: usize = self.entries.len();
        while i > 0
            invariant
                i <= self.entries.len(),
                forall|k: int|
                    i <= k < self.entries@.len() ==> (#[trigger] self.entries@[k]).0 != pid,
            decreases i,
        {
            i = i - 1;
            let e = self.entries[i];
            if e.0 == pid {
                proof {
                    lemma_entries_map_found(self.entries@, i as int, pid);
                }
                return e.1;
            }
        }
        proof {
            lemma_entries_map_absent(self.entries@, pid);
        }
        0
    }
}

/// Whitespace, as a predicate value for `find_first`.
pub open spec fn ws_pred() -> spec_fn(char) -> bool {
    |c: char| is_ws(c)
}

/// A line break, as a predicate value for `find_first`.
pub open spec fn nl_pred() -> spec_fn(char) -> bool {
    |c: char| c == '\n'
}

/// A decimal point, as a predicate value for `find_first`.
pub open spec fn dot_pred() -> spec_fn(char) -> bool {
    |c: char| c == '.'
}

/// The whitespace-separated tokens of a line, in order.
pub open spec fn tokens(s: Seq<char>) -> Seq<Seq<char>>
    decreases s.len(),
    via tokens_decreases
{
    if s.len() == 0 {
        Seq::empty()
    } else if is_ws(s[0]) {
        tokens(s.drop_first())
    } else {
        let j = find_first(s, ws_pred()) as int;
        seq![s.take(j)] + tokens(s.skip(j))
    }
}

#[via_fn]
proof fn tokens_decreases(s: Seq<char>) {
    if s.len() > 0 && !is_ws(s[0]) {
        lemma_find_first_le(s, ws_pred());
        assert(!ws_pred()(s[0]));
    }
}

/// A line with one trailing carriage return removed, as the standard
/// line iterator reads it.
pub open spec fn strip_cr(l: Seq<char>) -> Seq<char> {
    if l.len() > 0 && l.last() == '\r' {
        l.drop_last()
    } else {
        l
    }
}

/// The lines of a text: split at line feeds, no empty final line after a
/// trailing line feed, one trailing carriage return per line removed.
pub open spec fn split_lines(s: Seq<char>) -> Seq<Seq<char>>
    decreases s.len(),
    via split_lines_decreases
{
    if s.len() == 0 {
        Seq::empty()
    } else {
        let j = find_first(s, nl_pred()) as int;
        if j >= s.len() {
            seq![strip_cr(s)]
        } else {
            seq![strip_cr(s.take(j))] + split_lines(s.skip(j + 1))
        }
    }
}

#[via_fn]
proof fn split_lines_decreases(s: Seq<char>) {
}

/// CPU usage as the sampler prints it: digits, optionally one decimal
/// point followed by more digits. The value in tenths of a percent keeps
/// the first fractional digit and truncates the rest; a value that does
/// not fit is rejected.
pub open spec fn parse_tenths_spec(s: Seq<char>) -> Option<u32> {
    let j = find_first(s, dot_pred()) as int;
    if j >= s.len() {
        if s.len() > 0 && all_digits(s) && digits_val(s) * 10 <= u32::MAX {
            Some((digits_val(s) * 10) as u32)
        } else {
            None
        }
    } else {
        let ip = s.take(j);
        let fp = s.skip(j + 1);
        if ip.len() > 0 && fp.len() > 0 && all_digits(ip) && all_digits(fp) {
            let t = digits_val(ip) * 10 + digit_val(fp[0]);
            if t <= u32::MAX {
                Some(t as u32)
            } else {
                None
            }
        } else {
            None
        }
    }
}

/// What one sampler row contributes: its first token read as the PID and
/// its second as the CPU value, or nothing if the row is malformed.
pub open spec fn row_entry(line: Seq<char>) -> Option<(i32, u32)> {
    let ts = tokens(line);
    if ts.len() < 2 {
        None
    } else {
        match (parse_i32_spec(ts[0]), parse_tenths_spec(ts[1])) {
            (Some(pid), Some(tenths)) => Some((pid, tenths)),
            _ => None,
        }
    }
}

/// The data rows of the sampler table: everything after the header line.
pub open spec fn data_rows(lines: Seq<Seq<char>>) -> Seq<Seq<char>> {
    if lines.len() <= 1 {
        Seq::empty()
    } else {
        lines.skip(1)
    }
}

/// The map the data rows denote, applied in order; malformed rows are
/// skipped.
pub open spec fn rows_map(rows: Seq<Seq<char>>) -> Map<i32, u32>
    decreases rows.len(),
{
    if rows.len() == 0 {
        Map::empty()
    } else {
        match row_entry(rows.last()) {
            Some(e) => rows_map(rows.drop_last()).insert(e.0, e.1),
            None => rows_map(rows.drop_last()),
        }
    }
}

/// The map a whole sampler table denotes: header line skipped, each data
/// row parsed, later rows overriding earlier ones.
pub open spec fn cpu_table_spec(text: Seq<char>) -> Map<i32, u32> {
    rows_map(data_rows(split_lines(text)))
}

proof fn lemma_tokens_skip_ws(s: Seq<char>, i: int)
    requires
        0 <= i <= s.len(),
        forall|k: int| 0 <= k < i ==> is_ws(#[trigger] s[k]),
    ensures
        tokens(s) == tokens(s.skip(i)),
    decreases i,
{
    if i > 0 {
        assert(s.drop_first() =~= s.skip(1));
        lemma_tokens_skip_ws(s.skip(1), i - 1);
        assert(s.skip(1).skip(i - 1) =~= s.skip(i));
    } else {
        assert(s.skip(0) =~= s);
    }
}

proof fn lemma_tokens_ws_only(s: Seq<char>)
    requires
        forall|k: int| 0 <= k < s.len() ==> is_ws(#[trigger] s[k]),
    ensures
        tokens(s) == Seq::<Seq<char>>::empty(),
{
    lemma_tokens_skip_ws(s, s.len() as int);
    assert(s.skip(s.len() as int) =~= Seq::<char>::empty());
}

proof fn lemma_tokens_head(s: Seq<char>, j: int)
    requires
        0 < j <= s.len(),
        forall|k: int| 0 <= k < j ==> !is_ws(#[trigger] s[k]),
        j < s.len() ==> is_ws(s[j]),
    ensures
        tokens(s) == seq![s.take(j)] + tokens(s.skip(j)),
{
    assert forall|k: int| 0 <= k < j implies !ws_pred()(s[k]) by {
        assert(!is_ws(s[k]));
    }
    if j < s.len() {
        assert(ws_pred()(s[j]));
    }
    lemma_find_first_is(s, ws_pred(), j);
}

/// Read row `[lo, hi)` of the character buffer.
fn parse_row(v: &Vec<char>, lo: usize, hi: usize) -> (r: Option<(i32, u32)>)
    requires
        lo <= hi <= v@.len(),
    ensures
        r == row_entry(v@.subrange(lo as int, hi as int)),
{
    let ghost line = v@.subrange(lo as int, hi as int);
    let t1lo = skip_ws_from(v, lo, hi);
    if t1lo == hi {
        proof {
            assert forall|k: int| 0 <= k < line.len() implies is_ws(#[trigger] line[k]) by {
                assert(line[k] == v@[lo + k]);
            }
            lemma_tokens_ws_only(line);
        }
        return None;
    }
    let t1hi = token_end_from(v, t1lo, hi);
    proof {
        assert(t1lo < t1hi);
        let a1 = t1lo - lo;
        assert forall|k: int| 0 <= k < a1 implies is_ws(#[trigger] line[k]) by {
            assert(line[k] == v@[lo + k]);
        }
        lemma_tokens_skip_ws(line, a1);
        let s1 = line.skip(a1);
        assert forall|k: int| 0 <= k < t1hi - t1lo implies !is_ws(#[trigger] s1[k]) by {
            assert(s1[k] == v@[t1lo + k]);
        }
        if t1hi < hi {
            assert(s1[t1hi - t1lo] == v@[t1hi as int]);
        }
        lemma_tokens_head(s1, t1hi - t1lo);
        assert(s1.take(t1hi - t1lo) =~= v@.subrange(t1lo as int, t1hi as int));
        assert(s1.skip(t1hi - t1lo) =~= line.skip(t1hi - lo));
    }
    let t2lo = skip_ws_from(v, t1hi, hi);
    if t2lo == hi {
        proof {
            let s2 = line.skip(t1hi - lo);
            assert forall|k: int| 0 <= k < s2.len() implies is_ws(#[trigger] s2[k]) by {
                assert(s2[k] == v@[t1hi + k]);
            }
            lemma_tokens_ws_only(s2);
            assert(tokens(line).len() == 1);
        }
        return None;
    }
    let t2hi = token_end_from(v, t2lo, hi);
    proof {
        assert(t2lo < t2hi);
        let s2 = line.skip(t1hi - lo);
        assert forall|k: int| 0 <= k < t2lo - t1hi implies is_ws(#[trigger] s2[k]) by {
            assert(s2[k] == v@[t1hi + k]);
        }
        lemma_tokens_skip_ws(s2, t2lo - t1hi);
        let s3 = s2.skip(t2lo - t1hi);
        assert(s3 =~= line.skip(t2lo - lo));
        assert forall|k: int| 0 <= k < t2hi - t2lo implies !is_ws(#[trigger] s3[k]) by {
            assert(s3[k] == v@[t2lo + k]);
        }
        if t2hi < hi {
            assert(s3[t2hi - t2lo] == v@[t2hi as int]);
        }
        lemma_tokens_head(s3, t2hi - t2lo);
        assert(s3.take(t2hi - t2lo) =~= v@.subrange(t2lo as int, t2hi as int));
        assert(tokens(line).len() >= 2);
        assert(tokens(line)[0] == v@.subrange(t1lo as int, t1hi as int));
        assert(tokens(line)[1] == v@.subrange(t2lo as int, t2hi as int));
    }
    let pid = parse_i32_range(v, t1lo, t1hi);
    let tenths = parse_tenths_range(v, t2lo, t2hi);
    match (pid, tenths) {
        (Some(p), Some(c)) => Some((p, c)),
        _ => None,
    }
}

/// Read `[lo, hi)` as a sampler CPU value, in tenths of a percent.
fn parse_tenths_range(v: &Vec<char>, lo: usize, hi: usize) -> (r: Option<u32>)
    requires
        lo <= hi <= v@.len(),
    ensures
        r == parse_tenths_spec(v@.subrange(lo as int, hi as int)),
{
    let ghost s = v@.subrange(lo as int, hi as int);
    let dot = find_char_from(v, lo, hi, '.');
    proof {
        assert forall|k: int| 0 <= k < dot - lo implies !dot_pred()(#[trigger] s[k]) by {
            assert(s[k] == v@[lo + k]);
        }
        if dot < hi {
            assert(s[dot - lo] == v@[dot as int]);
            assert(dot_pred()(s[dot - lo]));
        }
        lemma_find_first_is(s, dot_pred(), dot - lo);
    }
    if dot == hi {
        if lo == hi {
            return None;
        }
        if !check_all_digits(v, lo, hi) {
            return None;
        }
        proof {
            lemma_digits_val_nonneg(s);
        }
        match digits_value_capped(v, lo, hi, 429496729) {
            None => None,
            Some(x) => {
                let t = x * 10;
                Some(t as u32)
            },
        }
    } else {
        proof {
            assert(s.take(dot - lo) =~= v@.subrange(lo as int, dot as int));
            assert(s.skip(dot - lo + 1) =~= v@.subrange((dot + 1) as int, hi as int));
        }
        if lo == dot {
            return None;
        }
        if dot + 1 == hi {
            return None;
        }
        if !check_all_digits(v, lo, dot) {
            return None;
        }
        if !check_all_digits(v, dot + 1, hi) {
            return None;
        }
        proof {
            lemma_digits_val_nonneg(s.take(dot - lo));
            assert(s.skip(dot - lo + 1)[0] == v@[(dot + 1) as int]);
            assert(is_digit(v@[(dot + 1) as int]));
        }
        let fd = digit_value(v[dot + 1]);
        match digits_value_capped(v, lo, dot, 429496729) {
            None => None,
            Some(x) => {
                let t = x * 10 + fd as u64;
                if t > 4294967295 {
                    None
                } else {
                    Some(t as u32)
                }
            },
        }
    }
}

proof fn lemma_data_rows_push(lines: Seq<Seq<char>>, l: Seq<char>)
    ensures
        data_rows(lines.push(l)) == if lines.len() == 0 {
            Seq::<Seq<char>>::empty()
        } else {
            data_rows(lines).push(l)
        },
{
    if lines.len() == 0 {
        assert(data_rows(lines.push(l)) =~= Seq::<Seq<char>>::empty());
    } else {
        assert(lines.push(l).skip(1) =~= lines.skip(1).push(l));
    }
}

proof fn lemma_rows_map_push(rows: Seq<Seq<char>>, r: Seq<char>)
    ensures
        rows_map(rows.push(r)) == match row_entry(r) {
            Some(e) => rows_map(rows).insert(e.0, e.1),
            None => rows_map(rows),
        },
{
    assert(rows.push(r).drop_last() =~= rows);
    assert(rows.push(r).last() == r);
}

/// Parse the secondary sampler's whole table: one header line, then rows
/// of `PID CPU%`. Malformed rows are skipped, never fatal; a later row
/// for a PID overrides an earlier one.
pub fn parse_cpu_table(text: &str) -> (m: CpuMap)
    ensures
        m@ == cpu_table_spec(text@),
{
    let v = chars_of(text);
    let n = v.len();
    let mut m = CpuMap::new();
    let mut pos: usize = 0;
    let mut line_idx: usize = 0;
    let ghost mut done: Seq<Seq<char>> = Seq::empty();
    proof {
        assert(text@.skip(0) =~= text@);
        assert(done + split_lines(text@) =~= split_lines(text@));
    }
    while pos < n
        invariant
            pos <= n,
            n == v@.len(),
            v@ == text@,
            line_idx == done.len(),
            line_idx <= pos,
            split_lines(text@) == done + split_lines(text@.skip(pos as int)),
            m@ == rows_map(data_rows(done)),
        decreases n - pos,
    {
        let ghost suffix = text@.skip(pos as int);
        let j = find_char_from(&v, pos, n, '\n');
        proof {
            assert forall|k: int| 0 <= k < j - pos implies !nl_pred()(#[trigger] suffix[k]) by {
                assert(suffix[k] == v@[pos + k]);
            }
            if j < n {
                assert(suffix[j - pos] == v@[j as int]);
                assert(nl_pred()(suffix[j - pos]));
            }
            lemma_find_first_is(suffix, nl_pred(), j - pos);
        }
        let mut hi = j;
        if hi > pos && v[hi - 1] == '\r' {
            hi = hi - 1;
        }
        let ghost raw = text@.subrange(pos as int, j as int);
        let ghost line = text@.subrange(pos as int, hi as int);
        proof {
            assert(raw =~= suffix.take(j - pos));
            if hi < j {
                assert(raw.last() == v@[j - 1]);
                assert(strip_cr(raw) =~= line);
            } else {
                if raw.len() > 0 {
                    assert(raw.last() == v@[j - 1]);
                }
                assert(strip_cr(raw) =~= line);
            }
            if j - pos >= suffix.len() {
                assert(raw =~= suffix);
                assert(split_lines(suffix) == seq![strip_cr(suffix)]);
            } else {
                assert(split_lines(suffix) == seq![strip_cr(suffix.take(j - pos))] + split_lines(
                    suffix.skip(j - pos + 1),
                ));
            }
        }
        if line_idx > 0 {
            let e = parse_row(&v, pos, hi);
            proof {
                lemma_data_rows_push(done, line);
                lemma_rows_map_push(data_rows(done), line);
            }
            match e {
                Some(pc) => m.insert(pc.0, pc.1),
                None => {},
            }
        } else {
            proof {
                lemma_data_rows_push(done, line);
            }
        }
        if j < n {
            proof {
                assert(strip_cr(suffix.take(j - pos)) == line);
                assert(suffix.skip(j - pos + 1) =~= text@.skip((j + 1) as int));
                assert(split_lines(suffix) == seq![line] + split_lines(
                    text@.skip((j + 1) as int),
                ));
                assert(done + (seq![line] + split_lines(text@.skip((j + 1) as int))) =~= (done
                    + seq![line]) + split_lines(text@.skip((j + 1) as int)));
                assert(done.push(line) =~= done + seq![line]);
                done = done.push(line);
            }
            line_idx = line_idx + 1;
            pos = j + 1;
        } else {
            proof {
                assert(split_lines(suffix) == seq![strip_cr(suffix)]);
                assert(strip_cr(suffix) == line);
                assert(done + seq![line] =~= done.push(line));
                assert(text@.skip(n as int) =~= Seq::<char>::empty());
                assert(done.push(line) + split_lines(text@.skip(n as int)) =~= done.push(line));
                done = done.push(line);
            }
            line_idx = line_idx + 1;
            pos = n;
        }
    }
    proof {
        assert(text@.skip(pos as int) =~= Seq::<char>::empty());
        assert(done + split_lines(text@.skip(pos as int)) =~= done);
        assert(done == split_lines(text@));
    }
    m
}

} // verus!
