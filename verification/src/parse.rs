use vstd::prelude::*;
use vstd::string::StrSliceExecFns;

verus! {

/// ASCII whitespace: the separators in sampler rows and around operator
/// input.
pub open spec fn is_ws(c: char) -> bool {
    c == ' ' || c == '\t' || c == '\r' || c == '\n' || c == '\u{b}' || c == '\u{c}'
}

/// ASCII decimal digit.
pub open spec fn is_digit(c: char) -> bool {
    48 <= c as u32 && c as u32 <= 57
}

/// The numeric value of an ASCII decimal digit.
pub open spec fn digit_val(c: char) -> int {
    c as u32 - 48
}

pub fn ws_char(c: char) -> (r: bool)
    ensures
        r == is_ws(c),
{
    c == ' ' || c == '\t' || c == '\r' || c == '\n' || c == '\u{b}' || c == '\u{c}'
}

pub fn digit_char(c: char) -> (r: bool)
    ensures
        r == is_digit(c),
{
    let u = c as u32;
    48 <= u && u <= 57
}

pub(crate) fn digit_value(c: char) -> (r: u32)
    requires
        is_digit(c),
    ensures
        r == digit_val(c),
{
    c as u32 - 48
}

/// The characters of a string, so that positions can be scanned by index.
pub fn chars_of(s: &str) -> (v: Vec<char>)
    ensures
        v@ == s@,
{
    let n = s.unicode_len();
    let mut v: Vec<char> = Vec::new();
    let mut i: usize = 0;
    while i < n
        invariant
            i <= n,
            n == s@.len(),
            v@ =~= s@.take(i as int),
        decreases n - i,
    {
        v.push(s.get_char(i));
        i = i + 1;
        proof {
            assert(v@ =~= s@.take(i as int));
        }
    }
    proof {
        assert(v@ =~= s@);
    }
    v
}

/// Index of the first character satisfying `pred`, or the length if none
/// does.
pub open spec fn find_first(s: Seq<char>, pred: spec_fn(char) -> bool) -> nat
    decreases s.len(),
{
    if s.len() == 0 {
        0
    } else if pred(s[0]) {
        0
    } else {
        (1 + find_first(s.drop_first(), pred)) as nat
    }
}

pub proof fn lemma_find_first_le(s: Seq<char>, pred: spec_fn(char) -> bool)
    ensures
        find_first(s, pred) <= s.len(),
    decreases s.len(),
{
    if s.len() > 0 && !pred(s[0]) {
        lemma_find_first_le(s.drop_first(), pred);
    }
}

pub proof fn lemma_find_first_is(s: Seq<char>, pred: spec_fn(char) -> bool, i: int)
    requires
        0 <= i <= s.len(),
        forall|k: int| 0 <= k < i ==> !pred(#[trigger] s[k]),
        i < s.len() ==> pred(s[i]),
    ensures
        find_first(s, pred) == i,
    decreases i,
{
    if i == 0 {
    } else {
        lemma_find_first_is(s.drop_first(), pred, i - 1);
    }
}

/// All characters are digits.
pub open spec fn all_digits(s: Seq<char>) -> bool {
    forall|i: int| 0 <= i < s.len() ==> is_digit(#[trigger] s[i])
}

/// The value of a digit run, most significant digit first.
pub open spec fn digits_val(s: Seq<char>) -> int
    decreases s.len(),
{
    if s.len() == 0 {
        0
    } else {
        digits_val(s.drop_last()) * 10 + digit_val(s.last())
    }
}

pub proof fn lemma_digits_val_nonneg(s: Seq<char>)
    requires
        all_digits(s),
    ensures
        digits_val(s) >= 0,
    decreases s.len(),
{
    if s.len() > 0 {
        lemma_digits_val_nonneg(s.drop_last());
    }
}

/// A digit run is worth at least any of its prefixes.
pub proof fn lemma_digits_val_grows(s: Seq<char>, i: int)
    requires
        all_digits(s),
        0 <= i <= s.len(),
    ensures
        digits_val(s) >= digits_val(s.take(i)),
    decreases s.len(),
{
    if i == s.len() {
        assert(s.take(i) =~= s);
    } else {
        let head = s.drop_last();
        lemma_digits_val_nonneg(head);
        lemma_digits_val_grows(head, i);
        assert(head.take(i) =~= s.take(i));
    }
}

/// Check that `[lo, hi)` holds only digits.
pub fn check_all_digits(v: &Vec<char>, lo: usize, hi: usize) -> (r: bool)
    requires
        lo <= hi <= v@.len(),
    ensures
        r == all_digits(v@.subrange(lo as int, hi as int)),
{
    let ghost s = v@.subrange(lo as int, hi as int);
    let mut i = lo;
    while i < hi
        invariant
            lo <= i <= hi <= v@.len(),
            s == v@.subrange(lo as int, hi as int),
            forall|k: int| 0 <= k < i - lo ==> is_digit(#[trigger] s[k]),
        decreases hi - i,
    {
        if !digit_char(v[i]) {
            proof {
                assert(s[i - lo] == v@[i as int]);
            }
            return false;
        }
        proof {
            assert(s[i - lo] == v@[i as int]);
        }
        i = i + 1;
    }
    true
}

/// The value of the digit run `[lo, hi)` as long as it does not exceed
/// `cap`; `None` reports that it does.
pub(crate) fn digits_value_capped(v: &Vec<char>, lo: usize, hi: usize, cap: u64) -> (r: Option<u64>)
    requires
        lo <= hi <= v@.len(),
        all_digits(v@.subrange(lo as int, hi as int)),
        cap <= 4000000000,
    ensures
        match r {
            Some(x) => x == digits_val(v@.subrange(lo as int, hi as int)) && x <= cap,
            None => digits_val(v@.subrange(lo as int, hi as int)) > cap,
        },
{
    let ghost s = v@.subrange(lo as int, hi as int);
    let mut acc: u64 = 0;
    let mut i = lo;
    while i < hi
        invariant
            lo <= i <= hi <= v@.len(),
            s == v@.subrange(lo as int, hi as int),
            all_digits(s),
            cap <= 4000000000,
            acc == digits_val(s.take(i - lo)),
            acc <= cap,
        decreases hi - i,
    {
        proof {
            assert(s[i - lo] == v@[i as int]);
            assert(s.take(i - lo + 1).drop_last() =~= s.take(i - lo));
        }
        let d = digit_value(v[i]);
        acc = acc * 10 + d as u64;
        i = i + 1;
        if acc > cap {
            proof {
                lemma_digits_val_grows(s, i - lo);
            }
            return None;
        }
    }
    proof {
        assert(s.take(hi - lo) =~= s);
    }
    Some(acc)
}

/// How a decimal integer reads: an optional sign, then at least one digit,
/// and a value that fits the type. This is what the standard library's
/// integer parse accepts.
pub open spec fn parse_i32_spec(s: Seq<char>) -> Option<i32> {
    let signed = s.len() > 0 && (s[0] == '+' || s[0] == '-');
    let neg = s.len() > 0 && s[0] == '-';
    let mag = if signed {
        s.drop_first()
    } else {
        s
    };
    if mag.len() > 0 && all_digits(mag) {
        let val = if neg {
            -digits_val(mag)
        } else {
            digits_val(mag)
        };
        if i32::MIN <= val <= i32::MAX {
            Some(val as i32)
        } else {
            None
        }
    } else {
        None
    }
}

/// Parse `[lo, hi)` as a decimal 32-bit integer.
pub fn parse_i32_range(v: &Vec<char>, lo: usize, hi: usize) -> (r: Option<i32>)
    requires
        lo <= hi <= v@.len(),
    ensures
        r == parse_i32_spec(v@.subrange(lo as int, hi as int)),
{
    let ghost s = v@.subrange(lo as int, hi as int);
    if lo == hi {
        return None;
    }
    let first = v[lo];
    proof {
        assert(s[0] == v@[lo as int]);
    }
    let signed = first == '+' || first == '-';
    let neg = first == '-';
    let mlo = if signed {
        lo + 1
    } else {
        lo
    };
    proof {
        if signed {
            assert(s.drop_first() =~= v@.subrange(mlo as int, hi as int));
        } else {
            assert(s =~= v@.subrange(mlo as int, hi as int));
        }
    }
    if mlo == hi {
        return None;
    }
    if !check_all_digits(v, mlo, hi) {
        return None;
    }
    let ghost mag = v@.subrange(mlo as int, hi as int);
    proof {
        lemma_digits_val_nonneg(mag);
    }
    match digits_value_capped(v, mlo, hi, 2147483648) {
        None => None,
        Some(x) => {
            if neg {
                Some((-(x as i64)) as i32)
            } else {
                if x > 2147483647 {
                    None
                } else {
                    Some(x as i32)
                }
            }
        },
    }
}

/// First non-whitespace position in `[from, hi)`, or `hi`.
pub(crate) fn skip_ws_from(v: &Vec<char>, from: usize, hi: usize) -> (r: usize)
    requires
        from <= hi <= v@.len(),
    ensures
        from <= r <= hi,
        forall|k: int| from <= k < r ==> is_ws(#[trigger] v@[k]),
        r < hi ==> !is_ws(v@[r as int]),
{
    let mut i = from;
    while i < hi && ws_char(v[i])
        invariant
            from <= i <= hi <= v@.len(),
            forall|k: int| from <= k < i ==> is_ws(#[trigger] v@[k]),
        decreases hi - i,
    {
        i = i + 1;
    }
    i
}

/// First whitespace position in `[from, hi)`, or `hi`.
pub(crate) fn token_end_from(v: &Vec<char>, from: usize, hi: usize) -> (r: usize)
    requires
        from <= hi <= v@.len(),
    ensures
        from <= r <= hi,
        forall|k: int| from <= k < r ==> !is_ws(#[trigger] v@[k]),
        r < hi ==> is_ws(v@[r as int]),
{
    let mut i = from;
    while i < hi && !ws_char(v[i])
        invariant
            from <= i <= hi <= v@.len(),
            forall|k: int| from <= k < i ==> !is_ws(#[trigger] v@[k]),
        decreases hi - i,
    {
        i = i + 1;
    }
    i
}

/// First position of `c` in `[from, hi)`, or `hi`.
pub(crate) fn find_char_from(v: &Vec<char>, from: usize, hi: usize, c: char) -> (r: usize)
    requires
        from <= hi <= v@.len(),
    ensures
        from <= r <= hi,
        forall|k: int| from <= k < r ==> #[trigger] v@[k] != c,
        r < hi ==> v@[r as int] == c,
{
    let mut i = from;
    while i < hi && v[i] != c
        invariant
            from <= i <= hi <= v@.len(),
            forall|k: int| from <= k < i ==> #[trigger] v@[k] != c,
        decreases hi - i,
    {
        i = i + 1;
    }
    i
}

/// The input with leading whitespace removed.
pub open spec fn ltrim(s: Seq<char>) -> Seq<char>
    decreases s.len(),
{
    if s.len() > 0 && is_ws(s[0]) {
        ltrim(s.drop_first())
    } else {
        s
    }
}

/// The input with trailing whitespace removed.
pub open spec fn rtrim(s: Seq<char>) -> Seq<char>
    decreases s.len(),
{
    if s.len() > 0 && is_ws(s.last()) {
        rtrim(s.drop_last())
    } else {
        s
    }
}

/// The input with surrounding whitespace removed.
pub open spec fn trimmed(s: Seq<char>) -> Seq<char> {
    rtrim(ltrim(s))
}

proof fn lemma_ltrim_at(s: Seq<char>, i: int)
    requires
        0 <= i <= s.len(),
        forall|k: int| 0 <= k < i ==> is_ws(#[trigger] s[k]),
        i < s.len() ==> !is_ws(s[i]),
    ensures
        ltrim(s) == s.skip(i),
    decreases i,
{
    if i == 0 {
        assert(s.skip(0) =~= s);
    } else {
        lemma_ltrim_at(s.drop_first(), i - 1);
        assert(s.drop_first().skip(i - 1) =~= s.skip(i));
    }
}

proof fn lemma_rtrim_at(s: Seq<char>, j: int)
    requires
        0 <= j <= s.len(),
        forall|k: int| j <= k < s.len() ==> is_ws(#[trigger] s[k]),
        j > 0 ==> !is_ws(s[j - 1]),
    ensures
        rtrim(s) == s.take(j),
    decreases s.len() - j,
{
    if j == s.len() {
        if j == 0 {
            assert(s.take(0) =~= s);
        } else {
            assert(s.take(j) =~= s);
        }
    } else {
        lemma_rtrim_at(s.drop_last(), j);
        assert(s.drop_last().take(j) =~= s.take(j));
    }
}

/// The bounds of the whitespace-trimmed middle of the text.
pub fn trim_range(v: &Vec<char>) -> (r: (usize, usize))
    ensures
        r.0 <= r.1 <= v@.len(),
        v@.subrange(r.0 as int, r.1 as int) == trimmed(v@),
{
    let n = v.len();
    let mut lo: usize = 0;
    while lo < n && ws_char(v[lo])
        invariant
            lo <= n,
            n == v@.len(),
            forall|k: int| 0 <= k < lo ==> is_ws(#[trigger] v@[k]),
        decreases n - lo,
    {
        lo = lo + 1;
    }
    let mut hi: usize = n;
    while hi > lo && ws_char(v[hi - 1])
        invariant
            lo <= hi <= n,
            n == v@.len(),
            forall|k: int| hi <= k < n ==> is_ws(#[trigger] v@[k]),
        decreases hi,
    {
        hi = hi - 1;
    }
    proof {
        lemma_ltrim_at(v@, lo as int);
        let mid = v@.skip(lo as int);
        lemma_rtrim_at(mid, hi - lo);
        assert(mid.take(hi - lo) =~= v@.subrange(lo as int, hi as int));
    }
    (lo, hi)
}

} // verus!
