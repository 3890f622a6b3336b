//! Character level helpers for reading cron strings: trimming, splitting and
//! reading unsigned decimal numbers the way `str::trim`, `str::split` and
//! `str::parse` do.

use vstd::prelude::*;

verus! {

broadcast use vstd::string::group_string_axioms;

/// The characters that `char::is_whitespace` accepts (the Unicode
/// `White_Space` property).
pub open spec fn is_whitespace(c: char) -> bool {
    ||| '\t' <= c <= '\r'
    ||| c == ' '
    ||| c == '\u{85}'
    ||| c == '\u{A0}'
    ||| c == '\u{1680}'
    ||| '\u{2000}' <= c <= '\u{200A}'
    ||| c == '\u{2028}'
    ||| c == '\u{2029}'
    ||| c == '\u{202F}'
    ||| c == '\u{205F}'
    ||| c == '\u{3000}'
}

/// `s` without its leading white space.
pub open spec fn trim_start(s: Seq<char>) -> Seq<char>
    decreases s.len(),
{
    if s.len() > 0 && is_whitespace(s[0]) {
        trim_start(s.drop_first())
    } else {
        s
    }
}

/// `s` without its trailing white space.
pub open spec fn trim_end(s: Seq<char>) -> Seq<char>
    decreases s.len(),
{
    if s.len() > 0 && is_whitespace(s.last()) {
        trim_end(s.drop_last())
    } else {
        s
    }
}

/// `s` without leading and trailing white space, as `str::trim` returns it.
pub open spec fn trim(s: Seq<char>) -> Seq<char> {
    trim_end(trim_start(s))
}

/// The index of the first occurrence of `c` in `s`, as `str::find` gives it
/// (counted in characters).
pub open spec fn find(s: Seq<char>, c: char) -> Option<int>
    decreases s.len(),
{
    if s.len() == 0 {
        None
    } else if s[0] == c {
        Some(0)
    } else {
        match find(s.drop_first(), c) {
            Some(k) => Some(k + 1),
            None => None,
        }
    }
}

/// The pieces of `s` between the occurrences of `sep`, as `str::split` yields them.
pub open spec fn split(s: Seq<char>, sep: char) -> Seq<Seq<char>>
    decreases s.len(),
{
    match find(s, sep) {
        Some(k) => {
            proof {
                lemma_find_in_range(s, sep);
            }
            seq![s.take(k)] + split(s.skip(k + 1), sep)
        },
        None => seq![s],
    }
}

/// An ASCII decimal digit.
pub open spec fn is_digit(c: char) -> bool {
    '0' <= c <= '9'
}

/// The value of a string of decimal digits.
pub open spec fn digits_value(s: Seq<char>) -> nat
    decreases s.len(),
{
    if s.len() == 0 {
        0
    } else {
        digits_value(s.drop_last()) * 10 + (s.last() as nat - '0' as nat) as nat
    }
}

/// What `str::parse` reads as an unsigned integer of unbounded width: an
/// optional `+` followed by one or more ASCII digits.
pub open spec fn parse_nat(s: Seq<char>) -> Option<nat> {
    let body = unsigned_body(s);
    if body.len() > 0 && all_digits(body) {
        Some(digits_value(body))
    } else {
        None
    }
}

/// `s` without one leading `+`.
pub open spec fn unsigned_body(s: Seq<char>) -> Seq<char> {
    if s.len() > 0 && s[0] == '+' { s.drop_first() } else { s }
}

/// Every character of `s` is an ASCII digit.
pub open spec fn all_digits(s: Seq<char>) -> bool {
    forall|i: int| 0 <= i < s.len() ==> is_digit(#[trigger] s[i])
}

/// What `str::parse::<u8>` returns, with `None` for every error.
pub open spec fn parse_u8(s: Seq<char>) -> Option<u8> {
    match parse_nat(s) {
        Some(v) => if v <= 255 { Some(v as u8) } else { None },
        None => None,
    }
}

pub proof fn lemma_find_in_range(s: Seq<char>, c: char)
    ensures
        find(s, c) matches Some(k) ==> 0 <= k < s.len() && s[k] == c && forall|j: int|
            0 <= j < k ==> s[j] != c,
        find(s, c) is None ==> forall|j: int| 0 <= j < s.len() ==> s[j] != c,
    decreases s.len(),
{
    if s.len() > 0 && s[0] != c {
        lemma_find_in_range(s.drop_first(), c);
        assert forall|j: int| 1 <= j < s.len() implies s[j] == s.drop_first()[j - 1] by {}
    }
}

proof fn lemma_find_is_first(s: Seq<char>, c: char, k: int)
    requires
        0 <= k <= s.len(),
        forall|j: int| 0 <= j < k ==> s[j] != c,
        k < s.len() ==> s[k] == c,
    ensures
        find(s, c) == (if k < s.len() { Some(k) } else { None::<int> }),
    decreases s.len(),
{
    if s.len() > 0 && k > 0 {
        lemma_find_is_first(s.drop_first(), c, k - 1);
    }
}

proof fn lemma_digits_value_step(s: Seq<char>, i: int)
    requires
        0 <= i < s.len(),
    ensures
        digits_value(s.take(i + 1)) == digits_value(s.take(i)) * 10 + (s[i] as nat - '0' as nat) as nat,
{
    assert(s.take(i + 1).drop_last() =~= s.take(i));
}

proof fn lemma_digits_value_monotone(s: Seq<char>, i: int, j: int)
    requires
        0 <= i <= j <= s.len(),
        forall|k: int| 0 <= k < s.len() ==> is_digit(#[trigger] s[k]),
    ensures
        digits_value(s.take(i)) <= digits_value(s.take(j)),
    decreases j - i,
{
    if i < j {
        lemma_digits_value_monotone(s, i, j - 1);
        lemma_digits_value_step(s, j - 1);
    }
}

/// The characters of `s`.
pub fn chars_of(s: &str) -> (v: Vec<char>)
    ensures
        v@ == s@,
{
    let mut v: Vec<char> = Vec::new();
    for c in it: s.chars()
        invariant
            it.seq() == s@,
            v@ == it.seq().take(it.index()),
    {
        v.push(c);
    }
    v
}

/// Whether `c` is white space in the sense of `char::is_whitespace`.
pub fn char_is_whitespace(c: char) -> (r: bool)
    ensures
        r == is_whitespace(c),
{
    ('\t' <= c && c <= '\r') || c == ' ' || c == '\u{85}' || c == '\u{A0}' || c == '\u{1680}'
        || ('\u{2000}' <= c && c <= '\u{200A}') || c == '\u{2028}' || c == '\u{2029}' || c
        == '\u{202F}' || c == '\u{205F}' || c == '\u{3000}'
}

/// The bounds `(lo, hi)` of the trimmed part of `s`.
pub fn trim_bounds(s: &Vec<char>) -> (r: (usize, usize))
    ensures
        r.0 <= r.1 <= s.len(),
        s@.subrange(r.0 as int, r.1 as int) == trim(s@),
{
    let n = s.len();
    let mut lo: usize = 0;
    assert(s@.skip(0) =~= s@);
    while lo < n && char_is_whitespace(s[lo])
        invariant
            lo <= n == s.len(),
            trim_start(s@) == trim_start(s@.skip(lo as int)),
        decreases n - lo,
    {
        assert(s@.skip(lo as int).drop_first() =~= s@.skip(lo + 1));
        lo = lo + 1;
    }
    assert(trim_start(s@) == s@.subrange(lo as int, n as int));
    let mut hi: usize = n;
    while hi > lo && char_is_whitespace(s[hi - 1])
        invariant
            lo <= hi <= n == s.len(),
            trim(s@) == trim_end(s@.subrange(lo as int, hi as int)),
        decreases hi,
    {
        assert(s@.subrange(lo as int, hi as int).drop_last() =~= s@.subrange(lo as int, hi - 1));
        hi = hi - 1;
    }
    (lo, hi)
}

/// The first index in `lo..hi` at which `s` holds `c`, or `hi`.
pub fn find_in(s: &Vec<char>, lo: usize, hi: usize, c: char) -> (r: usize)
    requires
        lo <= hi <= s.len(),
    ensures
        lo <= r <= hi,
        find(s@.subrange(lo as int, hi as int), c) == (if r < hi {
            Some(r - lo)
        } else {
            None::<int>
        }),
{
    let mut i = lo;
    while i < hi && s[i] != c
        invariant
            lo <= i <= hi <= s.len(),
            forall|j: int| lo <= j < i ==> s@[j] != c,
        decreases hi - i,
    {
        i = i + 1;
    }
    proof {
        lemma_find_is_first(s@.subrange(lo as int, hi as int), c, i - lo);
    }
    i
}

/// The value of the unsigned decimal number written in `s[lo..hi]`, when it
/// has the form that `str::parse` accepts and is at most `bound`.
pub fn parse_bounded(s: &Vec<char>, lo: usize, hi: usize, bound: u32) -> (r: Option<u32>)
    requires
        lo <= hi <= s.len(),
    ensures
        r == (match parse_nat(s@.subrange(lo as int, hi as int)) {
            Some(v) => if v <= bound { Some(v as u32) } else { None::<u32> },
            None => None::<u32>,
        }),
{
    let ghost t = s@.subrange(lo as int, hi as int);
    let start = if lo < hi && s[lo] == '+' { lo + 1 } else { lo };
    let ghost body = s@.subrange(start as int, hi as int);
    assert(body =~= unsigned_body(t));
    if start == hi {
        return None;
    }
    let mut value: u64 = 0;
    let mut i = start;
    while i < hi
        invariant
            lo <= start < hi <= s.len(),
            start <= i <= hi,
            body == s@.subrange(start as int, hi as int),
            t == s@.subrange(lo as int, hi as int),
            body == unsigned_body(t),
            forall|k: int| 0 <= k < i - start ==> is_digit(#[trigger] body[k]),
            value == digits_value(body.take(i - start)),
            value <= bound,
        decreases hi - i,
    {
        let c = s[i];
        if c < '0' || c > '9' {
            assert(!is_digit(body[i - start]));
            assert(!all_digits(body));
            assert(parse_nat(t) is None);
            return None;
        }
        proof {
            lemma_digits_value_step(body, i - start);
        }
        value = value * 10 + (c as u64 - '0' as u64);
        assert(value == digits_value(body.take(i + 1 - start)));
        if value > bound as u64 {
            proof {
                assert forall|k: int| 0 <= k < i + 1 - start implies is_digit(#[trigger] body[k]) by {}
                if all_digits(body) {
                    lemma_digits_value_monotone(body, i + 1 - start, body.len() as int);
                    assert(body.take(body.len() as int) =~= body);
                    assert(digits_value(body) > bound);
                }
            }
            assert(parse_nat(t) matches Some(v) ==> v > bound);
            return None;
        }
        i = i + 1;
    }
    assert(body.take(i - start) =~= body);
    Some(value as u32)
}

/// The bounds of the pieces of `s[lo..hi]` between the occurrences of `sep`.
pub fn split_bounds(s: &Vec<char>, lo: usize, hi: usize, sep: char) -> (r: Vec<(usize, usize)>)
    requires
        lo <= hi <= s.len(),
    ensures
        r.len() == split(s@.subrange(lo as int, hi as int), sep).len(),
        forall|j: int|
            0 <= j < r.len() ==> {
                &&& lo <= (#[trigger] r[j]).0 <= r[j].1 <= hi
                &&& s@.subrange(r[j].0 as int, r[j].1 as int) == split(
                    s@.subrange(lo as int, hi as int),
                    sep,
                )[j]
            },
{
    let ghost whole = split(s@.subrange(lo as int, hi as int), sep);
    let mut r: Vec<(usize, usize)> = Vec::new();
    let mut start = lo;
    loop
        invariant
            lo <= start <= hi <= s.len(),
            whole == split(s@.subrange(lo as int, hi as int), sep),
            whole == r@.map_values(|b: (usize, usize)| s@.subrange(b.0 as int, b.1 as int)) + split(
                s@.subrange(start as int, hi as int),
                sep,
            ),
            forall|j: int| 0 <= j < r.len() ==> lo <= (#[trigger] r[j]).0 <= r[j].1 <= hi,
        decreases hi - start,
    {
        let k = find_in(s, start, hi, sep);
        let ghost rest = s@.subrange(start as int, hi as int);
        let ghost old_r = r@;
        r.push((start, k));
        if k == hi {
            assert(split(rest, sep) == seq![rest]);
            assert(r@.map_values(|b: (usize, usize)| s@.subrange(b.0 as int, b.1 as int)) =~= old_r.map_values(
                |b: (usize, usize)| s@.subrange(b.0 as int, b.1 as int),
            ).push(rest));
            assert(whole =~= r@.map_values(|b: (usize, usize)| s@.subrange(b.0 as int, b.1 as int)));
            assert forall|j: int| 0 <= j < r.len() implies s@.subrange(
                (#[trigger] r[j]).0 as int,
                r[j].1 as int,
            ) == whole[j] by {
                assert(whole[j] == r@.map_values(
                    |b: (usize, usize)| s@.subrange(b.0 as int, b.1 as int),
                )[j]);
            }
            return r;
        }
        assert(rest.take(k - start) =~= s@.subrange(start as int, k as int));
        assert(rest.skip(k - start + 1) =~= s@.subrange(k + 1, hi as int));
        assert(split(rest, sep) == seq![s@.subrange(start as int, k as int)] + split(
            s@.subrange(k + 1, hi as int),
            sep,
        ));
        assert(r@.map_values(|b: (usize, usize)| s@.subrange(b.0 as int, b.1 as int)) =~= old_r.map_values(
            |b: (usize, usize)| s@.subrange(b.0 as int, b.1 as int),
        ).push(s@.subrange(start as int, k as int)));
        start = k + 1;
        assert(whole =~= r@.map_values(|b: (usize, usize)| s@.subrange(b.0 as int, b.1 as int))
            + split(s@.subrange(start as int, hi as int), sep));
    }
}

/// Every character of `w` is white space.
pub open spec fn all_white(w: Seq<char>) -> bool {
    forall|i: int| 0 <= i < w.len() ==> is_whitespace(#[trigger] w[i])
}

/// Leading white space is dropped by `trim_start`.
pub proof fn lemma_trim_start_skips(w: Seq<char>, x: Seq<char>)
    requires
        all_white(w),
    ensures
        trim_start(w + x) == trim_start(x),
    decreases w.len(),
{
    if w.len() > 0 {
        assert((w + x)[0] == w[0]);
        assert((w + x).drop_first() =~= w.drop_first() + x);
        assert(all_white(w.drop_first())) by {
            assert forall|i: int| 0 <= i < w.drop_first().len() implies is_whitespace(#[trigger] w.drop_first()[i]) by {
                assert(w.drop_first()[i] == w[i + 1]);
            }
        }
        lemma_trim_start_skips(w.drop_first(), x);
    } else {
        assert(w + x =~= x);
    }
}

/// Trailing white space is dropped by `trim_end`.
pub proof fn lemma_trim_end_skips(x: Seq<char>, w: Seq<char>)
    requires
        all_white(w),
    ensures
        trim_end(x + w) == trim_end(x),
    decreases w.len(),
{
    if w.len() > 0 {
        assert((x + w).last() == w.last());
        assert((x + w).drop_last() =~= x + w.drop_last());
        assert(all_white(w.drop_last())) by {
            assert forall|i: int| 0 <= i < w.drop_last().len() implies is_whitespace(#[trigger] w.drop_last()[i]) by {
                assert(w.drop_last()[i] == w[i]);
            }
        }
        lemma_trim_end_skips(x, w.drop_last());
    } else {
        assert(x + w =~= x);
    }
}

/// `trim_start` of `x` followed by white space `w`.
pub proof fn lemma_trim_start_then_white(x: Seq<char>, w: Seq<char>)
    requires
        all_white(w),
    ensures
        trim_start(x).len() > 0 ==> trim_start(x + w) == trim_start(x) + w,
        trim_start(x).len() == 0 ==> trim_start(x + w).len() == 0,
    decreases x.len(),
{
    if x.len() > 0 && is_whitespace(x[0]) {
        assert((x + w)[0] == x[0]);
        assert((x + w).drop_first() =~= x.drop_first() + w);
        lemma_trim_start_then_white(x.drop_first(), w);
    } else if x.len() > 0 {
        assert((x + w)[0] == x[0]);
    } else {
        assert(x + w =~= w);
        lemma_trim_start_skips(w, Seq::<char>::empty());
        assert(w + Seq::<char>::empty() =~= w);
    }
}

/// White space around `s` does not change `trim(s)`.
pub proof fn lemma_trim_ignores_white(w1: Seq<char>, s: Seq<char>, w2: Seq<char>)
    requires
        all_white(w1),
        all_white(w2),
    ensures
        trim(w1 + s + w2) == trim(s),
{
    assert(w1 + s + w2 =~= w1 + (s + w2));
    lemma_trim_start_skips(w1, s + w2);
    lemma_trim_start_then_white(s, w2);
    if trim_start(s).len() > 0 {
        lemma_trim_end_skips(trim_start(s), w2);
    } else {
        assert(trim_start(s + w2) =~= trim_start(s));
    }
}

} // verus!
