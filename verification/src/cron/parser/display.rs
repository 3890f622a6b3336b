//! Writing a [`CronTime`] back as a cron string.

use itertools::Itertools;
use vstd::prelude::*;

use super::{
    piece_bounds, piece_covers, spec_field, spec_parse_cron, spec_parse_list, spec_parse_section,
    CronParsingError, CronSection, CronSectionView, CronTime, CronTimeView,
};
use crate::cron::text::{
    all_digits, digits_value, find, is_digit, is_whitespace, lemma_find_in_range, parse_nat,
    parse_u8, split, trim, trim_end, trim_start, unsigned_body,
};

verus! {

/// The ASCII digit for `d`, below ten.
pub open spec fn digit_char(d: nat) -> char {
    (d + 48) as char
}

/// The decimal digits of `n` without leading zeros, as `Display` writes an
/// unsigned integer.
pub open spec fn decimal(n: nat) -> Seq<char>
    decreases n,
{
    if n < 10 {
        seq![digit_char(n)]
    } else {
        decimal(n / 10).push(digit_char(n % 10))
    }
}

/// Numbers in decimal, separated by commas.
pub open spec fn join_decimal(s: Seq<nat>) -> Seq<char>
    decreases s.len(),
{
    if s.len() == 0 {
        Seq::empty()
    } else if s.len() == 1 {
        decimal(s[0])
    } else {
        decimal(s[0]) + seq![','] + join_decimal(s.drop_first())
    }
}

/// The indices below `i` at which `a` holds `true`, in increasing order.
pub open spec fn selected_below(a: Seq<bool>, i: int) -> Seq<nat>
    decreases i,
{
    if i <= 0 {
        Seq::empty()
    } else if a[i - 1] {
        selected_below(a, i - 1).push((i - 1) as nat)
    } else {
        selected_below(a, i - 1)
    }
}

impl CronSectionView {
    /// The text of the section: `*`, `n`, the selected values joined by
    /// commas, `*/n` or `x/n`.
    pub open spec fn text(self) -> Seq<char> {
        match self {
            CronSectionView::EveryTime => seq!['*'],
            CronSectionView::At(v) => decimal(v as nat),
            CronSectionView::Multiple(a) => join_decimal(selected_below(a, a.len() as int)),
            CronSectionView::EveryNth(v) => seq!['*', '/'] + decimal(v as nat),
            CronSectionView::StartingAtXEveryNth(x, n) => decimal(x as nat) + seq!['/'] + decimal(
                n as nat,
            ),
        }
    }
}

impl CronTimeView {
    /// The five sections' texts, separated by single spaces.
    pub open spec fn text(self) -> Seq<char> {
        self.minute.text() + seq![' '] + self.hour.text() + seq![' '] + self.day_of_month.text()
            + seq![' '] + self.month.text() + seq![' '] + self.day_of_week.text()
    }
}

/// `ToString::to_string` of std on a `u8`: its decimal digits.
#[verifier::external_body]
fn decimal_string(v: u8) -> (r: String)
    ensures
        r@ == decimal(v as nat),
{
    v.to_string()
}

/// `Itertools::join` of `itertools` on the values of `v` with the separator
/// `","`: the values in decimal, separated by commas.
#[verifier::external_body]
fn join_with_commas(v: &Vec<usize>) -> (r: String)
    ensures
        r@ == join_decimal(v@.map_values(|x: usize| x as nat)),
{
    v.iter().join(",")
}

impl CronSection {
    /// The cron string text of this section.
    pub fn to_string(&self) -> (r: String)
        ensures
            r@ == self@.text(),
    {
        match self {
            CronSection::EveryTime => {
                let mut s = String::new();
                s.append("*");
                proof {
                    reveal_strlit("*");
                }
                s
            },
            CronSection::At(v) => decimal_string(*v),
            CronSection::Multiple(a) => {
                let mut idx: Vec<usize> = Vec::new();
                let mut i: usize = 0;
                while i < 60
                    invariant
                        i <= 60,
                        idx@.map_values(|x: usize| x as nat) == selected_below(a@, i as int),
                    decreases 60 - i,
                {
                    if a[i] {
                        idx.push(i);
                        assert(idx@.map_values(|x: usize| x as nat) =~= selected_below(
                            a@,
                            i as int,
                        ).push(i as nat));
                    }
                    i = i + 1;
                }
                join_with_commas(&idx)
            },
            CronSection::EveryNth(v) => {
                let mut s = String::new();
                s.append("*/");
                proof {
                    reveal_strlit("*/");
                }
                let d = decimal_string(*v);
                s.append(d.as_str());
                s
            },
            CronSection::StartingAtXEveryNth(x, n) => {
                let mut s = decimal_string(*x);
                s.append("/");
                proof {
                    reveal_strlit("/");
                }
                let d = decimal_string(*n);
                s.append(d.as_str());
                s
            },
        }
    }
}

impl CronTime {
    /// The cron string text: the five sections separated by single spaces.
    pub fn to_string(&self) -> (r: String)
        ensures
            r@ == self@.text(),
    {
        proof {
            reveal_strlit(" ");
        }
        let mut s = self.minute.to_string();
        s.append(" ");
        let h = self.hour.to_string();
        s.append(h.as_str());
        s.append(" ");
        let d = self.day_of_month.to_string();
        s.append(d.as_str());
        s.append(" ");
        let m = self.month.to_string();
        s.append(m.as_str());
        s.append(" ");
        let w = self.day_of_week.to_string();
        s.append(w.as_str());
        s
    }
}

impl CronSectionView {
    /// The section is written in a form that reads back as itself: any
    /// section but a list of fewer than two values (one value reads back as
    /// a single value).
    pub open spec fn reads_back(self) -> bool {
        match self {
            CronSectionView::Multiple(a) => selected_below(a, 60).len() >= 2,
            _ => true,
        }
    }
}

/// A character that the text of a section may hold.
pub open spec fn text_char(c: char) -> bool {
    is_digit(c) || c == '*' || c == '/' || c == ','
}

proof fn lemma_decimal(n: nat)
    ensures
        decimal(n).len() >= 1,
        all_digits(decimal(n)),
        digits_value(decimal(n)) == n,
    decreases n,
{
    let c = digit_char(n % 10);
    assert(c as nat == n % 10 + 48);
    assert('0' as nat == 48);
    assert(decimal(n).last() == c);
    assert(digits_value(decimal(n)) == digits_value(decimal(n).drop_last()) * 10 + (c as nat - '0' as nat) as nat);
    if n < 10 {
        assert(decimal(n).drop_last() =~= Seq::<char>::empty());
        assert(digits_value(Seq::<char>::empty()) == 0);
    } else {
        lemma_decimal(n / 10);
        let s = decimal(n / 10);
        assert(decimal(n).drop_last() =~= s);
        assert(n == (n / 10) * 10 + n % 10);
        assert(all_digits(decimal(n))) by {
            assert forall|i: int| 0 <= i < decimal(n).len() implies is_digit(#[trigger] decimal(n)[i]) by {
                if i < s.len() {
                    assert(decimal(n)[i] == s[i]);
                }
            }
        }
    }
}

proof fn lemma_parse_decimal(n: nat)
    ensures
        parse_nat(decimal(n)) == Some(n),
        n <= 255 ==> parse_u8(decimal(n)) == Some(n as u8),
{
    lemma_decimal(n);
    assert(unsigned_body(decimal(n)) == decimal(n)) by {
        assert(is_digit(decimal(n)[0]));
    }
}

/// `find` comes upon `c` first right after `x`, where `x` holds no `c`.
proof fn lemma_find_after(x: Seq<char>, c: char, y: Seq<char>)
    requires
        forall|i: int| 0 <= i < x.len() ==> x[i] != c,
    ensures
        find(x + seq![c] + y, c) == Some(x.len() as int),
{
    let s = x + seq![c] + y;
    lemma_find_in_range(s, c);
    assert(s[x.len() as int] == c);
    assert forall|i: int| 0 <= i < x.len() implies s[i] != c by {
        assert(s[i] == x[i]);
    }
}

proof fn lemma_split_last(x: Seq<char>, c: char)
    requires
        forall|i: int| 0 <= i < x.len() ==> x[i] != c,
    ensures
        split(x, c) == seq![x],
{
    lemma_find_in_range(x, c);
}

proof fn lemma_split_first(x: Seq<char>, c: char, y: Seq<char>)
    requires
        forall|i: int| 0 <= i < x.len() ==> x[i] != c,
    ensures
        split(x + seq![c] + y, c) == seq![x] + split(y, c),
{
    let s = x + seq![c] + y;
    lemma_find_after(x, c, y);
    assert(s.take(x.len() as int) =~= x);
    assert(s.skip(x.len() as int + 1) =~= y);
}

proof fn lemma_join(sel: Seq<nat>)
    requires
        sel.len() >= 1,
    ensures
        join_decimal(sel).len() >= 1,
        forall|i: int| 0 <= i < join_decimal(sel).len() ==> #[trigger] is_digit(join_decimal(sel)[i]) || join_decimal(sel)[i] == ',',
        is_digit(join_decimal(sel)[0]),
        is_digit(join_decimal(sel).last()),
        sel.len() >= 2 ==> join_decimal(sel)[decimal(sel[0]).len() as int] == ',',
        split(join_decimal(sel), ',') =~= sel.map_values(|v: nat| decimal(v)),
    decreases sel.len(),
{
    lemma_decimal(sel[0]);
    let d = decimal(sel[0]);
    assert(forall|i: int| 0 <= i < d.len() ==> #[trigger] is_digit(d[i]));
    if sel.len() == 1 {
        lemma_split_last(d, ',');
    } else {
        let rest = sel.drop_first();
        lemma_join(rest);
        let j = join_decimal(sel);
        let jr = join_decimal(rest);
        assert(j == d + seq![','] + jr);
        assert forall|i: int| 0 <= i < j.len() implies #[trigger] is_digit(j[i]) || j[i] == ',' by {
            if i < d.len() {
                assert(j[i] == d[i]);
            } else if i > d.len() {
                assert(j[i] == jr[i - d.len() - 1]);
            }
        }
        assert(j[0] == d[0]);
        assert(j.last() == jr.last());
        lemma_split_first(d, ',', jr);
        assert(split(j, ',') =~= sel.map_values(|v: nat| decimal(v))) by {
            assert(rest.map_values(|v: nat| decimal(v)) =~= sel.map_values(|v: nat| decimal(v)).drop_first());
        }
    }
}

proof fn lemma_selected_below(a: Seq<bool>, n: int)
    requires
        0 <= n <= a.len(),
    ensures
        forall|k: int| 0 <= k < selected_below(a, n).len() ==> #[trigger] selected_below(a, n)[k] < n && a[selected_below(a, n)[k] as int],
        forall|i: int| 0 <= i < n && a[i] ==> exists|k: int| 0 <= k < selected_below(a, n).len() && #[trigger] selected_below(a, n)[k] == i,
    decreases n,
{
    if n > 0 {
        lemma_selected_below(a, n - 1);
        let p = selected_below(a, n - 1);
        if a[n - 1] {
            let q = p.push((n - 1) as nat);
            assert(selected_below(a, n) == q);
            assert forall|i: int| 0 <= i < n && a[i] implies exists|k: int| 0 <= k < q.len() && #[trigger] q[k] == i by {
                if i == n - 1 {
                    assert(q[p.len() as int] == i);
                } else {
                    let k = choose|k: int| 0 <= k < p.len() && #[trigger] p[k] == i;
                    assert(q[k] == i);
                }
            }
        } else {
            assert(selected_below(a, n) == p);
            assert forall|i: int| 0 <= i < n && a[i] implies exists|k: int| 0 <= k < p.len() && #[trigger] p[k] == i by {
                assert(i < n - 1);
            }
        }
    }
}

proof fn lemma_section_text(s: CronSectionView)
    requires
        s.is_proper(),
        s.reads_back(),
    ensures
        s.text().len() >= 1,
        forall|i: int| 0 <= i < s.text().len() ==> #[trigger] text_char(s.text()[i]),
        is_digit(s.text()[0]) || s.text()[0] == '*',
        is_digit(s.text().last()) || s.text().last() == '*',
        forall|i: int| 0 <= i < s.text().len() ==> s.text()[i] != ' ',
        spec_parse_section(s.text()) == Some(s),
{
    lemma_section_text_parses(s);
    assert forall|i: int| 0 <= i < s.text().len() implies s.text()[i] != ' ' by {
        assert(text_char(s.text()[i]));
    }
}

proof fn lemma_section_text_parses(s: CronSectionView)
    requires
        s.is_proper(),
        s.reads_back(),
    ensures
        s.text().len() >= 1,
        forall|i: int| 0 <= i < s.text().len() ==> #[trigger] text_char(s.text()[i]),
        is_digit(s.text()[0]) || s.text()[0] == '*',
        is_digit(s.text().last()) || s.text().last() == '*',
        spec_parse_section(s.text()) == Some(s),
{
    match s {
        CronSectionView::EveryTime => {},
        CronSectionView::At(v) => {
            lemma_decimal(v as nat);
            lemma_parse_decimal(v as nat);
            let t = decimal(v as nat);
            assert(t[0] != '*');
            lemma_find_in_range(t, '/');
            assert(forall|i: int| 0 <= i < t.len() ==> #[trigger] is_digit(t[i]));
        },
        CronSectionView::EveryNth(v) => {
            lemma_decimal(v as nat);
            lemma_parse_decimal(v as nat);
            let d = decimal(v as nat);
            let t = seq!['*', '/'] + d;
            assert(t.skip(2) =~= d);
            assert(t != seq!['*']) by {
                assert(t.len() != 1);
            }
            assert forall|i: int| 0 <= i < t.len() implies #[trigger] text_char(t[i]) by {
                if i >= 2 {
                    assert(t[i] == d[i - 2]);
                    assert(is_digit(d[i - 2]));
                }
            }
            assert(t.last() == d.last());
            assert(is_digit(d[d.len() - 1]));
        },
        CronSectionView::StartingAtXEveryNth(x, n) => {
            lemma_decimal(x as nat);
            lemma_decimal(n as nat);
            lemma_parse_decimal(x as nat);
            lemma_parse_decimal(n as nat);
            let dx = decimal(x as nat);
            let dn = decimal(n as nat);
            let t = dx + seq!['/'] + dn;
            assert(is_digit(dx[0]));
            assert(t[0] == dx[0]);
            assert(t != seq!['*']);
            assert(forall|i: int| 0 <= i < dx.len() ==> #[trigger] is_digit(dx[i]));
            lemma_find_after(dx, '/', dn);
            assert(t.take(dx.len() as int) =~= dx);
            assert(t.skip(dx.len() as int + 1) =~= dn);
            assert forall|i: int| 0 <= i < t.len() implies #[trigger] text_char(t[i]) by {
                if i < dx.len() {
                    assert(t[i] == dx[i]);
                } else if i > dx.len() {
                    assert(t[i] == dn[i - dx.len() - 1]);
                    assert(is_digit(dn[i - dx.len() - 1]));
                }
            }
            assert(t.last() == dn.last());
            assert(is_digit(dn[dn.len() - 1]));
        },
        CronSectionView::Multiple(a) => {
            let sel = selected_below(a, 60);
            let t = join_decimal(sel);
            lemma_join(sel);
            lemma_selected_below(a, 60);
            assert(t[0] != '*');
            assert(t != seq!['*']);
            assert(find(t, '/') is None) by {
                lemma_find_in_range(t, '/');
                if let Some(k) = find(t, '/') {
                    assert(is_digit(t[k]) || t[k] == ',');
                }
            }
            assert(parse_u8(t) is None) by {
                assert(is_digit(t[0]));
                assert(unsigned_body(t) == t);
                assert(!is_digit(t[decimal(sel[0]).len() as int]));
            }
            let pieces = split(t, ',');
            assert forall|j: int| 0 <= j < pieces.len() implies #[trigger] piece_bounds(pieces[j])
                == Some((sel[j], sel[j])) by {
                assert(pieces[j] == decimal(sel[j]));
                lemma_decimal(sel[j]);
                lemma_parse_decimal(sel[j]);
                lemma_find_in_range(decimal(sel[j]), '-');
                assert(forall|i: int| 0 <= i < decimal(sel[j]).len() ==> #[trigger] is_digit(decimal(sel[j])[i]));
            }
            assert(spec_parse_list(t) == Some(a)) by {
                assert forall|i: int| 0 <= i < 60 implies (exists|j: int| 0 <= j < pieces.len() && #[trigger] piece_covers(pieces, j, i)) == a[i] by {
                    if a[i] {
                        let k = choose|k: int| 0 <= k < sel.len() && #[trigger] sel[k] == i;
                        assert(piece_covers(pieces, k, i));
                    }
                    if exists|j: int| 0 <= j < pieces.len() && #[trigger] piece_covers(pieces, j, i) {
                        let j = choose|j: int| 0 <= j < pieces.len() && #[trigger] piece_covers(pieces, j, i);
                        assert(piece_bounds(pieces[j]) == Some((sel[j], sel[j])));
                    }
                }
                assert(Seq::new(60, |i: int| exists|j: int| 0 <= j < pieces.len() && #[trigger] piece_covers(pieces, j, i)) =~= a);
            }
            assert forall|i: int| 0 <= i < t.len() implies #[trigger] text_char(t[i]) by {
                assert(is_digit(t[i]) || t[i] == ',');
            }
        },
    }
}

/// Writing a cron time and parsing what was written gives the same cron
/// time back, for every cron time whose lists hold two values or more.
pub proof fn law_text_reads_back(t: CronTimeView)
    requires
        t.is_proper(),
        t.minute.reads_back(),
        t.hour.reads_back(),
        t.day_of_month.reads_back(),
        t.month.reads_back(),
        t.day_of_week.reads_back(),
    ensures
        spec_parse_cron(t.text()) == Ok::<CronTimeView, CronParsingError>(t),
{
    let (m, h, d, mo, w) = (t.minute.text(), t.hour.text(), t.day_of_month.text(), t.month.text(), t.day_of_week.text());
    lemma_section_text(t.minute);
    lemma_section_text(t.hour);
    lemma_section_text(t.day_of_month);
    lemma_section_text(t.month);
    lemma_section_text(t.day_of_week);
    let s = t.text();
    assert(s =~= m + seq![' '] + (h + seq![' '] + (d + seq![' '] + (mo + seq![' '] + w))));
    assert(trim(s) == s) by {
        assert(!is_whitespace(s[0])) by {
            assert(s[0] == m[0]);
        }
        assert(trim_start(s) == s);
        assert(!is_whitespace(s.last())) by {
            assert(s.last() == w.last());
        }
    }
    lemma_split_first(m, ' ', h + seq![' '] + (d + seq![' '] + (mo + seq![' '] + w)));
    lemma_split_first(h, ' ', d + seq![' '] + (mo + seq![' '] + w));
    lemma_split_first(d, ' ', mo + seq![' '] + w);
    lemma_split_first(mo, ' ', w);
    lemma_split_last(w, ' ');
    assert(split(s, ' ') =~= seq![m, h, d, mo, w]);
    assert(spec_field(m, 0, 59) == Ok::<CronSectionView, Option<u8>>(t.minute));
    assert(spec_field(h, 0, 23) == Ok::<CronSectionView, Option<u8>>(t.hour));
    assert(spec_field(d, 1, 31) == Ok::<CronSectionView, Option<u8>>(t.day_of_month));
    assert(spec_field(mo, 1, 12) == Ok::<CronSectionView, Option<u8>>(t.month));
    assert(spec_field(w, 0, 7) == Ok::<CronSectionView, Option<u8>>(t.day_of_week));
}

/// The values from `a` to `b`, both included, as a table of the 60 values.
spec fn range_flags(a: nat, b: nat) -> Seq<bool> {
    Seq::new(60, |i: int| a <= i <= b)
}

/// The forms of a section read as their documentation says: `*` every unit,
/// `x` the value `x`, `*/n` every `n`th unit and `x/n` every `n`th unit from
/// `x` on, where a step of zero is refused; and `a-b` (with `a <= b < 60`)
/// the list of the values from `a` to `b`, both included.
pub proof fn law_section_forms_read(x: u8, n: u8, a: nat, b: nat)
    ensures
        spec_parse_section(seq!['*']) == Some(CronSectionView::EveryTime),
        spec_parse_section(decimal(x as nat)) == Some(CronSectionView::At(x)),
        spec_parse_section(seq!['*', '/'] + decimal(n as nat)) == (if n == 0 {
            None
        } else {
            Some(CronSectionView::EveryNth(n))
        }),
        spec_parse_section(decimal(x as nat) + seq!['/'] + decimal(n as nat)) == (if n == 0 {
            None
        } else {
            Some(CronSectionView::StartingAtXEveryNth(x, n))
        }),
        a <= b < 60 ==> spec_parse_section(decimal(a) + seq!['-'] + decimal(b)) == Some(
            CronSectionView::Multiple(Seq::new(60, |i: int| a <= i <= b)),
        ),
{
    lemma_section_text_parses(CronSectionView::At(x));
    lemma_decimal(n as nat);
    lemma_decimal(x as nat);
    lemma_parse_decimal(n as nat);
    lemma_parse_decimal(x as nat);
    let dn = decimal(n as nat);
    let dx = decimal(x as nat);
    let t = seq!['*', '/'] + dn;
    assert(t.skip(2) =~= dn);
    assert(t != seq!['*']) by {
        assert(t.len() != 1);
    }
    let u = dx + seq!['/'] + dn;
    assert(forall|i: int| 0 <= i < dx.len() ==> #[trigger] is_digit(dx[i]));
    assert(u[0] == dx[0]);
    assert(u != seq!['*']);
    lemma_find_after(dx, '/', dn);
    assert(u.take(dx.len() as int) =~= dx);
    assert(u.skip(dx.len() as int + 1) =~= dn);
    if a <= b < 60 {
        lemma_decimal(a);
        lemma_decimal(b);
        lemma_parse_decimal(a);
        lemma_parse_decimal(b);
        let da = decimal(a);
        let db = decimal(b);
        let r = da + seq!['-'] + db;
        assert(forall|i: int| 0 <= i < da.len() ==> #[trigger] is_digit(da[i]));
        assert(forall|i: int| 0 <= i < db.len() ==> #[trigger] is_digit(db[i]));
        assert(r[0] == da[0]);
        assert(r != seq!['*']);
        assert forall|i: int| #![trigger r[i]] 0 <= i < r.len() implies r[i] != '/' && r[i] != ',' by {
            if i < da.len() {
                assert(r[i] == da[i]);
            } else if i > da.len() {
                assert(r[i] == db[i - da.len() - 1]);
            }
        }
        lemma_find_in_range(r, '/');
        assert(!is_digit(r[da.len() as int]));
        assert(unsigned_body(r) == r);
        assert(parse_u8(r) is None);
        lemma_split_last(r, ',');
        lemma_find_after(da, '-', db);
        assert(r.take(da.len() as int) =~= da);
        assert(r.skip(da.len() as int + 1) =~= db);
        assert(piece_bounds(r) == Some((a, b)));
        let pieces = split(r, ',');
        assert(pieces =~= seq![r]);
        assert(spec_parse_list(r) == Some(Seq::new(60, |i: int| a <= i <= b))) by {
            assert forall|i: int| 0 <= i < 60 implies (exists|j: int| 0 <= j < pieces.len() && #[trigger] piece_covers(pieces, j, i)) == #[trigger] range_flags(a, b)[i] by {
                if a <= i <= b {
                    assert(piece_covers(pieces, 0, i));
                }
            }
            assert(Seq::new(60, |i: int| exists|j: int| 0 <= j < pieces.len() && #[trigger] piece_covers(pieces, j, i)) =~= range_flags(a, b));
        }
    }
}

} // verus!
