//! The stat lines of a listing card (beds, baths, house area, lot area) and how they are read.

use vstd::prelude::*;

use crate::text::{
    chars_of, contains, contains_run, digit_value, digits_value, is_digit, is_digit_char,
    is_digits, lacks, lemma_split_concat, lemma_split_nonempty, lemma_split_single, parse_digits,
    remove_char, split, split_ranges, without_char,
};

verus! {

/// Square feet in one acre.
pub const SQFT_PER_ACRE: u64 = 43560;

/// The most digits an acreage figure may have.
pub const MAX_ACRE_DIGITS: usize = 9;

pub open spec fn pow10(e: nat) -> nat
    decreases e,
{
    if e == 0 {
        1
    } else {
        10 * pow10((e - 1) as nat)
    }
}

/// The area of `num / 10^scale` acres in square feet, rounded to the nearest foot (halves up).
pub open spec fn acres_to_sqft(num: nat, scale: nat) -> nat {
    ((2 * num * SQFT_PER_ACRE + pow10(scale)) as int / (2 * pow10(scale)) as int) as nat
}

/// An acreage figure such as `0.25` as `(digits, digits after the point)`; at most one point and
/// at most nine digits.
pub open spec fn acres_spec(w: Seq<char>) -> Option<(nat, nat)> {
    let pieces = split(w, '.');
    let d = remove_char(w, '.');
    if pieces.len() <= 2 && is_digits(d) && d.len() <= MAX_ACRE_DIGITS {
        Some((digits_value(d), if pieces.len() == 2 { pieces[1].len() } else { 0 }))
    } else {
        None
    }
}

pub proof fn lemma_pow10_positive(e: nat)
    ensures
        pow10(e) >= 1,
    decreases e,
{
    if e > 0 {
        lemma_pow10_positive((e - 1) as nat);
    }
}

/// Converting acreage to square feet preserves order: more acres never give less area.
pub proof fn lemma_acreage_monotonic(n1: nat, s1: nat, n2: nat, s2: nat)
    requires
        n1 * pow10(s2) <= n2 * pow10(s1),
    ensures
        acres_to_sqft(n1, s1) <= acres_to_sqft(n2, s2),
{
    let d1 = pow10(s1) as int;
    let d2 = pow10(s2) as int;
    lemma_pow10_positive(s1);
    lemma_pow10_positive(s2);
    let c = SQFT_PER_ACRE as int;
    let a1 = 2 * n1 * c + d1;
    let b1 = 2 * d1;
    let a2 = 2 * n2 * c + d2;
    let b2 = 2 * d2;
    let q1 = a1 / b1;
    let q2 = a2 / b2;
    assert(a1 * b2 <= a2 * b1) by (nonlinear_arith)
        requires
            a1 == 2 * n1 * c + d1,
            b1 == 2 * d1,
            a2 == 2 * n2 * c + d2,
            b2 == 2 * d2,
            n1 * d2 <= n2 * d1,
            c >= 0,
    ;
    assert(q1 * b1 <= a1) by (nonlinear_arith)
        requires
            q1 == a1 / b1,
            b1 > 0,
            a1 >= 0,
    ;
    assert(q1 * b2 <= a2) by (nonlinear_arith)
        requires
            q1 * b1 <= a1,
            a1 * b2 <= a2 * b1,
            b1 > 0,
            b2 > 0,
            q1 >= 0,
    ;
    assert(q1 <= q2) by (nonlinear_arith)
        requires
            q1 * b2 <= a2,
            q2 == a2 / b2,
            b2 > 0,
            a2 >= 0,
            q1 >= 0,
    ;
}

/// One stat line of a listing card, classified.
#[derive(Debug, Clone, Copy, PartialEq, Eq, Structural)]
pub enum StatToken {
    /// Bedrooms; -1 when the count could not be read.
    Beds(i32),
    /// Bathrooms; -1 when the count could not be read.
    Baths(i32),
    /// Lot area given in square feet.
    LotArea(i32),
    /// Lot area given in acres, already converted to square feet.
    LotAcres(i32),
    /// Floor area of the house in square feet; 0 when the figure could not be read.
    HouseArea(u32),
    /// A line that names none of the above, or whose figure could not be read.
    Unrecognized,
}

/// The count that a bed or bath line starts with, or -1.
pub open spec fn leading_digit(t: Seq<char>) -> i32 {
    if t.len() > 0 && is_digit(t[0]) {
        digit_value(t[0]) as i32
    } else {
        -1i32
    }
}

/// The number in a stat figure such as `6,000`, ignoring thousands separators.
pub open spec fn figure_spec(w: Seq<char>, max: nat) -> Option<nat> {
    let d = remove_char(w, ',');
    if is_digits(d) && digits_value(d) <= max {
        Some(digits_value(d))
    } else {
        None
    }
}

/// How a stat line is read. The words are the pieces between single spaces; the figure is the
/// first word. A lot line of four words (`6,000 sq ft lot`) is in square feet, one of three words
/// (`0.5 acres lot`) is in acres.
pub open spec fn classify_spec(t: Seq<char>) -> StatToken {
    let words = split(t, ' ');
    if contains(t, "bed"@) {
        StatToken::Beds(leading_digit(t))
    } else if contains(t, "bath"@) {
        StatToken::Baths(leading_digit(t))
    } else if contains(t, "lot"@) {
        if words.len() == 4 {
            match figure_spec(words[0], i32::MAX as nat) {
                Some(n) => StatToken::LotArea(n as i32),
                None => StatToken::Unrecognized,
            }
        } else if words.len() == 3 {
            match acres_spec(words[0]) {
                Some((num, scale)) => if acres_to_sqft(num, scale) <= i32::MAX {
                    StatToken::LotAcres(acres_to_sqft(num, scale) as i32)
                } else {
                    StatToken::Unrecognized
                },
                None => StatToken::Unrecognized,
            }
        } else {
            StatToken::Unrecognized
        }
    } else if contains(t, "sq ft"@) {
        if words.len() == 3 {
            match figure_spec(words[0], u32::MAX as nat) {
                Some(n) => StatToken::HouseArea(n as u32),
                None => StatToken::HouseArea(0),
            }
        } else {
            StatToken::Unrecognized
        }
    } else {
        StatToken::Unrecognized
    }
}

fn leading_digit_of(v: &Vec<char>) -> (r: i32)
    ensures
        r == leading_digit(v@),
{
    if v.len() > 0 && is_digit_char(v[0]) {
        (v[0] as u32 - '0' as u32) as i32
    } else {
        -1
    }
}

fn figure_of(v: &Vec<char>, lo: usize, hi: usize, max: u64) -> (r: Option<u64>)
    requires
        lo <= hi <= v@.len(),
        max <= u32::MAX,
    ensures
        r == (match figure_spec(v@.subrange(lo as int, hi as int), max as nat) {
            Some(n) => Some(n as u64),
            None => None::<u64>,
        }),
{
    let d = without_char(v, lo, hi, ',');
    assert(d@.subrange(0, d@.len() as int) =~= d@);
    parse_digits(&d, 0, d.len(), max)
}

/// The acreage figure `v[lo..hi]` converted to square feet, when it reads as acres and the area
/// fits a signed 32-bit value.
fn acres_figure_of(v: &Vec<char>, lo: usize, hi: usize) -> (r: Option<i32>)
    requires
        lo <= hi <= v@.len(),
    ensures
        r == (match acres_spec(v@.subrange(lo as int, hi as int)) {
            Some((num, scale)) => if acres_to_sqft(num, scale) <= i32::MAX {
                Some(acres_to_sqft(num, scale) as i32)
            } else {
                None::<i32>
            },
            None => None::<i32>,
        }),
{
    let ghost w = v@.subrange(lo as int, hi as int);
    let pieces = split_ranges(v, lo, hi, '.');
    if pieces.len() > 2 {
        return None;
    }
    let d = without_char(v, lo, hi, '.');
    if d.len() > MAX_ACRE_DIGITS {
        return None;
    }
    assert(d@.subrange(0, d@.len() as int) =~= d@);
    let num = match parse_digits(&d, 0, d.len(), 999_999_999) {
        Some(x) => x,
        None => {
            proof {
                if is_digits(d@) {
                    lemma_small_digits(d@);
                }
            }
            return None;
        },
    };
    proof {
        lemma_small_digits(d@);
    }
    let scale: usize = if pieces.len() == 2 {
        let (a, b) = pieces[1];
        b - a
    } else {
        0
    };
    assert(scale <= d@.len()) by {
        if pieces@.len() == 2 {
            lemma_last_piece_shorter(w, '.');
        }
    }
    let mut p: u64 = 1;
    let mut i: usize = 0;
    while i < scale
        invariant
            i <= scale <= MAX_ACRE_DIGITS,
            p as nat == pow10(i as nat),
            p <= 1_000_000_000,
        decreases scale - i,
    {
        proof {
            lemma_pow10_bound(i as nat);
        }
        p = p * 10;
        i = i + 1;
    }
    proof {
        lemma_pow10_positive(scale as nat);
    }
    let sqft = (2 * num * SQFT_PER_ACRE + p) / (2 * p);
    if sqft > 0x7fff_ffff {
        None
    } else {
        Some(sqft as i32)
    }
}

proof fn lemma_pow10_bound(e: nat)
    requires
        e < MAX_ACRE_DIGITS,
    ensures
        pow10(e) * 10 <= 1_000_000_000,
{
    lemma_pow10_monotonic(e + 1, MAX_ACRE_DIGITS as nat);
    assert(pow10(e + 1) == 10 * pow10(e));
    reveal_with_fuel(pow10, 10);
    assert(pow10(9) == 1_000_000_000);
}

proof fn lemma_small_digits(d: Seq<char>)
    requires
        is_digits(d),
        d.len() <= MAX_ACRE_DIGITS,
    ensures
        digits_value(d) <= 999_999_999,
{
    lemma_digits_below_pow10(d);
    lemma_pow10_monotonic(d.len(), MAX_ACRE_DIGITS as nat);
    reveal_with_fuel(pow10, 10);
    assert(pow10(9) == 1_000_000_000);
}

proof fn lemma_digits_below_pow10(d: Seq<char>)
    requires
        forall|i: int| 0 <= i < d.len() ==> is_digit(#[trigger] d[i]),
    ensures
        digits_value(d) < pow10(d.len()),
    decreases d.len(),
{
    if d.len() > 0 {
        let init = d.drop_last();
        assert forall|i: int| 0 <= i < init.len() implies is_digit(#[trigger] init[i]) by {
            assert(init[i] == d[i]);
        }
        lemma_digits_below_pow10(init);
        assert(is_digit(d[d.len() - 1]));
        assert(digit_value(d.last()) <= 9);
    }
}

proof fn lemma_pow10_monotonic(a: nat, b: nat)
    requires
        a <= b,
    ensures
        pow10(a) <= pow10(b),
    decreases b,
{
    if a < b {
        lemma_pow10_monotonic(a, (b - 1) as nat);
    }
}

proof fn lemma_last_piece_shorter(w: Seq<char>, sep: char)
    ensures
        split(w, sep).last().len() <= remove_char(w, sep).len(),
    decreases w.len(),
{
    lemma_split_nonempty(w, sep);
    if w.len() > 0 {
        lemma_last_piece_shorter(w.drop_last(), sep);
        lemma_split_nonempty(w.drop_last(), sep);
    }
}

/// Classifies one stat line of a listing card.
pub fn classify_stat(token: &str) -> (r: StatToken)
    ensures
        r == classify_spec(token@),
{
    let v = chars_of(token);
    let n = v.len();
    assert(v@.subrange(0, n as int) =~= v@);
    let words = split_ranges(&v, 0, n, ' ');
    proof {
        lemma_split_nonempty(v@, ' ');
    }
    if contains_run(&v, &chars_of("bed")) {
        StatToken::Beds(leading_digit_of(&v))
    } else if contains_run(&v, &chars_of("bath")) {
        StatToken::Baths(leading_digit_of(&v))
    } else if contains_run(&v, &chars_of("lot")) {
        let (a, b) = words[0];
        if words.len() == 4 {
            match figure_of(&v, a, b, 0x7fff_ffff) {
                Some(x) => StatToken::LotArea(x as i32),
                None => StatToken::Unrecognized,
            }
        } else if words.len() == 3 {
            match acres_figure_of(&v, a, b) {
                Some(x) => StatToken::LotAcres(x),
                None => StatToken::Unrecognized,
            }
        } else {
            StatToken::Unrecognized
        }
    } else if contains_run(&v, &chars_of("sq ft")) {
        let (a, b) = words[0];
        if words.len() == 3 {
            match figure_of(&v, a, b, 0xffff_ffff) {
                Some(x) => StatToken::HouseArea(x as u32),
                None => StatToken::HouseArea(0),
            }
        } else {
            StatToken::Unrecognized
        }
    } else {
        StatToken::Unrecognized
    }
}

/// What the stat lines of a card have said so far; later lines of a kind replace earlier ones.
#[derive(Debug, Clone, Copy, PartialEq, Eq, Structural)]
pub struct Stats {
    pub beds: Option<i32>,
    pub baths: Option<i32>,
    pub sqft: Option<u32>,
    /// -1 while no lot line has been read.
    pub lot_size: i32,
}

pub open spec fn apply_stat(acc: Stats, t: StatToken) -> Stats {
    match t {
        StatToken::Beds(n) => Stats { beds: Some(n), ..acc },
        StatToken::Baths(n) => Stats { baths: Some(n), ..acc },
        StatToken::LotArea(n) => Stats { lot_size: n, ..acc },
        StatToken::LotAcres(n) => Stats { lot_size: n, ..acc },
        StatToken::HouseArea(n) => Stats { sqft: Some(n), ..acc },
        StatToken::Unrecognized => acc,
    }
}

/// The stats that a sequence of stat lines gives, read in order.
pub open spec fn stats_spec(ts: Seq<Seq<char>>) -> Stats
    decreases ts.len(),
{
    if ts.len() == 0 {
        Stats { beds: None, baths: None, sqft: None, lot_size: -1i32 }
    } else {
        apply_stat(stats_spec(ts.drop_last()), classify_spec(ts.last()))
    }
}

proof fn lemma_remove_digits_chars(w: Seq<char>, c: char)
    requires
        forall|i: int| 0 <= i < remove_char(w, c).len() ==> is_digit(#[trigger] remove_char(w, c)[i]),
    ensures
        forall|i: int| 0 <= i < w.len() ==> w[i] == c || is_digit(#[trigger] w[i]),
    decreases w.len(),
{
    if w.len() > 0 {
        let init = w.drop_last();
        let r = remove_char(init, c);
        if w.last() == c {
            assert(remove_char(w, c) == r);
        } else {
            assert(remove_char(w, c) == r.push(w.last()));
            assert forall|i: int| 0 <= i < r.len() implies is_digit(#[trigger] r[i]) by {
                assert(remove_char(w, c)[i] == r[i]);
            }
            assert(is_digit(remove_char(w, c)[r.len() as int]));
        }
        lemma_remove_digits_chars(init, c);
        assert forall|i: int| 0 <= i < w.len() implies w[i] == c || is_digit(#[trigger] w[i]) by {
            if i < init.len() {
                assert(w[i] == init[i]);
            }
        }
    }
}

proof fn lemma_lacks_start(t: Seq<char>, pat: Seq<char>)
    requires
        pat.len() > 0,
        forall|i: int| 0 <= i < t.len() ==> t[i] != pat[0],
    ensures
        !contains(t, pat),
{
    if contains(t, pat) {
        let i = choose|i: int| 0 <= i && i + pat.len() <= t.len() && #[trigger] t.subrange(i, i + pat.len()) == pat;
        assert(t.subrange(i, i + pat.len())[0] == t[i]);
    }
}

/// The stat line that gives a lot in acres: the figure, then ` acres lot`.
pub open spec fn acres_line(w: Seq<char>) -> Seq<char> {
    w + " acres lot"@
}

proof fn lemma_figure_chars(w: Seq<char>)
    requires
        acres_spec(w) is Some,
    ensures
        forall|i: int| 0 <= i < w.len() ==> w[i] == '.' || is_digit(#[trigger] w[i]),
{
    lemma_remove_digits_chars(w, '.');
}

proof fn lemma_acres_line_words(w: Seq<char>)
    requires
        acres_spec(w) is Some,
    ensures
        split(acres_line(w), ' ') == seq![w, "acres"@, "lot"@],
{
    reveal_strlit(" acres lot");
    reveal_strlit("acres");
    reveal_strlit("lot");
    lemma_figure_chars(w);
    assert(lacks(w, ' ')) by {
        assert forall|i: int| 0 <= i < w.len() implies w[i] != ' ' by {
            assert(w[i] == '.' || is_digit(w[i]));
        }
    }
    lemma_split_single(w, ' ');
    let rest = "acres"@ + seq![' '] + "lot"@;
    assert(acres_line(w) =~= w + seq![' '] + rest);
    lemma_split_concat(w, rest, ' ');
    lemma_split_concat("acres"@, "lot"@, ' ');
    assert(lacks("acres"@, ' '));
    assert(lacks("lot"@, ' '));
    lemma_split_single("acres"@, ' ');
    lemma_split_single("lot"@, ' ');
    assert(split(acres_line(w), ' ') =~= seq![w, "acres"@, "lot"@]);
}

proof fn lemma_acres_line_names(w: Seq<char>)
    requires
        acres_spec(w) is Some,
    ensures
        !contains(acres_line(w), "bed"@),
        !contains(acres_line(w), "bath"@),
        contains(acres_line(w), "lot"@),
{
    reveal_strlit(" acres lot");
    reveal_strlit("lot");
    reveal_strlit("bed");
    reveal_strlit("bath");
    let t = acres_line(w);
    let tail = " acres lot"@;
    lemma_figure_chars(w);
    assert forall|i: int| 0 <= i < t.len() implies t[i] != 'b' by {
        if i < w.len() {
            assert(t[i] == w[i]);
            assert(w[i] == '.' || is_digit(w[i]));
        } else {
            assert(t[i] == tail[i - w.len()]);
        }
    }
    lemma_lacks_start(t, "bed"@);
    lemma_lacks_start(t, "bath"@);
    let at = t.len() - 3;
    assert(t.subrange(at, at + "lot"@.len()) =~= "lot"@);
}

/// A lot line in acres reads as the figure's area in square feet, rounded.
pub proof fn lemma_acres_line(w: Seq<char>)
    requires
        acres_spec(w) is Some,
        acres_to_sqft(acres_spec(w)->Some_0.0, acres_spec(w)->Some_0.1) <= i32::MAX,
    ensures
        classify_spec(acres_line(w)) == StatToken::LotAcres(
            acres_to_sqft(acres_spec(w)->Some_0.0, acres_spec(w)->Some_0.1) as i32,
        ),
{
    lemma_acres_line_words(w);
    lemma_acres_line_names(w);
}

/// Of two lot lines in acres, the one with more acres reads as at least as many square feet.
pub proof fn lemma_acres_lines_monotonic(w1: Seq<char>, w2: Seq<char>)
    requires
        acres_spec(w1) is Some,
        acres_spec(w2) is Some,
        acres_spec(w1)->Some_0.0 * pow10(acres_spec(w2)->Some_0.1) <= acres_spec(w2)->Some_0.0 * pow10(
            acres_spec(w1)->Some_0.1,
        ),
        acres_to_sqft(acres_spec(w2)->Some_0.0, acres_spec(w2)->Some_0.1) <= i32::MAX,
    ensures
        classify_spec(acres_line(w1)) is LotAcres,
        classify_spec(acres_line(w2)) is LotAcres,
        classify_spec(acres_line(w1))->LotAcres_0 <= classify_spec(acres_line(w2))->LotAcres_0,
{
    let (n1, s1) = acres_spec(w1)->Some_0;
    let (n2, s2) = acres_spec(w2)->Some_0;
    lemma_acreage_monotonic(n1, s1, n2, s2);
    lemma_acres_line(w1);
    lemma_acres_line(w2);
}

} // verus!
