//! Measured values written with a unit, such as `-0.236 V` or `-2.83mA`.
//!
//! The scale of a unit is a power of ten; the library gives its exponent, and
//! the caller turns the number text and the exponent into floating point.
use crate::chars::{is_white_space, white_space, Text};
use crate::pattern::{
    assemble, concat, find_from, find_match, one, plus, seg_views, segment_span, segment_text,
    star, CharClass, Found, Piece, Quant, Pattern, is_digit,
};
use vstd::prelude::*;

verus! {

/// `s` without its leading white space.
pub open spec fn trim_start(s: Seq<char>) -> Seq<char>
    decreases s.len(),
{
    if s.len() > 0 && is_white_space(s[0]) {
        trim_start(s.drop_first())
    } else {
        s
    }
}

/// `s` without its trailing white space.
pub open spec fn trim_end(s: Seq<char>) -> Seq<char>
    decreases s.len(),
{
    if s.len() > 0 && is_white_space(s.last()) {
        trim_end(s.drop_last())
    } else {
        s
    }
}

/// `s` without leading and trailing white space (`str::trim`).
pub open spec fn trim(s: Seq<char>) -> Seq<char> {
    trim_end(trim_start(s))
}

/// The power of ten of a metric prefix: `G`, `M`, `k`, `m`, `u`, `n`, `p`.
pub open spec fn prefix_exponent(c: char) -> Option<int> {
    if c == 'G' {
        Some(9)
    } else if c == 'M' {
        Some(6)
    } else if c == 'k' {
        Some(3)
    } else if c == 'm' {
        Some(-3)
    } else if c == 'u' {
        Some(-6)
    } else if c == 'n' {
        Some(-9)
    } else if c == 'p' {
        Some(-12)
    } else {
        None
    }
}

/// Whether `c` is a base unit: volt or ampere.
pub open spec fn is_base_unit(c: char) -> bool {
    c == 'V' || c == 'A'
}

/// The power of ten that the unit `u` (already trimmed) stands for: none, or
/// a base unit (`V`, `A`), optionally behind a metric prefix; `fV` too.  None
/// for anything else, whose scale is zero.
pub open spec fn unit_scale(u: Seq<char>) -> Option<int> {
    if u.len() == 0 {
        Some(0)
    } else if u.len() == 1 {
        if is_base_unit(u[0]) {
            Some(0)
        } else {
            prefix_exponent(u[0])
        }
    } else if u.len() == 2 && is_base_unit(u[1]) {
        if u[0] == 'f' && u[1] == 'V' {
            Some(-15)
        } else {
            prefix_exponent(u[0])
        }
    } else {
        None
    }
}

/// The position of the first character of `s` from `i` on that is not white
/// space.
proof fn lemma_trim_start(s: Seq<char>, i: int)
    requires
        0 <= i <= s.len(),
        forall|j: int| 0 <= j < i ==> is_white_space(#[trigger] s[j]),
    ensures
        trim_start(s) == trim_start(s.skip(i)),
    decreases i,
{
    if i > 0 {
        assert(s.skip(1) =~= s.drop_first());
        lemma_trim_start(s.drop_first(), i - 1);
        assert(s.drop_first().skip(i - 1) =~= s.skip(i));
    } else {
        assert(s.skip(0) =~= s);
    }
}

proof fn lemma_trim_end(s: Seq<char>, i: int)
    requires
        0 <= i <= s.len(),
        forall|j: int| i <= j < s.len() ==> is_white_space(#[trigger] s[j]),
    ensures
        trim_end(s) == trim_end(s.take(i)),
    decreases s.len() - i,
{
    if i < s.len() {
        assert(s.take(s.len() - 1) =~= s.drop_last());
        lemma_trim_end(s.drop_last(), i);
        assert(s.drop_last().take(i) =~= s.take(i));
    } else {
        assert(s.take(i) =~= s);
    }
}

/// Where the trimmed part of `s[a..b]` starts and ends.
pub fn trim_range(s: &Vec<char>, a: usize, b: usize) -> (r: (usize, usize))
    requires
        a <= b <= s.len(),
    ensures
        a <= r.0 <= r.1 <= b,
        s@.subrange(r.0 as int, r.1 as int) == trim(s@.subrange(a as int, b as int)),
{
    let ghost t = s@.subrange(a as int, b as int);
    let mut x: usize = a;
    while x < b && white_space(s[x])
        invariant
            a <= x <= b <= s.len(),
            t == s@.subrange(a as int, b as int),
            forall|j: int| 0 <= j < x - a ==> is_white_space(#[trigger] t[j]),
        decreases b - x,
    {
        assert(t[x - a] == s@[x as int]);
        x += 1;
    }
    proof {
        lemma_trim_start(t, x - a);
        let rest = t.skip(x - a);
        assert(rest =~= s@.subrange(x as int, b as int));
        if rest.len() > 0 {
            assert(rest[0] == s@[x as int]);
        }
        assert(trim_start(rest) == rest);
    }
    let mut y: usize = b;
    while y > x && white_space(s[y - 1])
        invariant
            a <= x <= y <= b <= s.len(),
            forall|j: int| y <= j < b ==> is_white_space(#[trigger] s@[j]),
        decreases y - x,
    {
        y -= 1;
    }
    proof {
        let rest = s@.subrange(x as int, b as int);
        assert forall|j: int| y - x <= j < rest.len() implies is_white_space(#[trigger] rest[j]) by {
            assert(rest[j] == s@[x + j]);
        }
        lemma_trim_end(rest, (y - x) as int);
        let mid = rest.take((y - x) as int);
        assert(mid =~= s@.subrange(x as int, y as int));
        if mid.len() > 0 {
            assert(mid.last() == s@[y - 1]);
        }
        assert(trim_end(mid) == mid);
        assert(t.skip(x - a) =~= rest);
    }
    (x, y)
}

/// Where the trimmed part of `s` starts and ends.
pub fn trim_span(s: &Vec<char>) -> (r: (usize, usize))
    ensures
        r.0 <= r.1 <= s.len(),
        s@.subrange(r.0 as int, r.1 as int) == trim(s@),
{
    assert(s@.subrange(0, s.len() as int) =~= s@);
    trim_range(s, 0, s.len())
}

/// The power of ten that a unit stands for, after trimming white space
/// around it; `None` for a unit outside the table, whose scale is zero.
pub fn unit_exponent(unit: &str) -> (r: Option<i8>)
    ensures
        match r {
            Some(e) => unit_scale(trim(unit@)) == Some(e as int),
            None => unit_scale(trim(unit@)) is None,
        },
{
    let cs = crate::chars::chars_of(unit);
    let (a, b) = trim_span(&cs);
    let ghost u = trim(unit@);
    if b - a == 0 {
        return Some(0);
    }
    let c0 = cs[a];
    if b - a == 1 {
        if c0 == 'V' || c0 == 'A' {
            return Some(0);
        }
        return prefix_of(c0);
    }
    let c1 = cs[a + 1];
    if b - a == 2 && (c1 == 'V' || c1 == 'A') {
        if c0 == 'f' && c1 == 'V' {
            return Some(-15);
        }
        return prefix_of(c0);
    }
    None
}

fn prefix_of(c: char) -> (r: Option<i8>)
    ensures
        match r {
            Some(e) => prefix_exponent(c) == Some(e as int),
            None => prefix_exponent(c) is None,
        },
{
    if c == 'G' {
        Some(9)
    } else if c == 'M' {
        Some(6)
    } else if c == 'k' {
        Some(3)
    } else if c == 'm' {
        Some(-3)
    } else if c == 'u' {
        Some(-6)
    } else if c == 'n' {
        Some(-9)
    } else if c == 'p' {
        Some(-12)
    } else {
        None
    }
}

/// Digits with at most one decimal point, and at least one digit.
pub open spec fn unsigned_decimal(s: Seq<char>) -> bool {
    &&& forall|i: int| 0 <= i < s.len() ==> is_digit(#[trigger] s[i]) || s[i] == '.'
    &&& forall|i: int, j: int| 0 <= i < j < s.len() && #[trigger] s[i] == '.' ==> #[trigger] s[j] != '.'
    &&& exists|i: int| 0 <= i < s.len() && is_digit(#[trigger] s[i])
}

/// Whether a run of `[\-.0-9]` characters is a number that `f64::from_str`
/// accepts: an optional minus sign, then digits with at most one decimal
/// point and at least one digit.
pub open spec fn is_float_text(s: Seq<char>) -> bool {
    if s.len() > 0 && s[0] == '-' {
        unsigned_decimal(s.drop_first())
    } else {
        unsigned_decimal(s)
    }
}

/// Whether `s[from..]` is digits with at most one decimal point and at least
/// one digit.
fn unsigned_decimal_from(s: &Vec<char>, from: usize) -> (b: bool)
    requires
        from <= s.len(),
    ensures
        b == unsigned_decimal(s@.skip(from as int)),
{
    let ghost t = s@.skip(from as int);
    let mut i = from;
    let mut dot = false;
    let mut digit = false;
    while i < s.len()
        invariant
            from <= i <= s.len(),
            t == s@.skip(from as int),
            forall|k: int| 0 <= k < i - from ==> is_digit(#[trigger] t[k]) || t[k] == '.',
            forall|k: int, j: int| 0 <= k < j < i - from && #[trigger] t[k] == '.' ==> #[trigger] t[j] != '.',
            dot <==> exists|k: int| 0 <= k < i - from && #[trigger] t[k] == '.',
            digit <==> exists|k: int| 0 <= k < i - from && is_digit(#[trigger] t[k]),
        decreases s.len() - i,
    {
        let c = s[i];
        let u = c as u32;
        assert(t[i - from] == c);
        if 0x30 <= u && u <= 0x39 {
            digit = true;
        } else if c == '.' {
            if dot {
                assert(!unsigned_decimal(t)) by {
                    let k = choose|k: int| 0 <= k < i - from && #[trigger] t[k] == '.';
                    assert(t[k] == '.' && t[i - from] == '.');
                }
                return false;
            }
            dot = true;
        } else {
            assert(!(is_digit(t[i - from]) || t[i - from] == '.'));
            return false;
        }
        i += 1;
    }
    assert(t.len() == i - from);
    digit
}

/// Whether the characters of `s` form a number that `f64::from_str`
/// accepts (for text made of `[\-.0-9]`).
pub fn float_text(s: &Vec<char>) -> (b: bool)
    ensures
        b == is_float_text(s@),
{
    if s.len() > 0 && s[0] == '-' {
        assert(s@.skip(1) =~= s@.drop_first());
        unsigned_decimal_from(s, 1)
    } else {
        assert(s@.skip(0) =~= s@);
        unsigned_decimal_from(s, 0)
    }
}

/// A number followed by its unit: a run of `[\-.0-9]`, then a run of blanks
/// and letters.
pub open spec fn value_segments() -> Seq<Seq<Piece>> {
    seq![seq![plus(CharClass::NumberChar)], seq![star(CharClass::LetterOrBlank)]]
}

/// Why a value with a unit could not be read.
#[derive(Debug, Clone, Copy, PartialEq, Eq)]
pub enum UnitError {
    /// No number in the text.
    NoNumber,
    /// The first run of number characters is not a number.
    BadNumber,
}

/// The number text and the unit text of the first number in `s`.
pub open spec fn value_parts(s: Seq<char>) -> Result<(Seq<char>, Seq<char>), UnitError> {
    match find_from(concat(value_segments()), s, 0) {
        Some(m) => {
            let n = segment_text(s, m, value_segments(), 0);
            if is_float_text(n) {
                Ok((n, segment_text(s, m, value_segments(), 1)))
            } else {
                Err(UnitError::BadNumber)
            }
        },
        None => Err(UnitError::NoNumber),
    }
}

/// A value read from text: the number as written, the unit as written, and
/// the power of ten that the unit stands for (`None`: scale zero).
pub struct ValueWithUnit {
    pub number: String,
    pub unit: String,
    pub exponent: Option<i8>,
}

/// An exponent as an integer.
pub open spec fn exponent_view(e: Option<i8>) -> Option<int> {
    match e {
        Some(x) => Some(x as int),
        None => None,
    }
}

/// The pattern of a value with its unit.
pub fn value_pattern() -> (p: Pattern)
    ensures
        p.describes(value_segments()),
{
    let mut segs: Vec<Vec<Piece>> = Vec::new();
    segs.push(vec![Piece { class: CharClass::NumberChar, quant: Quant::Plus }]);
    segs.push(vec![Piece { class: CharClass::LetterOrBlank, quant: Quant::Star }]);
    assert(seg_views(segs@) =~~= value_segments());
    assemble(segs)
}

/// Reads the first number in `src` and the unit written after it.
pub fn value_with_unit(src: &str) -> (r: Result<ValueWithUnit, UnitError>)
    ensures
        match r {
            Ok(v) => value_parts(src@) == Ok::<(Seq<char>, Seq<char>), UnitError>((v.number@, v.unit@))
                && exponent_view(v.exponent) == unit_scale(trim(v.unit@)),
            Err(e) => value_parts(src@) == Err::<(Seq<char>, Seq<char>), UnitError>(e),
        },
{
    let text = Text::new(src);
    let p = value_pattern();
    let found = find_match(&p.pieces, &text.chars, 0);
    let m = match found {
        Some(m) => m,
        None => {
            return Err(UnitError::NoNumber);
        },
    };
    proof {
        crate::pattern::lemma_find_from(p.pieces@, text.chars@, 0);
    }
    let (na, nb) = segment_span(&p, Ghost(value_segments()), &text.chars, &m, 0);
    let (ua, ub) = segment_span(&p, Ghost(value_segments()), &text.chars, &m, 1);
    let digits = crate::txt::copy_range(&text.chars, na, nb);
    if !float_text(&digits) {
        return Err(UnitError::BadNumber);
    }
    let number = text.slice(na, nb).to_owned();
    let unit_str = text.slice(ua, ub);
    let exponent = unit_exponent(unit_str);
    Ok(ValueWithUnit { number, unit: unit_str.to_owned(), exponent })
}

/// Whether every character of `w` is white space.
pub open spec fn all_white(w: Seq<char>) -> bool {
    forall|i: int| 0 <= i < w.len() ==> is_white_space(#[trigger] w[i])
}

proof fn lemma_trim_start_prefix(w: Seq<char>, s: Seq<char>)
    requires
        all_white(w),
    ensures
        trim_start(w + s) == trim_start(s),
    decreases w.len(),
{
    if w.len() > 0 {
        assert((w + s)[0] == w[0]);
        assert((w + s).drop_first() =~= w.drop_first() + s);
        assert(all_white(w.drop_first()));
        lemma_trim_start_prefix(w.drop_first(), s);
    } else {
        assert(w + s =~= s);
    }
}

proof fn lemma_trim_end_suffix(s: Seq<char>, w: Seq<char>)
    requires
        all_white(w),
    ensures
        trim_end(s + w) == trim_end(s),
    decreases w.len(),
{
    if w.len() > 0 {
        assert((s + w).last() == w.last());
        assert((s + w).drop_last() =~= s + w.drop_last());
        assert(all_white(w.drop_last()));
        lemma_trim_end_suffix(s, w.drop_last());
    } else {
        assert(s + w =~= s);
    }
}

proof fn lemma_trim_start_suffix(s: Seq<char>, w: Seq<char>)
    requires
        !all_white(s),
    ensures
        trim_start(s + w) == trim_start(s) + w,
    decreases s.len(),
{
    assert((s + w)[0] == s[0]);
    if is_white_space(s[0]) {
        assert((s + w).drop_first() =~= s.drop_first() + w);
        assert(!all_white(s.drop_first())) by {
            let i = choose|i: int| 0 <= i < s.len() && !is_white_space(#[trigger] s[i]);
            assert(s.drop_first()[i - 1] == s[i]);
        }
        lemma_trim_start_suffix(s.drop_first(), w);
    }
}

proof fn lemma_trim_start_all(w: Seq<char>)
    requires
        all_white(w),
    ensures
        trim_start(w) =~= seq![],
    decreases w.len(),
{
    if w.len() > 0 {
        assert(all_white(w.drop_first()));
        lemma_trim_start_all(w.drop_first());
    }
}

/// White space around a unit does not change its scale: the unit is read
/// after trimming.
pub proof fn lemma_scale_ignores_white_space(w1: Seq<char>, u: Seq<char>, w2: Seq<char>)
    requires
        all_white(w1),
        all_white(w2),
    ensures
        unit_scale(trim(w1 + u + w2)) == unit_scale(trim(u)),
{
    lemma_trim_start_prefix(w1, u + w2);
    assert(w1 + u + w2 =~= w1 + (u + w2));
    if all_white(u) {
        assert(all_white(u + w2));
        lemma_trim_start_all(u + w2);
        lemma_trim_start_all(u);
    } else {
        lemma_trim_start_suffix(u, w2);
        lemma_trim_end_suffix(trim_start(u), w2);
    }
}

/// A volt or ampere sign after a metric prefix (or after nothing) does not
/// change the scale: `mV`, `mA` and `m` all stand for 10^-3.
pub proof fn lemma_base_unit_keeps_scale(p: Seq<char>, b: char)
    requires
        p.len() == 0 || (p.len() == 1 && prefix_exponent(p[0]) is Some),
        is_base_unit(b),
    ensures
        unit_scale(p.push(b)) == unit_scale(p),
{
    if p.len() == 1 {
        assert(p.push(b)[0] == p[0]);
        assert(p.push(b)[1] == b);
    } else {
        assert(p.push(b)[0] == b);
    }
}

/// The scale of a known unit is a power of ten between 10^-15 and 10^9.
pub proof fn lemma_scale_range(u: Seq<char>)
    ensures
        unit_scale(u) matches Some(e) ==> -15 <= e <= 9,
{
}

} // verus!
