//! Patterns made of a sequence of quantified character classes, and their
//! leftmost-first matching.
//!
//! The text log format is described by patterns of this shape (what a regular
//! expression without alternation or nested groups can say).  A pattern is a
//! sequence of pieces; each piece accepts a run of characters of one class,
//! exactly one character, or any number of them (at least one for `Plus`),
//! greedily or lazily.  The meaning is the usual backtracking one: at a start
//! position the pieces are tried from left to right, a greedy piece tries its
//! longest run first and a lazy piece its shortest, and the first combination
//! that lets all later pieces match is the match.  A search reports the match
//! at the leftmost start position where one exists.
use crate::chars::{chars_of, is_white_space, white_space};
use vstd::prelude::*;

verus! {

/// A set of characters that one piece of a pattern accepts.
#[derive(Clone, Copy, Debug)]
pub enum CharClass {
    /// Any character (`[\s\S]`).
    Any,
    /// Unicode white space (`\s`).
    Space,
    /// Anything but white space (`\S`, `[^\s]`).
    NonSpace,
    /// A blank or anything but white space (`[ \S]`): a character of a line.
    LineChar,
    /// An ASCII digit (`[0-9]`).
    Digit,
    /// An ASCII capital letter (`[A-Z]`).
    Upper,
    /// An ASCII letter (`[a-zA-Z]`).
    Letter,
    /// A character of a signed decimal number (`[\-.0-9]`).
    NumberChar,
    /// A digit or a decimal point (`[.0-9]`).
    DecimalChar,
    /// A blank or a digit (`[ 0-9]`).
    DigitOrBlank,
    /// A blank or a letter (`[ a-zA-Z]`).
    LetterOrBlank,
    /// Exactly the character with the given code point.
    Exactly(u32),
}

/// How many characters a piece takes.
#[derive(Clone, Copy, Debug)]
pub enum Quant {
    /// Exactly one.
    One,
    /// Any number, longest first (`*`).
    Star,
    /// At least one, longest first (`+`).
    Plus,
    /// Any number, shortest first (`*?`).
    LazyStar,
    /// At least one, shortest first (`+?`).
    LazyPlus,
}

/// One element of a pattern.
#[derive(Clone, Copy, Debug)]
pub struct Piece {
    pub class: CharClass,
    pub quant: Quant,
}

pub open spec fn is_digit(c: char) -> bool {
    0x30 <= c as u32 <= 0x39
}

pub open spec fn is_upper(c: char) -> bool {
    0x41 <= c as u32 <= 0x5a
}

pub open spec fn is_letter(c: char) -> bool {
    is_upper(c) || (0x61 <= c as u32 <= 0x7a)
}

/// Whether the class `cls` holds the character `c`.
pub open spec fn class_has(cls: CharClass, c: char) -> bool {
    match cls {
        CharClass::Any => true,
        CharClass::Space => is_white_space(c),
        CharClass::NonSpace => !is_white_space(c),
        CharClass::LineChar => c == ' ' || !is_white_space(c),
        CharClass::Digit => is_digit(c),
        CharClass::Upper => is_upper(c),
        CharClass::Letter => is_letter(c),
        CharClass::NumberChar => c == '-' || c == '.' || is_digit(c),
        CharClass::DecimalChar => c == '.' || is_digit(c),
        CharClass::DigitOrBlank => c == ' ' || is_digit(c),
        CharClass::LetterOrBlank => c == ' ' || is_letter(c),
        CharClass::Exactly(x) => c as u32 == x,
    }
}

/// The fewest characters a quantifier takes.
pub open spec fn quant_min(q: Quant) -> int {
    match q {
        Quant::Star | Quant::LazyStar => 0,
        _ => 1,
    }
}

/// Whether a quantifier tries its longest run first.
pub open spec fn quant_greedy(q: Quant) -> bool {
    match q {
        Quant::LazyStar | Quant::LazyPlus => false,
        _ => true,
    }
}

/// The length of the longest run of characters of class `cls` in `t` that
/// starts at `pos`.
pub open spec fn run_len(cls: CharClass, t: Seq<char>, pos: int) -> int
    decreases t.len() - pos,
{
    if 0 <= pos < t.len() && class_has(cls, t[pos]) {
        1 + run_len(cls, t, pos + 1)
    } else {
        0
    }
}

/// The most characters that piece `pc` can take at `pos`.
pub open spec fn avail(pc: Piece, t: Seq<char>, pos: int) -> int {
    match pc.quant {
        Quant::One => if run_len(pc.class, t, pos) > 0 {
            1
        } else {
            0
        },
        _ => run_len(pc.class, t, pos),
    }
}

/// The leftmost-first match of pieces `i..` of `p` anchored at `pos`: the
/// number of characters that each of these pieces takes.
pub open spec fn match_pieces(p: Seq<Piece>, i: int, t: Seq<char>, pos: int) -> Option<Seq<int>>
    decreases p.len() - i, 1int, 0int,
{
    if i < 0 || i >= p.len() {
        Some(seq![])
    } else if quant_greedy(p[i].quant) {
        try_longest(p, i, t, pos, avail(p[i], t, pos))
    } else {
        try_shortest(p, i, t, pos, quant_min(p[i].quant))
    }
}

/// Piece `i` takes `k` characters, or fewer if the rest cannot match.
pub open spec fn try_longest(p: Seq<Piece>, i: int, t: Seq<char>, pos: int, k: int) -> Option<
    Seq<int>,
>
    decreases p.len() - i, 0int, k,
{
    if i < 0 || i >= p.len() || k < quant_min(p[i].quant) || k < 0 {
        None
    } else {
        match match_pieces(p, i + 1, t, pos + k) {
            Some(rest) => Some(seq![k] + rest),
            None => if k > quant_min(p[i].quant) && k > 0 {
                try_longest(p, i, t, pos, k - 1)
            } else {
                None
            },
        }
    }
}

/// Piece `i` takes `k` characters, or more if the rest cannot match.
pub open spec fn try_shortest(p: Seq<Piece>, i: int, t: Seq<char>, pos: int, k: int) -> Option<
    Seq<int>,
>
    decreases p.len() - i, 0int, avail(p[i], t, pos) - k,
{
    if i < 0 || i >= p.len() || k > avail(p[i], t, pos) || k < 0 {
        None
    } else {
        match match_pieces(p, i + 1, t, pos + k) {
            Some(rest) => Some(seq![k] + rest),
            None => if k < avail(p[i], t, pos) {
                try_shortest(p, i, t, pos, k + 1)
            } else {
                None
            },
        }
    }
}

/// The sum of a sequence of counts.
pub open spec fn total(c: Seq<int>) -> int
    decreases c.len(),
{
    if c.len() == 0 {
        0
    } else {
        c[0] + total(c.drop_first())
    }
}

/// A match: where it starts, and how many characters each piece takes.
pub struct Found {
    pub start: int,
    pub counts: Seq<int>,
}

/// Where the match ends.
pub open spec fn found_end(m: Found) -> int {
    m.start + total(m.counts)
}

/// Where piece `j` of the match starts.
pub open spec fn piece_start(m: Found, j: int) -> int {
    m.start + total(m.counts.take(j))
}

/// The text that pieces `a..b` of match `m` took.
pub open spec fn group_text(t: Seq<char>, m: Found, a: int, b: int) -> Seq<char> {
    t.subrange(piece_start(m, a), piece_start(m, b))
}

/// The leftmost match of `p` in `t` that starts at `from` or later.
pub open spec fn find_from(p: Seq<Piece>, t: Seq<char>, from: int) -> Option<Found>
    decreases t.len() + 1 - from,
{
    if from < 0 || from > t.len() {
        None
    } else {
        match match_pieces(p, 0, t, from) {
            Some(c) => Some(Found { start: from, counts: c }),
            None => find_from(p, t, from + 1),
        }
    }
}

/// Where the search for the next match resumes after match `m`: at its end,
/// or one past its start if it took no characters.
pub open spec fn resume_at(m: Found) -> int {
    if found_end(m) > m.start {
        found_end(m)
    } else {
        m.start + 1
    }
}

/// All successive matches of `p` in `t` from `from` on: each search resumes
/// where the previous match ended.
pub open spec fn all_matches(p: Seq<Piece>, t: Seq<char>, from: int) -> Seq<Found>
    decreases t.len() + 1 - from,
{
    if from < 0 || from > t.len() {
        seq![]
    } else {
        match find_from(p, t, from) {
            Some(m) => if m.start >= from && from < resume_at(m) <= t.len() + 1 {
                seq![m] + all_matches(p, t, resume_at(m))
            } else {
                seq![]
            },
            None => seq![],
        }
    }
}

/// Whether `p` matches somewhere in `t`.
pub open spec fn matches_somewhere(p: Seq<Piece>, t: Seq<char>) -> bool {
    find_from(p, t, 0) is Some
}

/// The counts of an executable match, as integers.
pub open spec fn ints(v: Seq<usize>) -> Seq<int> {
    v.map_values(|k: usize| k as int)
}

// ---------------------------------------------------------------------------
// Facts about the definitions.
// ---------------------------------------------------------------------------

proof fn lemma_run_len_bounds(cls: CharClass, t: Seq<char>, pos: int)
    requires
        0 <= pos <= t.len(),
    ensures
        0 <= run_len(cls, t, pos) <= t.len() - pos,
        forall|j: int| pos <= j < pos + run_len(cls, t, pos) ==> class_has(cls, #[trigger] t[j]),
    decreases t.len() - pos,
{
    if pos < t.len() && class_has(cls, t[pos]) {
        lemma_run_len_bounds(cls, t, pos + 1);
    }
}

proof fn lemma_avail_bounds(pc: Piece, t: Seq<char>, pos: int)
    requires
        0 <= pos <= t.len(),
    ensures
        0 <= avail(pc, t, pos) <= run_len(pc.class, t, pos) <= t.len() - pos,
{
    lemma_run_len_bounds(pc.class, t, pos);
}

pub proof fn lemma_total_take(c: Seq<int>, j: int)
    requires
        0 <= j < c.len(),
    ensures
        total(c.take(j + 1)) == total(c.take(j)) + c[j],
    decreases j,
{
    if j == 0 {
        assert(c.take(1).drop_first() =~= seq![]);
        assert(c.take(0) =~= seq![]);
    } else {
        lemma_total_take(c.drop_first(), j - 1);
        assert(c.take(j + 1).drop_first() =~= c.drop_first().take(j));
        assert(c.take(j).drop_first() =~= c.drop_first().take(j - 1));
    }
}

/// What a match of pieces `i..` at `pos` looks like: one count per piece,
/// each within what the piece allows, all inside the text.
pub open spec fn fits(p: Seq<Piece>, i: int, t: Seq<char>, pos: int, c: Seq<int>) -> bool
    decreases p.len() - i,
{
    if i < 0 || i >= p.len() {
        c.len() == 0
    } else {
        &&& c.len() > 0
        &&& quant_min(p[i].quant) <= c[0] <= avail(p[i], t, pos)
        &&& fits(p, i + 1, t, pos + c[0], c.drop_first())
    }
}

proof fn lemma_fits_total(p: Seq<Piece>, i: int, t: Seq<char>, pos: int, c: Seq<int>)
    requires
        0 <= i <= p.len(),
        0 <= pos <= t.len(),
        fits(p, i, t, pos, c),
    ensures
        c.len() == p.len() - i,
        pos <= pos + total(c) <= t.len(),
    decreases p.len() - i,
{
    if i < p.len() {
        lemma_avail_bounds(p[i], t, pos);
        lemma_fits_total(p, i + 1, t, pos + c[0], c.drop_first());
    }
}

/// Every match that the search reports is a match: each piece takes a number
/// of characters that its quantifier allows, all of its class.
pub proof fn lemma_match_fits(p: Seq<Piece>, i: int, t: Seq<char>, pos: int)
    requires
        0 <= i <= p.len(),
        0 <= pos <= t.len(),
    ensures
        match_pieces(p, i, t, pos) matches Some(c) ==> fits(p, i, t, pos, c),
    decreases p.len() - i, 1int, 0int,
{
    if i < p.len() {
        lemma_avail_bounds(p[i], t, pos);
        if quant_greedy(p[i].quant) {
            lemma_longest_fits(p, i, t, pos, avail(p[i], t, pos));
        } else {
            lemma_shortest_fits(p, i, t, pos, quant_min(p[i].quant));
        }
    }
}

proof fn lemma_longest_fits(p: Seq<Piece>, i: int, t: Seq<char>, pos: int, k: int)
    requires
        0 <= i < p.len(),
        0 <= pos <= t.len(),
        k <= avail(p[i], t, pos),
    ensures
        try_longest(p, i, t, pos, k) matches Some(c) ==> fits(p, i, t, pos, c),
    decreases p.len() - i, 0int, k,
{
    if k >= quant_min(p[i].quant) && k >= 0 {
        lemma_avail_bounds(p[i], t, pos);
        lemma_match_fits(p, i + 1, t, pos + k);
        if let Some(rest) = match_pieces(p, i + 1, t, pos + k) {
            assert((seq![k] + rest).drop_first() =~= rest);
        } else if k > quant_min(p[i].quant) && k > 0 {
            lemma_longest_fits(p, i, t, pos, k - 1);
        }
    }
}

proof fn lemma_shortest_fits(p: Seq<Piece>, i: int, t: Seq<char>, pos: int, k: int)
    requires
        0 <= i < p.len(),
        0 <= pos <= t.len(),
        k >= quant_min(p[i].quant),
    ensures
        try_shortest(p, i, t, pos, k) matches Some(c) ==> fits(p, i, t, pos, c),
    decreases p.len() - i, 0int, avail(p[i], t, pos) - k,
{
    if k <= avail(p[i], t, pos) && k >= 0 {
        lemma_avail_bounds(p[i], t, pos);
        lemma_match_fits(p, i + 1, t, pos + k);
        if let Some(rest) = match_pieces(p, i + 1, t, pos + k) {
            assert((seq![k] + rest).drop_first() =~= rest);
        } else if k < avail(p[i], t, pos) {
            lemma_shortest_fits(p, i, t, pos, k + 1);
        }
    }
}

/// A match found by the search lies inside the text, starts at `from` or
/// later, and has one count per piece.
pub proof fn lemma_find_from(p: Seq<Piece>, t: Seq<char>, from: int)
    requires
        0 <= from,
    ensures
        find_from(p, t, from) matches Some(m) ==> {
            &&& from <= m.start <= found_end(m) <= t.len()
            &&& m.counts.len() == p.len()
            &&& fits(p, 0, t, m.start, m.counts)
        },
    decreases t.len() + 1 - from,
{
    if from <= t.len() {
        lemma_match_fits(p, 0, t, from);
        if let Some(c) = match_pieces(p, 0, t, from) {
            lemma_fits_total(p, 0, t, from, c);
        } else {
            lemma_find_from(p, t, from + 1);
        }
    }
}

// ---------------------------------------------------------------------------
// Execution.
// ---------------------------------------------------------------------------

/// Whether the class `cls` holds the character `c`.
pub fn class_contains(cls: &CharClass, c: char) -> (b: bool)
    ensures
        b == class_has(*cls, c),
{
    let u = c as u32;
    match cls {
        CharClass::Any => true,
        CharClass::Space => white_space(c),
        CharClass::NonSpace => !white_space(c),
        CharClass::LineChar => c == ' ' || !white_space(c),
        CharClass::Digit => 0x30 <= u && u <= 0x39,
        CharClass::Upper => 0x41 <= u && u <= 0x5a,
        CharClass::Letter => (0x41 <= u && u <= 0x5a) || (0x61 <= u && u <= 0x7a),
        CharClass::NumberChar => c == '-' || c == '.' || (0x30 <= u && u <= 0x39),
        CharClass::DecimalChar => c == '.' || (0x30 <= u && u <= 0x39),
        CharClass::DigitOrBlank => c == ' ' || (0x30 <= u && u <= 0x39),
        CharClass::LetterOrBlank => c == ' ' || (0x41 <= u && u <= 0x5a) || (0x61 <= u && u
            <= 0x7a),
        CharClass::Exactly(x) => u == *x,
    }
}

fn run_length(cls: &CharClass, t: &Vec<char>, pos: usize) -> (n: usize)
    requires
        pos <= t.len(),
    ensures
        n == run_len(*cls, t@, pos as int),
        pos + n <= t.len(),
{
    proof {
        lemma_run_len_bounds(*cls, t@, pos as int);
    }
    let mut j = pos;
    while j < t.len() && class_contains(cls, t[j])
        invariant
            pos <= j <= t.len(),
            run_len(*cls, t@, pos as int) == (j - pos) + run_len(*cls, t@, j as int),
        decreases t.len() - j,
    {
        j += 1;
    }
    j - pos
}

fn available(pc: &Piece, t: &Vec<char>, pos: usize) -> (n: usize)
    requires
        pos <= t.len(),
    ensures
        n == avail(*pc, t@, pos as int),
        pos + n <= t.len(),
{
    let r = run_length(&pc.class, t, pos);
    match pc.quant {
        Quant::One => if r > 0 {
            1
        } else {
            0
        },
        _ => r,
    }
}

fn min_of(q: &Quant) -> (n: usize)
    ensures
        n == quant_min(*q),
{
    match q {
        Quant::Star | Quant::LazyStar => 0,
        _ => 1,
    }
}

fn greedy(q: &Quant) -> (b: bool)
    ensures
        b == quant_greedy(*q),
{
    match q {
        Quant::LazyStar | Quant::LazyPlus => false,
        _ => true,
    }
}

/// The leftmost-first match of pieces `i..` of `p` anchored at `pos`.
pub fn match_at(p: &Vec<Piece>, i: usize, t: &Vec<char>, pos: usize) -> (r: Option<Vec<usize>>)
    requires
        i <= p.len(),
        pos <= t.len(),
    ensures
        match r {
            Some(v) => match_pieces(p@, i as int, t@, pos as int) == Some(ints(v@)),
            None => match_pieces(p@, i as int, t@, pos as int) is None,
        },
    decreases p.len() - i,
{
    if i == p.len() {
        let v: Vec<usize> = Vec::new();
        assert(ints(v@) =~= seq![]);
        return Some(v);
    }
    let pc = p[i];
    let most = available(&pc, t, pos);
    let least = min_of(&pc.quant);
    if greedy(&pc.quant) {
        if most < least {
            return None;
        }
        let mut k = most;
        loop
            invariant
                i < p.len(),
                pc == p@[i as int],
                pos + most <= t.len(),
                most == avail(pc, t@, pos as int),
                least == quant_min(pc.quant),
                quant_greedy(pc.quant),
                least <= k <= most,
                match_pieces(p@, i as int, t@, pos as int) == try_longest(
                    p@,
                    i as int,
                    t@,
                    pos as int,
                    k as int,
                ),
            decreases k,
        {
            match match_at(p, i + 1, t, pos + k) {
                Some(rest) => {
                    let mut v = rest;
                    let ghost old_v = v@;
                    v.insert(0, k);
                    assert(ints(v@) =~= seq![k as int] + ints(old_v));
                    return Some(v);
                },
                None => {
                    if k == least {
                        return None;
                    }
                    k -= 1;
                },
            }
        }
    } else {
        if least > most {
            return None;
        }
        let mut k = least;
        loop
            invariant
                i < p.len(),
                pc == p@[i as int],
                pos + most <= t.len(),
                most == avail(pc, t@, pos as int),
                least == quant_min(pc.quant),
                !quant_greedy(pc.quant),
                least <= k <= most,
                match_pieces(p@, i as int, t@, pos as int) == try_shortest(
                    p@,
                    i as int,
                    t@,
                    pos as int,
                    k as int,
                ),
            decreases most - k,
        {
            match match_at(p, i + 1, t, pos + k) {
                Some(rest) => {
                    let mut v = rest;
                    let ghost old_v = v@;
                    v.insert(0, k);
                    assert(ints(v@) =~= seq![k as int] + ints(old_v));
                    return Some(v);
                },
                None => {
                    if k == most {
                        return None;
                    }
                    k += 1;
                },
            }
        }
    }
}

/// A match found in a text: where it starts and how many characters each
/// piece of the pattern took.
pub struct Match {
    pub start: usize,
    pub counts: Vec<usize>,
}

impl View for Match {
    type V = Found;

    open spec fn view(&self) -> Found {
        Found { start: self.start as int, counts: ints(self.counts@) }
    }
}

/// The leftmost match of `p` in `t` that starts at `from` or later.
pub fn find_match(p: &Vec<Piece>, t: &Vec<char>, from: usize) -> (r: Option<Match>)
    requires
        from <= t.len(),
    ensures
        match r {
            Some(m) => find_from(p@, t@, from as int) == Some(m@),
            None => find_from(p@, t@, from as int) is None,
        },
{
    let mut s = from;
    loop
        invariant
            from <= s <= t.len(),
            find_from(p@, t@, from as int) == find_from(p@, t@, s as int),
        decreases t.len() - s,
    {
        match match_at(p, 0, t, s) {
            Some(c) => {
                return Some(Match { start: s, counts: c });
            },
            None => {
                if s == t.len() {
                    assert(find_from(p@, t@, s + 1) is None);
                    return None;
                }
                s += 1;
            },
        }
    }
}

/// Where piece `j` of a match found in `t` starts.
pub fn piece_offset(p: &Vec<Piece>, t: &Vec<char>, m: &Match, j: usize) -> (off: usize)
    requires
        m.start <= t.len(),
        fits(p@, 0, t@, m.start as int, m@.counts),
        j <= p.len(),
    ensures
        off == piece_start(m@, j as int),
        off <= t.len(),
{
    proof {
        lemma_fits_total(p@, 0, t@, m.start as int, m@.counts);
        lemma_fits_counts(p@, 0, t@, m.start as int, m@.counts, j as int);
    }
    let mut off = m.start;
    let mut i: usize = 0;
    while i < j
        invariant
            i <= j <= p.len(),
            m@.counts.len() == p.len(),
            m.counts@.len() == p.len(),
            off == m.start + total(m@.counts.take(i as int)),
            m.start + total(m@.counts.take(j as int)) <= t.len(),
            forall|a: int, b: int|
                0 <= a <= b <= j ==> total(m@.counts.take(a)) <= total(m@.counts.take(b)),
        decreases j - i,
    {
        proof {
            lemma_total_take(m@.counts, i as int);
        }
        off = off + m.counts[i];
        i += 1;
    }
    off
}

/// The counts of a fitting match are non-negative, so the start of each
/// piece is at or after the start of every earlier piece.
proof fn lemma_fits_counts(p: Seq<Piece>, i: int, t: Seq<char>, pos: int, c: Seq<int>, j: int)
    requires
        0 <= i <= p.len(),
        0 <= pos <= t.len(),
        fits(p, i, t, pos, c),
        0 <= j <= c.len(),
    ensures
        forall|a: int, b: int| 0 <= a <= b <= j ==> total(c.take(a)) <= total(c.take(b)),
        pos + total(c.take(j)) <= t.len(),
    decreases p.len() - i,
{
    lemma_fits_total(p, i, t, pos, c);
    if i < p.len() {
        lemma_avail_bounds(p[i], t, pos);
        if j > 0 {
            lemma_fits_counts(p, i + 1, t, pos + c[0], c.drop_first(), j - 1);
        }
        assert forall|a: int, b: int| 0 <= a <= b <= j implies total(c.take(a)) <= total(
            c.take(b),
        ) by {
            lemma_take_first(c, a);
            lemma_take_first(c, b);
            if b > 0 {
                let d = c.drop_first();
                if a > 0 {
                    assert(total(d.take(a - 1)) <= total(d.take(b - 1)));
                } else {
                    assert(d.take(0) =~= seq![]);
                    assert(total(d.take(0)) <= total(d.take(b - 1)));
                }
            }
        }
        lemma_take_first(c, j);
    }
}

proof fn lemma_take_first(c: Seq<int>, a: int)
    requires
        0 <= a <= c.len(),
        c.len() > 0,
    ensures
        a == 0 ==> total(c.take(a)) == 0,
        a > 0 ==> total(c.take(a)) == c[0] + total(c.drop_first().take(a - 1)),
{
    if a == 0 {
        assert(c.take(0) =~= seq![]);
    } else {
        assert(c.take(a).drop_first() =~= c.drop_first().take(a - 1));
    }
}

/// The views of a sequence of matches.
pub open spec fn views(ms: Seq<Match>) -> Seq<Found> {
    ms.map_values(|m: Match| m@)
}

/// Where a match found in `t` ends.
pub fn match_end(p: &Vec<Piece>, t: &Vec<char>, m: &Match) -> (e: usize)
    requires
        m.start <= t.len(),
        fits(p@, 0, t@, m.start as int, m@.counts),
    ensures
        e == found_end(m@),
        m.start <= e <= t.len(),
{
    proof {
        lemma_fits_total(p@, 0, t@, m.start as int, m@.counts);
        assert(m@.counts.take(p.len() as int) =~= m@.counts);
        lemma_fits_counts(p@, 0, t@, m.start as int, m@.counts, p.len() as int);
        assert(m@.counts.take(0) =~= seq![]);
    }
    piece_offset(p, t, m, p.len())
}

/// All successive matches of `p` in `t`.
pub fn find_all(p: &Vec<Piece>, t: &Vec<char>) -> (r: Vec<Match>)
    ensures
        views(r@) == all_matches(p@, t@, 0),
        forall|k: int|
            0 <= k < r.len() ==> #[trigger] r@[k].start <= t.len() && fits(
                p@,
                0,
                t@,
                r@[k].start as int,
                r@[k]@.counts,
            ),
{
    let mut r: Vec<Match> = Vec::new();
    let mut pos: usize = 0;
    loop
        invariant
            pos <= t.len(),
            views(r@) + all_matches(p@, t@, pos as int) == all_matches(p@, t@, 0),
            forall|k: int|
                0 <= k < r.len() ==> #[trigger] r@[k].start <= t.len() && fits(
                    p@,
                    0,
                    t@,
                    r@[k].start as int,
                    r@[k]@.counts,
                ),
        decreases t.len() + 1 - pos,
    {
        proof {
            lemma_find_from(p@, t@, pos as int);
        }
        match find_match(p, t, pos) {
            Some(m) => {
                let e = match_end(p, t, &m);
                let ghost next: int = resume_at(m@);
                let ghost before = r@;
                assert(all_matches(p@, t@, pos as int) == seq![m@] + all_matches(p@, t@, next));
                let start = m.start;
                r.push(m);
                assert(views(r@) =~= views(before) + seq![r@[r.len() - 1]@]);
                assert(views(r@) + all_matches(p@, t@, next) =~= views(before) + (seq![
                    r@[r.len() - 1]@,
                ] + all_matches(p@, t@, next)));
                if e > start {
                    pos = e;
                } else if start < t.len() {
                    pos = start + 1;
                } else {
                    assert(all_matches(p@, t@, next) =~= seq![]);
                    assert(views(r@) =~= views(r@) + all_matches(p@, t@, next));
                    return r;
                }
            },
            None => {
                assert(views(r@) =~= views(r@) + all_matches(p@, t@, pos as int));
                return r;
            },
        }
    }
}

// ---------------------------------------------------------------------------
// Building patterns, and locating what a match took.
// ---------------------------------------------------------------------------

/// A piece that takes exactly one character of class `cls`.
pub open spec fn one(cls: CharClass) -> Piece {
    Piece { class: cls, quant: Quant::One }
}

/// A piece that takes a run of class `cls`, longest first.
pub open spec fn star(cls: CharClass) -> Piece {
    Piece { class: cls, quant: Quant::Star }
}

/// A piece that takes a non-empty run of class `cls`, longest first.
pub open spec fn plus(cls: CharClass) -> Piece {
    Piece { class: cls, quant: Quant::Plus }
}

/// A piece that takes a run of class `cls`, shortest first.
pub open spec fn lazy_star(cls: CharClass) -> Piece {
    Piece { class: cls, quant: Quant::LazyStar }
}

/// A piece that takes a non-empty run of class `cls`, shortest first.
pub open spec fn lazy_plus(cls: CharClass) -> Piece {
    Piece { class: cls, quant: Quant::LazyPlus }
}

/// The pieces that match the string `s` literally.
pub open spec fn literal(s: Seq<char>) -> Seq<Piece>
    decreases s.len(),
{
    if s.len() == 0 {
        seq![]
    } else {
        literal(s.drop_last()).push(one(CharClass::Exactly(s.last() as u32)))
    }
}

/// Appends the pieces that match `s` literally.
pub fn push_literal(v: &mut Vec<Piece>, s: &str)
    ensures
        final(v)@ == old(v)@ + literal(s@),
{
    let cs = chars_of(s);
    let ghost start = v@;
    let mut i: usize = 0;
    assert(s@.take(0) =~= seq![]);
    assert(start + literal(s@.take(0)) =~= start);
    while i < cs.len()
        invariant
            cs@ == s@,
            i <= cs.len(),
            v@ == start + literal(s@.take(i as int)),
        decreases cs.len() - i,
    {
        let ghost before = v@;
        v.push(Piece { class: CharClass::Exactly(cs[i] as u32), quant: Quant::One });
        assert(v@ == before.push(one(CharClass::Exactly(s@[i as int] as u32))));
        assert(s@.take(i + 1).drop_last() =~= s@.take(i as int));
        assert(literal(s@.take(i + 1)) == literal(s@.take(i as int)).push(
            one(CharClass::Exactly(s@[i as int] as u32)),
        ));
        assert(v@ =~= start + literal(s@.take(i + 1)));
        i += 1;
    }
    assert(s@.take(cs.len() as int) =~= s@);
}

/// The pieces of a pattern written as a sequence of segments.
pub open spec fn concat(segs: Seq<Seq<Piece>>) -> Seq<Piece>
    decreases segs.len(),
{
    if segs.len() == 0 {
        seq![]
    } else {
        concat(segs.drop_last()) + segs.last()
    }
}

/// The index of the first piece of segment `k`.
pub open spec fn seg_start(segs: Seq<Seq<Piece>>, k: int) -> int {
    concat(segs.take(k)).len() as int
}

/// The text that segment `k` of the pattern took in match `m`.
pub open spec fn segment_text(t: Seq<char>, m: Found, segs: Seq<Seq<Piece>>, k: int) -> Seq<
    char,
> {
    group_text(t, m, seg_start(segs, k), seg_start(segs, k + 1))
}

/// The views of a sequence of segments.
pub open spec fn seg_views(v: Seq<Vec<Piece>>) -> Seq<Seq<Piece>> {
    v.map_values(|s: Vec<Piece>| s@)
}

/// A pattern with the index of the first piece of each of its segments.
pub struct Pattern {
    pub pieces: Vec<Piece>,
    pub starts: Vec<usize>,
}

impl Pattern {
    /// This pattern is made of the segments `segs`.
    pub open spec fn describes(&self, segs: Seq<Seq<Piece>>) -> bool {
        &&& self.pieces@ == concat(segs)
        &&& self.starts.len() == segs.len() + 1
        &&& forall|k: int|
            0 <= k <= segs.len() ==> #[trigger] self.starts@[k] == seg_start(segs, k)
    }
}

proof fn lemma_seg_starts(segs: Seq<Seq<Piece>>, k: int)
    requires
        0 <= k < segs.len(),
    ensures
        seg_start(segs, k + 1) == seg_start(segs, k) + segs[k].len(),
{
    assert(segs.take(k + 1).drop_last() =~= segs.take(k));
}

/// Joins segments into a pattern.
pub fn assemble(segs: Vec<Vec<Piece>>) -> (p: Pattern)
    ensures
        p.describes(seg_views(segs@)),
{
    let ghost sv = seg_views(segs@);
    let mut pieces: Vec<Piece> = Vec::new();
    let mut starts: Vec<usize> = Vec::new();
    let mut k: usize = 0;
    assert(sv.take(0) =~= seq![]);
    while k < segs.len()
        invariant
            sv == seg_views(segs@),
            k <= segs.len(),
            pieces@ == concat(sv.take(k as int)),
            starts.len() == k,
            forall|j: int| 0 <= j < k ==> #[trigger] starts@[j] == seg_start(sv, j),
        decreases segs.len() - k,
    {
        starts.push(pieces.len());
        let mut j: usize = 0;
        let ghost before = pieces@;
        while j < segs[k].len()
            invariant
                k < segs.len(),
                j <= segs@[k as int].len(),
                pieces@ == before + segs@[k as int]@.take(j as int),
            decreases segs@[k as int].len() - j,
        {
            pieces.push(segs[k][j]);
            assert(segs@[k as int]@.take(j + 1) =~= segs@[k as int]@.take(j as int) + seq![
                segs@[k as int]@[j as int],
            ]);
            j += 1;
        }
        assert(segs@[k as int]@.take(j as int) =~= segs@[k as int]@);
        assert(sv.take(k + 1).drop_last() =~= sv.take(k as int));
        k += 1;
    }
    assert(sv.take(k as int) =~= sv);
    starts.push(pieces.len());
    Pattern { pieces, starts }
}

/// Where pieces `a..b` of a match found in `t` start and end.
pub fn piece_span(p: &Vec<Piece>, t: &Vec<char>, m: &Match, a: usize, b: usize) -> (r: (
    usize,
    usize,
))
    requires
        a <= b <= p.len(),
        m.start <= t.len(),
        fits(p@, 0, t@, m.start as int, m@.counts),
    ensures
        r.0 == piece_start(m@, a as int),
        r.1 == piece_start(m@, b as int),
        r.0 <= r.1 <= t.len(),
{
    proof {
        lemma_fits_total(p@, 0, t@, m.start as int, m@.counts);
        lemma_fits_counts(p@, 0, t@, m.start as int, m@.counts, b as int);
    }
    (piece_offset(p, t, m, a), piece_offset(p, t, m, b))
}

/// Where segment `k` of pattern `p` starts and ends in a match found in `t`.
pub fn segment_span(
    p: &Pattern,
    Ghost(segs): Ghost<Seq<Seq<Piece>>>,
    t: &Vec<char>,
    m: &Match,
    k: usize,
) -> (r: (usize, usize))
    requires
        p.describes(segs),
        k < segs.len(),
        m.start <= t.len(),
        fits(p.pieces@, 0, t@, m.start as int, m@.counts),
    ensures
        r.0 == piece_start(m@, seg_start(segs, k as int)),
        r.1 == piece_start(m@, seg_start(segs, k + 1)),
        t@.subrange(r.0 as int, r.1 as int) == segment_text(t@, m@, segs, k as int),
        r.0 <= r.1 <= t.len(),
{
    proof {
        lemma_seg_starts(segs, k as int);
        lemma_seg_bound(segs, k + 1);
    }
    piece_span(&p.pieces, t, m, p.starts[k], p.starts[k + 1])
}

proof fn lemma_seg_bound(segs: Seq<Seq<Piece>>, k: int)
    requires
        0 <= k <= segs.len(),
    ensures
        seg_start(segs, k) <= concat(segs).len(),
    decreases segs.len() - k,
{
    if k < segs.len() {
        lemma_seg_starts(segs, k);
        lemma_seg_bound(segs, k + 1);
    } else {
        assert(segs.take(k) =~= segs);
    }
}

/// Each character that a piece of a fitting match took is of that piece's
/// class.
pub proof fn lemma_piece_chars(
    p: Seq<Piece>,
    i: int,
    t: Seq<char>,
    pos: int,
    c: Seq<int>,
    j: int,
    x: int,
)
    requires
        0 <= i <= p.len(),
        0 <= pos <= t.len(),
        fits(p, i, t, pos, c),
        0 <= j < c.len(),
        pos + total(c.take(j)) <= x < pos + total(c.take(j + 1)),
    ensures
        0 <= x < t.len(),
        class_has(p[i + j].class, t[x]),
    decreases j,
{
    lemma_fits_total(p, i, t, pos, c);
    lemma_avail_bounds(p[i], t, pos);
    lemma_run_len_bounds(p[i].class, t, pos);
    lemma_take_first(c, j);
    lemma_take_first(c, j + 1);
    if j == 0 {
        assert(c.drop_first().take(0) =~= seq![]);
        assert(t[x] == t[x]);
    } else {
        lemma_piece_chars(p, i + 1, t, pos + c[0], c.drop_first(), j - 1, x);
    }
}

/// The segments before `k` make up the start of the pattern.
proof fn lemma_concat_prefix(segs: Seq<Seq<Piece>>, k: int)
    requires
        0 <= k <= segs.len(),
    ensures
        concat(segs.take(k)) == concat(segs).take(seg_start(segs, k)),
        seg_start(segs, k) <= concat(segs).len(),
    decreases segs.len() - k,
{
    if k == segs.len() {
        assert(segs.take(k) =~= segs);
        assert(concat(segs).take(concat(segs).len() as int) =~= concat(segs));
    } else {
        lemma_concat_prefix(segs, k + 1);
        lemma_seg_starts(segs, k);
        assert(segs.take(k + 1).drop_last() =~= segs.take(k));
        assert(concat(segs.take(k)) =~= concat(segs.take(k + 1)).take(seg_start(segs, k)));
    }
}

/// Piece `r` of segment `k` is piece `seg_start(segs, k) + r` of the pattern.
pub proof fn lemma_segment_piece(segs: Seq<Seq<Piece>>, k: int, r: int)
    requires
        0 <= k < segs.len(),
        0 <= r < segs[k].len(),
    ensures
        seg_start(segs, k) + r < concat(segs).len(),
        concat(segs)[seg_start(segs, k) + r] == segs[k][r],
{
    lemma_concat_prefix(segs, k + 1);
    lemma_seg_starts(segs, k);
    assert(segs.take(k + 1).drop_last() =~= segs.take(k));
    assert(concat(segs.take(k + 1))[seg_start(segs, k) + r] == segs[k][r]);
}

/// Every character that a one-piece segment took is of that piece's class.
pub proof fn lemma_segment_chars(segs: Seq<Seq<Piece>>, t: Seq<char>, m: Found, k: int, x: int)
    requires
        0 <= m.start <= t.len(),
        fits(concat(segs), 0, t, m.start, m.counts),
        0 <= k < segs.len(),
        segs[k].len() == 1,
        0 <= x < segment_text(t, m, segs, k).len(),
    ensures
        class_has(segs[k][0].class, segment_text(t, m, segs, k)[x]),
{
    let p = concat(segs);
    lemma_fits_total(p, 0, t, m.start, m.counts);
    lemma_segment_piece(segs, k, 0);
    lemma_seg_starts(segs, k);
    let j = seg_start(segs, k);
    lemma_fits_counts(p, 0, t, m.start, m.counts, j + 1);
    assert(total(m.counts.take(j)) <= total(m.counts.take(j + 1)));
    assert(m.counts.take(0) =~= seq![]);
    assert(total(m.counts.take(0)) <= total(m.counts.take(j)));
    assert(seg_start(segs, k + 1) == j + 1);
    assert(segment_text(t, m, segs, k) == t.subrange(piece_start(m, j), piece_start(m, j + 1)));
    assert(segment_text(t, m, segs, k)[x] == t[piece_start(m, j) + x]);
    lemma_piece_chars(p, 0, t, m.start, m.counts, j, piece_start(m, j) + x);
}

/// Whether `p` matches somewhere in `s`.
pub fn is_match(p: &Vec<Piece>, s: &str) -> (b: bool)
    ensures
        b == matches_somewhere(p@, s@),
{
    let cs = chars_of(s);
    find_match(p, &cs, 0).is_some()
}

/// The search reports the leftmost match: no match starts between where the
/// search began and where the reported match starts, and when none is
/// reported, none starts anywhere from there on.
pub proof fn lemma_find_leftmost(p: Seq<Piece>, t: Seq<char>, from: int)
    requires
        0 <= from,
    ensures
        find_from(p, t, from) matches Some(m) ==> forall|s: int|
            from <= s < m.start ==> #[trigger] match_pieces(p, 0, t, s) is None,
        find_from(p, t, from) is None ==> forall|s: int|
            from <= s <= t.len() ==> #[trigger] match_pieces(p, 0, t, s) is None,
    decreases t.len() + 1 - from,
{
    if from <= t.len() && match_pieces(p, 0, t, from) is None {
        lemma_find_leftmost(p, t, from + 1);
    }
}

} // verus!
