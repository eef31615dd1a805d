//! The text log format of the tester.
//!
//! A log starts with a `[Header]` section of `key=value` lines that runs up to
//! the first `TCNT#`.  Then comes one block per tested part:
//!
//! ```text
//! TCNT# 0        SITE# 0
//!   NO Site  Result  TestName           Signal          Measure   LowLimit  HighLimit   Force
//!   1002 0   PASS  OS_VCC               VDD33           -0.236 V   -0.700V   -0.050V   -200.000uA
//!   ...
//!   -------------------   ------------
//!   Site   Fail   Total    Cate   Bin    XCoord   YCoord         TestTime(122868ms)
//!   -------------------   ------------
//!     0      0       1       1     1      10       1
//! ```
//!
//! Each part of the format is a pattern (see `pattern`), and each function
//! here is specified by the matches of those patterns.
use crate::chars::{chars_of, Text};
use crate::unit::{exponent_view, trim, unit_scale, value_parts, value_with_unit, UnitError, ValueWithUnit};
use crate::pattern::{
    assemble, concat, find_all, find_match, found_end, lazy_plus, lazy_star, literal, one, plus,
    push_literal, seg_views, segment_span, segment_text, star, views, all_matches, find_from,
    CharClass, Found, Match, Pattern, Piece, Quant,
};
use vstd::prelude::*;

verus! {

/// Why a text log could not be read.
#[derive(Debug, Clone, Copy, PartialEq, Eq)]
pub enum TxtError {
    /// The log has no `[Header]` section that ends at a `TCNT#`.
    HeaderNotFound,
    /// A selected measured value has no number, or a malformed one.
    Value(UnitError),
}

/// The section from `[Header]` up to the first `TCNT#` after it.
pub open spec fn header_block_segments() -> Seq<Seq<Piece>> {
    seq![literal("[Header]"@), seq![lazy_plus(CharClass::Any)], literal("TCNT#"@)]
}

/// One `key=value` line of the header, with the white space around it.
///
/// The key is the longest run of line characters before the last `=` of the
/// line, the value the rest of the line.
pub open spec fn header_entry_segments() -> Seq<Seq<Piece>> {
    seq![
        seq![star(CharClass::Space)],
        seq![plus(CharClass::LineChar)],
        seq![one(CharClass::Exactly('=' as u32))],
        seq![star(CharClass::LineChar)],
        seq![star(CharClass::Space)],
    ]
}

/// The header section of the log `t`, if it has one.
pub open spec fn header_block(t: Seq<char>) -> Option<Seq<char>> {
    match find_from(concat(header_block_segments()), t, 0) {
        Some(m) => Some(t.subrange(m.start, found_end(m))),
        None => None,
    }
}

/// The key and value of header entry `m` in the header section `h`.
pub open spec fn header_entry(h: Seq<char>, m: Found) -> (Seq<char>, Seq<char>) {
    (segment_text(h, m, header_entry_segments(), 1), segment_text(h, m, header_entry_segments(), 3))
}

/// The keys and values of the header of the log `t`, in order.
pub open spec fn header_entries(t: Seq<char>) -> Option<Seq<(Seq<char>, Seq<char>)>> {
    match header_block(t) {
        Some(h) => Some(
            all_matches(concat(header_entry_segments()), h, 0).map_values(
                |m: Found| header_entry(h, m),
            ),
        ),
        None => None,
    }
}

/// The views of a sequence of string slices.
pub open spec fn strs(v: Seq<&str>) -> Seq<Seq<char>> {
    v.map_values(|s: &str| s@)
}

/// The pattern of the header section.
pub fn header_block_pattern() -> (p: Pattern)
    ensures
        p.describes(header_block_segments()),
{
    let mut s0: Vec<Piece> = Vec::new();
    push_literal(&mut s0, "[Header]");
    let mut s1: Vec<Piece> = Vec::new();
    s1.push(Piece { class: CharClass::Any, quant: Quant::LazyPlus });
    let mut s2: Vec<Piece> = Vec::new();
    push_literal(&mut s2, "TCNT#");
    let mut segs: Vec<Vec<Piece>> = Vec::new();
    segs.push(s0);
    segs.push(s1);
    segs.push(s2);
    assert(seg_views(segs@) =~~= header_block_segments());
    assemble(segs)
}

/// The pattern of one header entry.
pub fn header_entry_pattern() -> (p: Pattern)
    ensures
        p.describes(header_entry_segments()),
{
    let mut segs: Vec<Vec<Piece>> = Vec::new();
    segs.push(vec![Piece { class: CharClass::Space, quant: Quant::Star }]);
    segs.push(vec![Piece { class: CharClass::LineChar, quant: Quant::Plus }]);
    segs.push(vec![Piece { class: CharClass::Exactly('=' as u32), quant: Quant::One }]);
    segs.push(vec![Piece { class: CharClass::LineChar, quant: Quant::Star }]);
    segs.push(vec![Piece { class: CharClass::Space, quant: Quant::Star }]);
    assert(seg_views(segs@) =~~= header_entry_segments());
    assemble(segs)
}

/// The characters of `v` from `a` to `b`.
pub fn copy_range(v: &Vec<char>, a: usize, b: usize) -> (r: Vec<char>)
    requires
        a <= b <= v.len(),
    ensures
        r@ == v@.subrange(a as int, b as int),
{
    let mut r: Vec<char> = Vec::new();
    let mut i = a;
    while i < b
        invariant
            a <= i <= b <= v.len(),
            r@ == v@.subrange(a as int, i as int),
        decreases b - i,
    {
        r.push(v[i]);
        assert(r@ =~= v@.subrange(a as int, i + 1));
        i += 1;
    }
    r
}

/// The keys and the values of the header of a log, in order.
pub fn logheader_to_vec<'a>(src: &'a String) -> (r: Result<(Vec<&'a str>, Vec<&'a str>), TxtError>)
    ensures
        match r {
            Ok((keys, values)) => header_entries(src@) matches Some(es) && strs(keys@) == es.map_values(
                |e: (Seq<char>, Seq<char>)| e.0,
            ) && strs(values@) == es.map_values(|e: (Seq<char>, Seq<char>)| e.1),
            Err(e) => header_entries(src@) is None && e == TxtError::HeaderNotFound,
        },
{
    let text = Text::new(src.as_str());
    let block = header_block_pattern();
    let found = find_match(&block.pieces, &text.chars, 0);
    let m = match found {
        Some(m) => m,
        None => {
            return Err(TxtError::HeaderNotFound);
        },
    };
    proof {
        crate::pattern::lemma_find_from(block.pieces@, text.chars@, 0);
    }
    let end = crate::pattern::match_end(&block.pieces, &text.chars, &m);
    let h = copy_range(&text.chars, m.start, end);
    let entry = header_entry_pattern();
    let ms = find_all(&entry.pieces, &h);
    let ghost es = all_matches(concat(header_entry_segments()), h@, 0).map_values(
        |m: Found| header_entry(h@, m),
    );
    assert(h@ == header_block(src@).unwrap());
    let mut keys: Vec<&'a str> = Vec::new();
    let mut values: Vec<&'a str> = Vec::new();
    let mut k: usize = 0;
    while k < ms.len()
        invariant
            text.wf(),
            text.src@ == src@,
            entry.describes(header_entry_segments()),
            m.start <= end <= text.chars.len(),
            h@ == text.chars@.subrange(m.start as int, end as int),
            views(ms@) == all_matches(entry.pieces@, h@, 0),
            forall|j: int|
                0 <= j < ms.len() ==> #[trigger] ms@[j].start <= h.len()
                    && crate::pattern::fits(entry.pieces@, 0, h@, ms@[j].start as int, ms@[j]@.counts),
            es == views(ms@).map_values(|m: Found| header_entry(h@, m)),
            k <= ms.len(),
            keys.len() == k,
            values.len() == k,
            forall|j: int| 0 <= j < k ==> #[trigger] keys@[j]@ == es[j].0,
            forall|j: int| 0 <= j < k ==> #[trigger] values@[j]@ == es[j].1,
        decreases ms.len() - k,
    {
        let (ka, kb) = segment_span(&entry, Ghost(header_entry_segments()), &h, &ms[k], 1);
        let (va, vb) = segment_span(&entry, Ghost(header_entry_segments()), &h, &ms[k], 3);
        keys.push(text.slice(m.start + ka, m.start + kb));
        values.push(text.slice(m.start + va, m.start + vb));
        assert(text.chars@.subrange(m.start + ka, m.start + kb) =~= h@.subrange(
            ka as int,
            kb as int,
        ));
        assert(text.chars@.subrange(m.start + va, m.start + vb) =~= h@.subrange(
            va as int,
            vb as int,
        ));
        k += 1;
    }
    assert(strs(keys@) =~= es.map_values(|e: (Seq<char>, Seq<char>)| e.0));
    assert(strs(values@) =~= es.map_values(|e: (Seq<char>, Seq<char>)| e.1));
    Ok((keys, values))
}

/// The separator line around the part summary header.
pub open spec fn dashes() -> Seq<char> {
    "-------------------   ------------"@
}

/// The part summary header up to the opening bracket of the test time.
pub open spec fn summary_head() -> Seq<char> {
    "Site   Fail   Total    Cate   Bin    XCoord   YCoord         TestTime("@
}

/// One part block: `TCNT# n SITE# m`, the test lines, the part summary
/// header, the test time with its unit, and the summary numbers.
///
/// Segments 1, 3, 5, 7, 8 and 10 are the part count, the site, the test
/// lines, the test time, its unit and the summary numbers.  The test lines
/// run up to the first place where the summary header follows.
pub open spec fn block_segments() -> Seq<Seq<Piece>> {
    seq![
        seq![star(CharClass::Space)] + literal("TCNT# "@),
        seq![plus(CharClass::Digit)],
        seq![star(CharClass::Exactly(' ' as u32))] + literal("SITE# "@),
        seq![plus(CharClass::Digit)],
        seq![star(CharClass::Space)],
        seq![lazy_plus(CharClass::Any)],
        seq![star(CharClass::Space)] + literal(dashes()) + seq![star(CharClass::Space)] + literal(
            summary_head(),
        ),
        seq![plus(CharClass::DecimalChar)],
        seq![plus(CharClass::Letter)],
        literal(")"@) + seq![star(CharClass::Space)] + literal(dashes()) + seq![
            star(CharClass::Space),
        ],
        seq![plus(CharClass::DigitOrBlank)],
    ]
}

/// One test line: number, site, result, then the test name, the signal, and
/// the measured value with its unit, then the low limit.
///
/// Segments 1, 3 and 5 are the test name, the signal and the measured value.
pub open spec fn test_segments() -> Seq<Seq<Piece>> {
    seq![
        seq![
            star(CharClass::Space),
            plus(CharClass::Digit),
            star(CharClass::Exactly(' ' as u32)),
            plus(CharClass::Digit),
            star(CharClass::Exactly(' ' as u32)),
            plus(CharClass::Upper),
            star(CharClass::Exactly(' ' as u32)),
        ],
        seq![plus(CharClass::NonSpace)],
        seq![plus(CharClass::Exactly(' ' as u32))],
        seq![plus(CharClass::NonSpace)],
        seq![plus(CharClass::Exactly(' ' as u32))],
        seq![
            plus(CharClass::NumberChar),
            star(CharClass::Exactly(' ' as u32)),
            lazy_star(CharClass::Letter),
        ],
        seq![
            star(CharClass::Exactly(' ' as u32)),
            plus(CharClass::NumberChar),
            plus(CharClass::LetterOrBlank),
        ],
    ]
}

/// A word: a run of characters that are not white space.
pub open spec fn word_segments() -> Seq<Seq<Piece>> {
    seq![seq![plus(CharClass::NonSpace)]]
}

/// The words of `s`, as `str::split_whitespace` gives them.
pub open spec fn words(s: Seq<char>) -> Seq<Seq<char>> {
    all_matches(concat(word_segments()), s, 0).map_values(
        |m: Found| segment_text(s, m, word_segments(), 0),
    )
}

/// The pattern of a part block.
pub fn block_pattern() -> (p: Pattern)
    ensures
        p.describes(block_segments()),
{
    let mut s0: Vec<Piece> = vec![Piece { class: CharClass::Space, quant: Quant::Star }];
    push_literal(&mut s0, "TCNT# ");
    let s1: Vec<Piece> = vec![Piece { class: CharClass::Digit, quant: Quant::Plus }];
    let mut s2: Vec<Piece> = vec![Piece { class: CharClass::Exactly(' ' as u32), quant: Quant::Star }];
    push_literal(&mut s2, "SITE# ");
    let s3: Vec<Piece> = vec![Piece { class: CharClass::Digit, quant: Quant::Plus }];
    let s4: Vec<Piece> = vec![Piece { class: CharClass::Space, quant: Quant::Star }];
    let s5: Vec<Piece> = vec![Piece { class: CharClass::Any, quant: Quant::LazyPlus }];
    let mut s6: Vec<Piece> = vec![Piece { class: CharClass::Space, quant: Quant::Star }];
    push_literal(&mut s6, "-------------------   ------------");
    s6.push(Piece { class: CharClass::Space, quant: Quant::Star });
    push_literal(&mut s6, "Site   Fail   Total    Cate   Bin    XCoord   YCoord         TestTime(");
    let s7: Vec<Piece> = vec![Piece { class: CharClass::DecimalChar, quant: Quant::Plus }];
    let s8: Vec<Piece> = vec![Piece { class: CharClass::Letter, quant: Quant::Plus }];
    let mut s9: Vec<Piece> = Vec::new();
    push_literal(&mut s9, ")");
    s9.push(Piece { class: CharClass::Space, quant: Quant::Star });
    push_literal(&mut s9, "-------------------   ------------");
    s9.push(Piece { class: CharClass::Space, quant: Quant::Star });
    let s10: Vec<Piece> = vec![Piece { class: CharClass::DigitOrBlank, quant: Quant::Plus }];
    let mut segs: Vec<Vec<Piece>> = Vec::new();
    segs.push(s0);
    segs.push(s1);
    segs.push(s2);
    segs.push(s3);
    segs.push(s4);
    segs.push(s5);
    segs.push(s6);
    segs.push(s7);
    segs.push(s8);
    segs.push(s9);
    segs.push(s10);
    assert(seg_views(segs@) =~~= block_segments());
    assemble(segs)
}

/// The pattern of a test line.
pub fn test_pattern() -> (p: Pattern)
    ensures
        p.describes(test_segments()),
{
    let sp = CharClass::Exactly(' ' as u32);
    let s0: Vec<Piece> = vec![
        Piece { class: CharClass::Space, quant: Quant::Star },
        Piece { class: CharClass::Digit, quant: Quant::Plus },
        Piece { class: sp, quant: Quant::Star },
        Piece { class: CharClass::Digit, quant: Quant::Plus },
        Piece { class: sp, quant: Quant::Star },
        Piece { class: CharClass::Upper, quant: Quant::Plus },
        Piece { class: sp, quant: Quant::Star },
    ];
    let s1: Vec<Piece> = vec![Piece { class: CharClass::NonSpace, quant: Quant::Plus }];
    let s2: Vec<Piece> = vec![Piece { class: sp, quant: Quant::Plus }];
    let s3: Vec<Piece> = vec![Piece { class: CharClass::NonSpace, quant: Quant::Plus }];
    let s4: Vec<Piece> = vec![Piece { class: sp, quant: Quant::Plus }];
    let s5: Vec<Piece> = vec![
        Piece { class: CharClass::NumberChar, quant: Quant::Plus },
        Piece { class: sp, quant: Quant::Star },
        Piece { class: CharClass::Letter, quant: Quant::LazyStar },
    ];
    let s6: Vec<Piece> = vec![
        Piece { class: sp, quant: Quant::Star },
        Piece { class: CharClass::NumberChar, quant: Quant::Plus },
        Piece { class: CharClass::LetterOrBlank, quant: Quant::Plus },
    ];
    let mut segs: Vec<Vec<Piece>> = Vec::new();
    segs.push(s0);
    segs.push(s1);
    segs.push(s2);
    segs.push(s3);
    segs.push(s4);
    segs.push(s5);
    segs.push(s6);
    assert(seg_views(segs@) =~~= test_segments());
    assemble(segs)
}

/// The pattern of a word.
pub fn word_pattern() -> (p: Pattern)
    ensures
        p.describes(word_segments()),
{
    let mut segs: Vec<Vec<Piece>> = Vec::new();
    segs.push(vec![Piece { class: CharClass::NonSpace, quant: Quant::Plus }]);
    assert(seg_views(segs@) =~~= word_segments());
    assemble(segs)
}

/// The value of a string of decimal digits.
pub open spec fn decimal_value(s: Seq<char>) -> int
    decreases s.len(),
{
    if s.len() == 0 {
        0
    } else {
        10 * decimal_value(s.drop_last()) + ((s.last() as u32) as int - 0x30)
    }
}

/// Whether every character of `s` is a decimal digit.
pub open spec fn all_digits(s: Seq<char>) -> bool {
    forall|i: int| 0 <= i < s.len() ==> crate::pattern::is_digit(#[trigger] s[i])
}

proof fn lemma_decimal_grows(s: Seq<char>, i: int)
    requires
        all_digits(s),
        0 <= i <= s.len(),
    ensures
        0 <= decimal_value(s.take(i)) <= decimal_value(s),
    decreases s.len() - i,
{
    if i == s.len() {
        assert(s.take(i) =~= s);
        lemma_decimal_nonneg(s);
    } else {
        assert(all_digits(s.drop_last()));
        if i < s.len() {
            lemma_decimal_grows(s.drop_last(), i);
            assert(s.drop_last().take(i) =~= s.take(i));
            lemma_decimal_nonneg(s.drop_last());
            assert(crate::pattern::is_digit(s[s.len() - 1]));
        }
    }
}

proof fn lemma_decimal_nonneg(s: Seq<char>)
    requires
        all_digits(s),
    ensures
        decimal_value(s) >= 0,
    decreases s.len(),
{
    if s.len() > 0 {
        assert(all_digits(s.drop_last()));
        lemma_decimal_nonneg(s.drop_last());
        assert(crate::pattern::is_digit(s[s.len() - 1]));
    }
}

/// The value of the digits `cs[a..b]` as an `i32`, or `None` if it does not
/// fit (what `str::parse::<i32>` gives for a string of digits).
pub fn parse_digits_i32(cs: &Vec<char>, a: usize, b: usize) -> (r: Option<i32>)
    requires
        a <= b <= cs.len(),
        all_digits(cs@.subrange(a as int, b as int)),
    ensures
        match r {
            Some(v) => decimal_value(cs@.subrange(a as int, b as int)) == v as int,
            None => decimal_value(cs@.subrange(a as int, b as int)) > i32::MAX,
        },
{
    let ghost s = cs@.subrange(a as int, b as int);
    let mut acc: i64 = 0;
    let mut i = a;
    assert(s.take(0) =~= seq![]);
    while i < b
        invariant
            a <= i <= b <= cs.len(),
            s == cs@.subrange(a as int, b as int),
            all_digits(s),
            acc == decimal_value(s.take(i - a)),
            0 <= acc <= i32::MAX,
        decreases b - i,
    {
        assert(s[i - a] == cs@[i as int]);
        assert(crate::pattern::is_digit(s[i - a]));
        let d = (cs[i] as u32 - 0x30) as i64;
        assert(s.take(i - a + 1).drop_last() =~= s.take(i - a));
        assert(s.take(i - a + 1).last() == cs@[i as int]);
        acc = acc * 10 + d;
        i += 1;
        if acc > 0x7fff_ffff {
            proof {
                lemma_decimal_grows(s, i - a);
            }
            return None;
        }
    }
    assert(s.take(i - a) =~= s);
    Some(acc as i32)
}

/// One row of a log body: part count, site, test number (0 for the part
/// summary), name, signal and value.
pub struct BodyRow {
    pub tcnt: int,
    pub site: int,
    pub index: int,
    pub key: Seq<char>,
    pub signal: Seq<char>,
    pub value: Seq<char>,
}

/// The rows of a log body, held column by column.
#[derive(Debug)]
pub struct LogBody<'a> {
    pub tcnt: Vec<i32>,
    pub site: Vec<i32>,
    pub test_index: Vec<i32>,
    pub key: Vec<&'a str>,
    pub signal: Vec<&'a str>,
    pub value: Vec<&'a str>,
}

impl<'a> LogBody<'a> {
    /// All columns have the same length.
    pub open spec fn wf(&self) -> bool {
        &&& self.site.len() == self.tcnt.len()
        &&& self.test_index.len() == self.tcnt.len()
        &&& self.key.len() == self.tcnt.len()
        &&& self.signal.len() == self.tcnt.len()
        &&& self.value.len() == self.tcnt.len()
    }

    /// The rows, read across the columns.
    pub open spec fn rows(&self) -> Seq<BodyRow> {
        Seq::new(
            self.tcnt.len() as nat,
            |i: int|
                BodyRow {
                    tcnt: self.tcnt@[i] as int,
                    site: self.site@[i] as int,
                    index: self.test_index@[i] as int,
                    key: self.key@[i]@,
                    signal: self.signal@[i]@,
                    value: self.value@[i]@,
                },
        )
    }

    /// No rows.
    pub fn new() -> (r: Self)
        ensures
            r.wf(),
            r.rows() == Seq::<BodyRow>::empty(),
    {
        let r = LogBody {
            tcnt: Vec::new(),
            site: Vec::new(),
            test_index: Vec::new(),
            key: Vec::new(),
            signal: Vec::new(),
            value: Vec::new(),
        };
        assert(r.rows() =~= Seq::<BodyRow>::empty());
        r
    }

    /// Appends a row.
    pub fn add(
        &mut self,
        tcnt: i32,
        site: i32,
        index: i32,
        key: &'a str,
        signal: &'a str,
        value: &'a str,
    )
        requires
            old(self).wf(),
        ensures
            final(self).wf(),
            final(self).rows() == old(self).rows().push(
                BodyRow {
                    tcnt: tcnt as int,
                    site: site as int,
                    index: index as int,
                    key: key@,
                    signal: signal@,
                    value: value@,
                },
            ),
    {
        self.tcnt.push(tcnt);
        self.site.push(site);
        self.test_index.push(index);
        self.key.push(key);
        self.signal.push(signal);
        self.value.push(value);
        assert(self.rows() =~= old(self).rows().push(
            BodyRow {
                tcnt: tcnt as int,
                site: site as int,
                index: index as int,
                key: key@,
                signal: signal@,
                value: value@,
            },
        ));
    }
}

/// The words of `text[a..b]`, as slices of the text.
pub fn words_of<'a>(text: &Text<'a>, a: usize, b: usize) -> (r: Vec<&'a str>)
    requires
        text.wf(),
        a <= b <= text.src@.len(),
    ensures
        strs(r@) == words(text.src@.subrange(a as int, b as int)),
{
    let cs = copy_range(&text.chars, a, b);
    let p = word_pattern();
    let ms = find_all(&p.pieces, &cs);
    let ghost ws = words(cs@);
    let mut r: Vec<&'a str> = Vec::new();
    let mut k: usize = 0;
    while k < ms.len()
        invariant
            text.wf(),
            a <= b <= text.src@.len(),
            cs@ == text.chars@.subrange(a as int, b as int),
            p.describes(word_segments()),
            views(ms@) == all_matches(p.pieces@, cs@, 0),
            forall|j: int|
                0 <= j < ms.len() ==> #[trigger] ms@[j].start <= cs.len()
                    && crate::pattern::fits(p.pieces@, 0, cs@, ms@[j].start as int, ms@[j]@.counts),
            ws == views(ms@).map_values(|m: Found| segment_text(cs@, m, word_segments(), 0)),
            k <= ms.len(),
            r.len() == k,
            forall|j: int| 0 <= j < k ==> #[trigger] r@[j]@ == ws[j],
        decreases ms.len() - k,
    {
        let (wa, wb) = segment_span(&p, Ghost(word_segments()), &cs, &ms[k], 0);
        r.push(text.slice(a + wa, a + wb));
        assert(text.chars@.subrange(a + wa, a + wb) =~= cs@.subrange(wa as int, wb as int));
        k += 1;
    }
    assert(strs(r@) =~= ws);
    r
}

/// A row of the part summary: test number 0 and no signal.
pub open spec fn summary_row(tc: int, st: int, key: Seq<char>, value: Seq<char>) -> BodyRow {
    BodyRow { tcnt: tc, site: st, index: 0, key, signal: ""@, value }
}

/// Word `i` of `w`, or the empty string if there are not that many.
pub open spec fn word_or_empty(w: Seq<Seq<char>>, i: int) -> Seq<char> {
    if 0 <= i < w.len() {
        w[i]
    } else {
        ""@
    }
}

/// The nine rows of a part summary: the test time, its unit, and the seven
/// summary numbers by name.
pub open spec fn summary_rows(
    tc: int,
    st: int,
    time: Seq<char>,
    unit: Seq<char>,
    w: Seq<Seq<char>>,
) -> Seq<BodyRow> {
    seq![
        summary_row(tc, st, "testtime"@, time),
        summary_row(tc, st, "t_unit"@, unit),
        summary_row(tc, st, "Site"@, word_or_empty(w, 0)),
        summary_row(tc, st, "Fail"@, word_or_empty(w, 1)),
        summary_row(tc, st, "Total"@, word_or_empty(w, 2)),
        summary_row(tc, st, "Cate"@, word_or_empty(w, 3)),
        summary_row(tc, st, "Bin"@, word_or_empty(w, 4)),
        summary_row(tc, st, "XCoord"@, word_or_empty(w, 5)),
        summary_row(tc, st, "YCoord"@, word_or_empty(w, 6)),
    ]
}

/// The test lines found in the test section `body`.
pub open spec fn test_matches(body: Seq<char>) -> Seq<Found> {
    all_matches(concat(test_segments()), body, 0)
}

/// The row of test line `m`, the `i`-th (from 1) of its part.
pub open spec fn test_row(tc: int, st: int, i: int, body: Seq<char>, m: Found) -> BodyRow {
    BodyRow {
        tcnt: tc,
        site: st,
        index: i,
        key: segment_text(body, m, test_segments(), 1),
        signal: segment_text(body, m, test_segments(), 3),
        value: segment_text(body, m, test_segments(), 5),
    }
}

/// The rows of the test lines of a part, numbered from 1.
pub open spec fn test_rows(tc: int, st: int, body: Seq<char>) -> Seq<BodyRow> {
    Seq::new(
        test_matches(body).len(),
        |i: int| test_row(tc, st, i + 1, body, test_matches(body)[i]),
    )
}

/// The text that segment `k` of the part block `m` took.
pub open spec fn block_text(t: Seq<char>, m: Found, k: int) -> Seq<char> {
    segment_text(t, m, block_segments(), k)
}

/// The rows of a part block: the part summary, then the tests.
pub open spec fn block_rows(t: Seq<char>, m: Found) -> Seq<BodyRow> {
    let tc = decimal_value(block_text(t, m, 1));
    let st = decimal_value(block_text(t, m, 3));
    summary_rows(tc, st, block_text(t, m, 7), block_text(t, m, 8), words(block_text(t, m, 10)))
        + test_rows(tc, st, block_text(t, m, 5))
}

/// The part blocks of a log.
pub open spec fn block_matches(t: Seq<char>) -> Seq<Found> {
    all_matches(concat(block_segments()), t, 0)
}

/// The rows of the blocks `ms`, one block after the other.
pub open spec fn rows_of(t: Seq<char>, ms: Seq<Found>) -> Seq<BodyRow>
    decreases ms.len(),
{
    if ms.len() == 0 {
        seq![]
    } else {
        rows_of(t, ms.drop_last()) + block_rows(t, ms.last())
    }
}

/// The rows of the body of the log `t`.
pub open spec fn log_body_rows(t: Seq<char>) -> Seq<BodyRow> {
    rows_of(t, block_matches(t))
}

/// The part count and site of block `m` fit in an `i32`, and so does the
/// number of its tests.
pub open spec fn block_fits(t: Seq<char>, m: Found) -> bool {
    &&& decimal_value(block_text(t, m, 1)) <= i32::MAX
    &&& decimal_value(block_text(t, m, 3)) <= i32::MAX
    &&& test_matches(block_text(t, m, 5)).len() <= i32::MAX
}

/// Every block of the log `t` fits.
pub open spec fn log_body_fits(t: Seq<char>) -> bool {
    forall|k: int|
        0 <= k < block_matches(t).len() ==> block_fits(t, #[trigger] block_matches(t)[k])
}

/// Word `i` of `ws`, or the empty string.
fn word_at<'a>(ws: &Vec<&'a str>, i: usize) -> (r: &'a str)
    ensures
        r@ == word_or_empty(strs(ws@), i as int),
{
    if i < ws.len() {
        ws[i]
    } else {
        ""
    }
}

/// Appends the rows of a part summary.
fn add_summary<'a>(
    dst: &mut LogBody<'a>,
    tc: i32,
    st: i32,
    time: &'a str,
    unit: &'a str,
    ws: &Vec<&'a str>,
)
    requires
        old(dst).wf(),
    ensures
        final(dst).wf(),
        final(dst).rows() == old(dst).rows() + summary_rows(
            tc as int,
            st as int,
            time@,
            unit@,
            strs(ws@),
        ),
{
    let ghost start = dst.rows();
    dst.add(tc, st, 0, "testtime", "", time);
    dst.add(tc, st, 0, "t_unit", "", unit);
    dst.add(tc, st, 0, "Site", "", word_at(ws, 0));
    dst.add(tc, st, 0, "Fail", "", word_at(ws, 1));
    dst.add(tc, st, 0, "Total", "", word_at(ws, 2));
    dst.add(tc, st, 0, "Cate", "", word_at(ws, 3));
    dst.add(tc, st, 0, "Bin", "", word_at(ws, 4));
    dst.add(tc, st, 0, "XCoord", "", word_at(ws, 5));
    dst.add(tc, st, 0, "YCoord", "", word_at(ws, 6));
    assert(dst.rows() =~= start + summary_rows(tc as int, st as int, time@, unit@, strs(ws@)));
}

/// Appends the rows of the test lines `tests` of the section `body`, which
/// starts at `off` in the text.
fn add_tests<'a>(
    dst: &mut LogBody<'a>,
    tc: i32,
    st: i32,
    text: &Text<'a>,
    off: usize,
    body: &Vec<char>,
    tp: &Pattern,
    tests: &Vec<Match>,
)
    requires
        old(dst).wf(),
        text.wf(),
        off + body.len() <= text.src@.len(),
        body@ == text.src@.subrange(off as int, off + body.len()),
        tp.describes(test_segments()),
        views(tests@) == test_matches(body@),
        forall|j: int|
            0 <= j < tests.len() ==> #[trigger] tests@[j].start <= body.len()
                && crate::pattern::fits(tp.pieces@, 0, body@, tests@[j].start as int, tests@[j]@.counts),
        tests.len() <= i32::MAX,
    ensures
        final(dst).wf(),
        final(dst).rows() == old(dst).rows() + test_rows(tc as int, st as int, body@),
{
    let ghost start = dst.rows();
    let ghost tm = test_matches(body@);
    let mut k: usize = 0;
    while k < tests.len()
        invariant
            dst.wf(),
            text.wf(),
            off + body.len() <= text.src@.len(),
            body@ == text.src@.subrange(off as int, off + body.len()),
            tp.describes(test_segments()),
            views(tests@) == tm,
            tm == test_matches(body@),
            forall|j: int|
                0 <= j < tests.len() ==> #[trigger] tests@[j].start <= body.len()
                    && crate::pattern::fits(tp.pieces@, 0, body@, tests@[j].start as int, tests@[j]@.counts),
            tests.len() <= i32::MAX,
            k <= tests.len(),
            dst.rows() == start + test_rows(tc as int, st as int, body@).take(k as int),
        decreases tests.len() - k,
    {
        let (ka, kb) = segment_span(tp, Ghost(test_segments()), body, &tests[k], 1);
        let (sa, sb) = segment_span(tp, Ghost(test_segments()), body, &tests[k], 3);
        let (va, vb) = segment_span(tp, Ghost(test_segments()), body, &tests[k], 5);
        let key = text.slice(off + ka, off + kb);
        let signal = text.slice(off + sa, off + sb);
        let value = text.slice(off + va, off + vb);
        assert(text.src@.subrange(off + ka, off + kb) =~= body@.subrange(ka as int, kb as int));
        assert(text.src@.subrange(off + sa, off + sb) =~= body@.subrange(sa as int, sb as int));
        assert(text.src@.subrange(off + va, off + vb) =~= body@.subrange(va as int, vb as int));
        let ghost before = dst.rows();
        dst.add(tc, st, (k + 1) as i32, key, signal, value);
        assert(tm[k as int] == tests@[k as int]@);
        assert(test_rows(tc as int, st as int, body@).take(k + 1) =~= test_rows(
            tc as int,
            st as int,
            body@,
        ).take(k as int).push(test_row(tc as int, st as int, k + 1, body@, tm[k as int])));
        k += 1;
    }
    assert(test_rows(tc as int, st as int, body@).take(k as int) =~= test_rows(
        tc as int,
        st as int,
        body@,
    ));
}

/// The digits of segment `k` (a one-piece digit segment) of a part block.
proof fn lemma_block_digits(t: Seq<char>, m: Found, k: int)
    requires
        k == 1 || k == 3,
        0 <= m.start <= t.len(),
        crate::pattern::fits(concat(block_segments()), 0, t, m.start, m.counts),
    ensures
        all_digits(block_text(t, m, k)),
{
    assert forall|x: int| 0 <= x < block_text(t, m, k).len() implies crate::pattern::is_digit(
        #[trigger] block_text(t, m, k)[x],
    ) by {
        crate::pattern::lemma_segment_chars(block_segments(), t, m, k, x);
    }
}

/// The rows of the body of a log, or `None` if a part count, a site or the
/// number of tests of a part does not fit in an `i32`.
pub fn logbody_to_vec_checked<'a>(src: &'a String) -> (r: Option<LogBody<'a>>)
    ensures
        match r {
            Some(b) => log_body_fits(src@) && b.wf() && b.rows() == log_body_rows(src@),
            None => !log_body_fits(src@),
        },
{
    let text = Text::new(src.as_str());
    let bp = block_pattern();
    let tp = test_pattern();
    let blocks = find_all(&bp.pieces, &text.chars);
    let ghost t = src@;
    let ghost bm = block_matches(t);
    let mut dst = LogBody::new();
    let mut k: usize = 0;
    while k < blocks.len()
        invariant
            text.wf(),
            text.src@ == t,
            t == src@,
            bp.describes(block_segments()),
            tp.describes(test_segments()),
            bm == block_matches(t),
            views(blocks@) == bm,
            forall|j: int|
                0 <= j < blocks.len() ==> #[trigger] blocks@[j].start <= text.chars.len()
                    && crate::pattern::fits(bp.pieces@, 0, text.chars@, blocks@[j].start as int, blocks@[j]@.counts),
            k <= blocks.len(),
            dst.wf(),
            dst.rows() == rows_of(t, bm.take(k as int)),
            forall|j: int| 0 <= j < k ==> block_fits(t, #[trigger] bm[j]),
        decreases blocks.len() - k,
    {
        let m = &blocks[k];
        let ghost mv = m@;
        assert(bm[k as int] == mv);
        proof {
            lemma_block_digits(t, mv, 1);
            lemma_block_digits(t, mv, 3);
        }
        let (a1, b1) = segment_span(&bp, Ghost(block_segments()), &text.chars, m, 1);
        let tc = match parse_digits_i32(&text.chars, a1, b1) {
            Some(v) => v,
            None => {
                return None;
            },
        };
        let (a3, b3) = segment_span(&bp, Ghost(block_segments()), &text.chars, m, 3);
        let st = match parse_digits_i32(&text.chars, a3, b3) {
            Some(v) => v,
            None => {
                return None;
            },
        };
        let (a5, b5) = segment_span(&bp, Ghost(block_segments()), &text.chars, m, 5);
        let body = copy_range(&text.chars, a5, b5);
        let tests = find_all(&tp.pieces, &body);
        if tests.len() > 0x7fff_ffff {
            return None;
        }
        let (a7, b7) = segment_span(&bp, Ghost(block_segments()), &text.chars, m, 7);
        let (a8, b8) = segment_span(&bp, Ghost(block_segments()), &text.chars, m, 8);
        let (a10, b10) = segment_span(&bp, Ghost(block_segments()), &text.chars, m, 10);
        let ws = words_of(&text, a10, b10);
        let ghost before = dst.rows();
        add_summary(&mut dst, tc, st, text.slice(a7, b7), text.slice(a8, b8), &ws);
        add_tests(&mut dst, tc, st, &text, a5, &body, &tp, &tests);
        assert(bm.take(k + 1).drop_last() =~= bm.take(k as int));
        assert(bm.take(k + 1).last() == mv);
        assert(block_fits(t, mv));
        k += 1;
    }
    assert(bm.take(k as int) =~= bm);
    Some(dst)
}

/// The rows of the body of a log: for each part block, its summary rows
/// (test number 0), then one row per test line, numbered from 1.
pub fn logbody_to_vec<'a>(src: &'a String) -> (r: Result<LogBody<'a>, TxtError>)
    requires
        log_body_fits(src@),
    ensures
        r matches Ok(b) && b.wf() && b.rows() == log_body_rows(src@),
{
    Ok(logbody_to_vec_checked(src).unwrap())
}

/// How a row names its test: `name.signal`.
pub open spec fn dotted(r: BodyRow) -> Seq<char> {
    r.key + seq!['.'] + r.signal
}

/// A measured value selected from the text log.
pub struct TxtPtrRow {
    /// The part count of the row.
    pub cnt: i32,
    /// The name asked for.
    pub key: String,
    /// The value as written, and its unit.
    pub value: ValueWithUnit,
}

/// What a selected row holds: part count, number text and unit text.
pub struct PtrPart {
    pub cnt: int,
    pub number: Seq<char>,
    pub unit: Seq<char>,
}

/// The values of the rows named `key`, in order; the first value that cannot
/// be read is the error.
pub open spec fn select_values(rows: Seq<BodyRow>, key: Seq<char>) -> Result<Seq<PtrPart>, UnitError>
    decreases rows.len(),
{
    if rows.len() == 0 {
        Ok(seq![])
    } else {
        match select_values(rows.drop_last(), key) {
            Err(e) => Err(e),
            Ok(prev) => {
                let r = rows.last();
                if dotted(r) == key {
                    match value_parts(r.value) {
                        Ok((n, u)) => Ok(prev.push(PtrPart { cnt: r.tcnt, number: n, unit: u })),
                        Err(e) => Err(e),
                    }
                } else {
                    Ok(prev)
                }
            },
        }
    }
}

/// The part of a selected row.
pub open spec fn ptr_part(r: TxtPtrRow) -> PtrPart {
    PtrPart { cnt: r.cnt as int, number: r.value.number@, unit: r.value.unit@ }
}

/// Whether `a.b` is `key`.
fn is_dotted(a: &str, b: &str, key: &Vec<char>) -> (r: bool)
    ensures
        r == (a@ + seq!['.'] + b@ == key@),
{
    let ac = chars_of(a);
    let bc = chars_of(b);
    let ghost d = a@ + seq!['.'] + b@;
    if ac.len() >= key.len() || key.len() - ac.len() - 1 != bc.len() {
        assert(d.len() != key@.len());
        return false;
    }
    let mut i: usize = 0;
    while i < ac.len()
        invariant
            ac@ == a@,
            bc@ == b@,
            d == a@ + seq!['.'] + b@,
            d.len() == key@.len(),
            i <= ac.len(),
            forall|j: int| 0 <= j < i ==> d[j] == key@[j],
        decreases ac.len() - i,
    {
        if ac[i] != key[i] {
            assert(d[i as int] != key@[i as int]);
            return false;
        }
        i += 1;
    }
    if key[ac.len()] != '.' {
        assert(d[ac.len() as int] != key@[ac.len() as int]);
        return false;
    }
    let mut j: usize = 0;
    while j < bc.len()
        invariant
            ac@ == a@,
            bc@ == b@,
            d == a@ + seq!['.'] + b@,
            d.len() == key@.len(),
            ac.len() + 1 + bc.len() == key.len(),
            j <= bc.len(),
            forall|x: int| 0 <= x < ac.len() + 1 + j ==> d[x] == key@[x],
        decreases bc.len() - j,
    {
        if bc[j] != key[ac.len() + 1 + j] {
            assert(d[ac.len() + 1 + j] != key@[ac.len() + 1 + j]);
            return false;
        }
        j += 1;
    }
    assert(d =~= key@);
    true
}

/// The measured values of the rows named `key` (`name.signal`), with the
/// part count of each, in order.
pub fn ptr_rows_of(body: &LogBody, key: &str) -> (r: Result<Vec<TxtPtrRow>, TxtError>)
    requires
        body.wf(),
    ensures
        match r {
            Ok(v) => select_values(body.rows(), key@) == Ok::<Seq<PtrPart>, UnitError>(
                v@.map_values(|x: TxtPtrRow| ptr_part(x)),
            ) && forall|i: int|
                0 <= i < v.len() ==> #[trigger] v@[i].key@ == key@ && exponent_view(
                    v@[i].value.exponent,
                ) == unit_scale(trim(v@[i].value.unit@)),
            Err(e) => exists|u: UnitError|
                e == TxtError::Value(u) && select_values(body.rows(), key@) == Err::<
                    Seq<PtrPart>,
                    UnitError,
                >(u),
        },
{
    let kc = chars_of(key);
    let ghost rows = body.rows();
    let mut out: Vec<TxtPtrRow> = Vec::new();
    let mut i: usize = 0;
    assert(rows.take(0) =~= seq![]);
    assert(out@.map_values(|x: TxtPtrRow| ptr_part(x)) =~= seq![]);
    while i < body.tcnt.len()
        invariant
            body.wf(),
            rows == body.rows(),
            kc@ == key@,
            i <= body.tcnt.len(),
            select_values(rows.take(i as int), key@) == Ok::<Seq<PtrPart>, UnitError>(
                out@.map_values(|x: TxtPtrRow| ptr_part(x)),
            ),
            forall|j: int|
                0 <= j < out.len() ==> #[trigger] out@[j].key@ == key@ && exponent_view(
                    out@[j].value.exponent,
                ) == unit_scale(trim(out@[j].value.unit@)),
        decreases body.tcnt.len() - i,
    {
        assert(rows.take(i + 1).drop_last() =~= rows.take(i as int));
        assert(rows.take(i + 1).last() == rows[i as int]);
        if is_dotted(body.key[i], body.signal[i], &kc) {
            match value_with_unit(body.value[i]) {
                Ok(v) => {
                    let ghost before = out@;
                    let k = key.to_owned();
                    assert(k@ == key@);
                    out.push(TxtPtrRow { cnt: body.tcnt[i], key: k, value: v });
                    assert forall|j: int| 0 <= j < out.len() implies #[trigger] out@[j].key@ == key@
                        && exponent_view(out@[j].value.exponent) == unit_scale(
                        trim(out@[j].value.unit@),
                    ) by {
                        if j < before.len() {
                            assert(out@[j] == before[j]);
                            assert(before[j].key@ == key@);
                        }
                    }
                    assert(out@.map_values(|x: TxtPtrRow| ptr_part(x)) =~= before.map_values(
                        |x: TxtPtrRow| ptr_part(x),
                    ).push(ptr_part(out@[out.len() - 1])));
                },
                Err(e) => {
                    proof {
                        lemma_select_error(rows, key@, (i + 1) as int);
                    }
                    return Err(TxtError::Value(e));
                },
            }
        }
        assert(forall|j: int|
            0 <= j < out.len() ==> #[trigger] out@[j].key@ == key@ && exponent_view(
                out@[j].value.exponent,
            ) == unit_scale(trim(out@[j].value.unit@)));
        i += 1;
    }
    assert(rows.take(i as int) =~= rows);
    Ok(out)
}

/// Once reading a prefix of the rows fails, reading all of them fails the
/// same way.
proof fn lemma_select_error(rows: Seq<BodyRow>, key: Seq<char>, n: int)
    requires
        0 <= n <= rows.len(),
        select_values(rows.take(n), key) is Err,
    ensures
        select_values(rows, key) == select_values(rows.take(n), key),
    decreases rows.len() - n,
{
    if n == rows.len() {
        assert(rows.take(n) =~= rows);
    } else {
        assert(rows.drop_last().take(n) =~= rows.take(n));
        lemma_select_error(rows.drop_last(), key, n);
    }
}

/// The measured values named `key` in the text log `src`.
pub fn txt_ptr(src: &String, key: &str) -> (r: Result<Vec<TxtPtrRow>, TxtError>)
    requires
        log_body_fits(src@),
    ensures
        match r {
            Ok(v) => select_values(log_body_rows(src@), key@) == Ok::<Seq<PtrPart>, UnitError>(
                v@.map_values(|x: TxtPtrRow| ptr_part(x)),
            ) && forall|i: int|
                0 <= i < v.len() ==> #[trigger] v@[i].key@ == key@ && exponent_view(
                    v@[i].value.exponent,
                ) == unit_scale(trim(v@[i].value.unit@)),
            Err(e) => exists|u: UnitError|
                e == TxtError::Value(u) && select_values(log_body_rows(src@), key@) == Err::<
                    Seq<PtrPart>,
                    UnitError,
                >(u),
        },
{
    let body = logbody_to_vec_checked(src).unwrap();
    ptr_rows_of(&body, key)
}

/// Whether the row `r` is named `key` (`name.signal`).
pub open spec fn named(key: Seq<char>) -> spec_fn(BodyRow) -> bool {
    |r: BodyRow| dotted(r) == key
}

/// Every row named `key` is selected, whatever its part or site: when the
/// selection succeeds, it holds one value per row named `key`, in the order
/// of the rows, each with that row's part count and the number and unit read
/// from that row's value.
pub proof fn lemma_select_every_named_row(rows: Seq<BodyRow>, key: Seq<char>)
    ensures
        select_values(rows, key) matches Ok(ps) ==> {
            &&& ps.len() == rows.filter(named(key)).len()
            &&& forall|i: int|
                0 <= i < ps.len() ==> (#[trigger] ps[i]).cnt == rows.filter(named(key))[i].tcnt
                    && value_parts(rows.filter(named(key))[i].value) == Ok::<
                    (Seq<char>, Seq<char>),
                    UnitError,
                >((ps[i].number, ps[i].unit))
        },
    decreases rows.len(),
{
    reveal(Seq::filter);
    if rows.len() > 0 {
        let pre = rows.drop_last();
        lemma_select_every_named_row(pre, key);
        if let Ok(ps) = select_values(rows, key) {
            let f = rows.filter(named(key));
            let g = pre.filter(named(key));
            if let Ok(prev) = select_values(pre, key) {
                if dotted(rows.last()) == key {
                    assert(f == g.push(rows.last()));
                    assert forall|i: int| 0 <= i < ps.len() implies (#[trigger] ps[i]).cnt == f[i].tcnt
                        && value_parts(f[i].value) == Ok::<(Seq<char>, Seq<char>), UnitError>(
                        (ps[i].number, ps[i].unit),
                    ) by {
                        if i < prev.len() {
                            assert(ps[i] == prev[i]);
                            assert(f[i] == g[i]);
                        }
                    }
                } else {
                    assert(f == g);
                }
            }
        }
    }
}

/// The nine summary rows of a part block carry, in order, the test time, its
/// unit, and the seven numbers of the summary line by name: `Site`, `Fail`,
/// `Total`, `Cate`, `Bin`, `XCoord`, `YCoord` hold the first to the seventh
/// word of that line (empty where the line has fewer words).  None of them
/// has a signal.
pub proof fn lemma_block_summary_rows(t: Seq<char>, m: Found)
    ensures
        block_rows(t, m)[0].key == "testtime"@ && block_rows(t, m)[0].value == block_text(t, m, 7),
        block_rows(t, m)[1].key == "t_unit"@ && block_rows(t, m)[1].value == block_text(t, m, 8),
        forall|k: int|
            0 <= k < 7 ==> {
                let r = #[trigger] block_rows(t, m)[k + 2];
                let w = words(block_text(t, m, 10));
                &&& r.key == seq!["Site"@, "Fail"@, "Total"@, "Cate"@, "Bin"@, "XCoord"@, "YCoord"@][k]
                &&& r.value == if k < w.len() {
                    w[k]
                } else {
                    ""@
                }
            },
        forall|k: int| 0 <= k < 9 ==> (#[trigger] block_rows(t, m)[k]).signal == ""@,
{
    let tc = decimal_value(block_text(t, m, 1));
    let st = decimal_value(block_text(t, m, 3));
    let w = words(block_text(t, m, 10));
    let sr = summary_rows(tc, st, block_text(t, m, 7), block_text(t, m, 8), w);
    let tr = test_rows(tc, st, block_text(t, m, 5));
    assert(block_rows(t, m) == sr + tr);
    assert forall|k: int| 0 <= k < 9 implies (#[trigger] block_rows(t, m)[k]) == sr[k] by {}
    assert(block_rows(t, m)[0] == sr[0]);
    assert(block_rows(t, m)[1] == sr[1]);
}

/// Every part block gives nine summary rows with test number 0, then one row
/// per test line numbered 1, 2, ... in order, all with the block's part count
/// and site.
pub proof fn lemma_block_rows_shape(t: Seq<char>, m: Found)
    ensures
        block_rows(t, m).len() == 9 + test_matches(block_text(t, m, 5)).len(),
        forall|i: int| 0 <= i < 9 ==> (#[trigger] block_rows(t, m)[i]).index == 0,
        forall|i: int|
            9 <= i < block_rows(t, m).len() ==> (#[trigger] block_rows(t, m)[i]).index == i - 8,
        forall|i: int|
            0 <= i < block_rows(t, m).len() ==> (#[trigger] block_rows(t, m)[i]).tcnt
                == decimal_value(block_text(t, m, 1)) && block_rows(t, m)[i].site == decimal_value(
                block_text(t, m, 3),
            ),
{
    let tc = decimal_value(block_text(t, m, 1));
    let st = decimal_value(block_text(t, m, 3));
    let sr = summary_rows(tc, st, block_text(t, m, 7), block_text(t, m, 8), words(block_text(t, m, 10)));
    let tr = test_rows(tc, st, block_text(t, m, 5));
    assert(sr.len() == 9);
    assert forall|i: int| 0 <= i < 9 implies (#[trigger] block_rows(t, m)[i]).index == 0 by {
        assert(block_rows(t, m)[i] == sr[i]);
    }
    assert forall|i: int| 9 <= i < block_rows(t, m).len() implies (#[trigger] block_rows(
        t,
        m,
    )[i]).index == i - 8 by {
        assert(block_rows(t, m)[i] == tr[i - 9]);
    }
    assert forall|i: int| 0 <= i < block_rows(t, m).len() implies (#[trigger] block_rows(
        t,
        m,
    )[i]).tcnt == tc && block_rows(t, m)[i].site == st by {
        if i < 9 {
            assert(block_rows(t, m)[i] == sr[i]);
        } else {
            assert(block_rows(t, m)[i] == tr[i - 9]);
        }
    }
}

/// Whether a row named `key` has the part count of `p`, and its value reads
/// as the number and unit of `p`.
pub open spec fn comes_from(rows: Seq<BodyRow>, key: Seq<char>, p: PtrPart) -> bool {
    exists|i: int|
        0 <= i < rows.len() && #[trigger] dotted(rows[i]) == key && rows[i].tcnt == p.cnt
            && value_parts(rows[i].value) == Ok::<(Seq<char>, Seq<char>), UnitError>(
            (p.number, p.unit),
        )
}

/// Every value selected for `key` comes from a row named `key`: it carries
/// that row's part count and the number and unit read from that row's value.
pub proof fn lemma_selected_from_rows(rows: Seq<BodyRow>, key: Seq<char>)
    ensures
        select_values(rows, key) matches Ok(ps) ==> forall|j: int|
            0 <= j < ps.len() ==> comes_from(rows, key, #[trigger] ps[j]),
    decreases rows.len(),
{
    if rows.len() > 0 {
        let pre = rows.drop_last();
        lemma_selected_from_rows(pre, key);
        if let Ok(ps) = select_values(rows, key) {
            if let Ok(prev) = select_values(pre, key) {
                assert forall|j: int| 0 <= j < ps.len() implies comes_from(
                    rows,
                    key,
                    #[trigger] ps[j],
                ) by {
                    if j < prev.len() {
                        assert(ps[j] == prev[j]);
                        assert(comes_from(pre, key, prev[j]));
                        let i = choose|i: int|
                            0 <= i < pre.len() && #[trigger] dotted(pre[i]) == key && pre[i].tcnt
                                == prev[j].cnt && value_parts(pre[i].value) == Ok::<
                                (Seq<char>, Seq<char>),
                                UnitError,
                            >((prev[j].number, prev[j].unit));
                        assert(rows[i] == pre[i]);
                        assert(dotted(rows[i]) == key);
                    } else {
                        let i = rows.len() - 1;
                        assert(rows[i] == rows.last());
                        assert(dotted(rows[i]) == key);
                    }
                }
            }
        }
    }
}

} // verus!
