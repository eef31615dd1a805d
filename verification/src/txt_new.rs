//! Reading a text log line by line: the text read so far, and what kind of
//! record it holds.
use crate::pattern::{
    assemble, concat, is_match, lazy_plus, literal, matches_somewhere, push_literal, seg_views,
    CharClass, Pattern, Piece, Quant,
};
use crate::txt::{test_pattern, test_segments};
use vstd::prelude::*;
use vstd::string::StringExecFns;

verus! {

/// The header section as the line reader sees it: from `[Header]` up to the
/// first empty line.
pub open spec fn header_until_blank_segments() -> Seq<Seq<Piece>> {
    seq![literal("[Header]"@), seq![lazy_plus(CharClass::Any)], literal("\n\n"@)]
}

/// The pattern of the header section as the line reader sees it.
pub fn header_until_blank_pattern() -> (p: Pattern)
    ensures
        p.describes(header_until_blank_segments()),
{
    let mut s0: Vec<Piece> = Vec::new();
    push_literal(&mut s0, "[Header]");
    let mut s1: Vec<Piece> = Vec::new();
    s1.push(Piece { class: CharClass::Any, quant: Quant::LazyPlus });
    let mut s2: Vec<Piece> = Vec::new();
    push_literal(&mut s2, "\n\n");
    let mut segs: Vec<Vec<Piece>> = Vec::new();
    segs.push(s0);
    segs.push(s1);
    segs.push(s2);
    assert(seg_views(segs@) =~~= header_until_blank_segments());
    assemble(segs)
}

/// What the text read so far holds.
pub enum TxtRecordEnum {
    /// A header section.
    Header(String),
    /// A parametric test line.
    PTR(String),
    /// Neither.
    NoRecord,
}

/// The text read so far, with the patterns it is checked against.
pub struct TxtRecord {
    pub header_flag: bool,
    pub txt: String,
    pub re_header: Pattern,
    pub re_ptr: Pattern,
}

impl TxtRecord {
    /// The patterns are those of the header section and of a test line.
    pub open spec fn wf(&self) -> bool {
        &&& self.re_header.describes(header_until_blank_segments())
        &&& self.re_ptr.describes(test_segments())
    }

    /// Nothing read yet.
    pub fn new() -> (r: Self)
        ensures
            r.wf(),
            !r.header_flag,
            r.txt@ == Seq::<char>::empty(),
    {
        TxtRecord {
            header_flag: false,
            txt: String::new(),
            re_header: header_until_blank_pattern(),
            re_ptr: test_pattern(),
        }
    }

    /// Forgets the text read so far.
    pub fn clear_after_header(&mut self)
        requires
            old(self).wf(),
        ensures
            final(self).wf(),
            final(self).txt@ == Seq::<char>::empty(),
            final(self).header_flag == old(self).header_flag,
    {
        self.txt = String::new();
    }

    /// Adds a line to the text read so far.
    pub fn push(&mut self, src: &str)
        requires
            old(self).wf(),
        ensures
            final(self).wf(),
            final(self).txt@ == old(self).txt@ + src@ + seq!['\n'],
            final(self).header_flag == old(self).header_flag,
    {
        self.txt.append(src);
        self.txt.append("\n");
        proof {
            reveal_strlit("\n");
        }
    }

    /// What the text read so far holds: a test line, or else a whole header
    /// section; either way it is reported as `PTR`, with the text.
    pub fn match_type(&self) -> (r: TxtRecordEnum)
        requires
            self.wf(),
        ensures
            (matches_somewhere(concat(test_segments()), self.txt@) || matches_somewhere(
                concat(header_until_blank_segments()),
                self.txt@,
            )) ==> (r matches TxtRecordEnum::PTR(t) && t@ == self.txt@),
            !(matches_somewhere(concat(test_segments()), self.txt@) || matches_somewhere(
                concat(header_until_blank_segments()),
                self.txt@,
            )) ==> r is NoRecord,
    {
        if is_match(&self.re_ptr.pieces, self.txt.as_str()) {
            TxtRecordEnum::PTR(self.txt.clone())
        } else if is_match(&self.re_header.pieces, self.txt.as_str()) {
            TxtRecordEnum::PTR(self.txt.clone())
        } else {
            TxtRecordEnum::NoRecord
        }
    }
}

} // verus!
