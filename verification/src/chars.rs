//! Character-level helpers: Unicode white space, decoding a string into its
//! characters, and building strings.
use vstd::prelude::*;
use vstd::std_specs::iter::IteratorSpec;
use vstd::utf8::*;
use vstd::string::StringSliceAdditionalSpecFns;

verus! {

broadcast use vstd::string::group_string_axioms;

/// The Unicode `White_Space` property, as used by `char::is_whitespace`,
/// `str::trim` and `\s` in regular expressions.
pub open spec fn is_white_space(c: char) -> bool {
    let u = c as u32;
    ||| 0x09 <= u <= 0x0d
    ||| u == 0x20
    ||| u == 0x85
    ||| u == 0xa0
    ||| u == 0x1680
    ||| 0x2000 <= u <= 0x200a
    ||| u == 0x2028
    ||| u == 0x2029
    ||| u == 0x202f
    ||| u == 0x205f
    ||| u == 0x3000
}

/// White space is exactly Unicode's `White_Space`: among ASCII the tab, line
/// feed, vertical tab, form feed, carriage return and space, and beyond it
/// the next line, no-break space, ogham space mark, the spaces from en quad
/// to hair space, the line and paragraph separators, the narrow no-break
/// space, the medium mathematical space and the ideographic space.
pub proof fn lemma_white_space_chars(c: char)
    ensures
        (c as u32) < 0x80 ==> (is_white_space(c) <==> (c == '\t' || c == '\n' || c as u32 == 0x0b
            || c as u32 == 0x0c || c == '\r' || c == ' ')),
        (c as u32) >= 0x80 ==> (is_white_space(c) <==> (c as u32 == 0x85 || c as u32 == 0xa0
            || c as u32 == 0x1680 || (0x2000 <= c as u32 && c as u32 <= 0x200a) || c as u32
            == 0x2028 || c as u32 == 0x2029 || c as u32 == 0x202f || c as u32 == 0x205f || c as u32
            == 0x3000)),
{
}

/// Whether `c` is Unicode white space.
pub fn white_space(c: char) -> (b: bool)
    ensures
        b == is_white_space(c),
{
    let u = c as u32;
    (0x09 <= u && u <= 0x0d) || u == 0x20 || u == 0x85 || u == 0xa0 || u == 0x1680 || (0x2000
        <= u && u <= 0x200a) || u == 0x2028 || u == 0x2029 || u == 0x202f || u == 0x205f || u
        == 0x3000
}

/// The characters of `s`, in order.
pub fn chars_of(s: &str) -> (v: Vec<char>)
    ensures
        v@ == s@,
{
    let mut v: Vec<char> = Vec::new();
    for c in it: s.chars()
        invariant
            it.seq() == s@,
            v@ == s@.take(it.index()),
    {
        v.push(c);
    }
    assert(v@ =~= s@);
    v
}

/// Encoding a concatenation encodes each part.
pub proof fn lemma_encode_concat(a: Seq<char>, b: Seq<char>)
    ensures
        encode_utf8(a + b) == encode_utf8(a) + encode_utf8(b),
    decreases a.len(),
{
    if a.len() == 0 {
        assert(a + b =~= b);
        assert(encode_utf8(a) + encode_utf8(b) =~= encode_utf8(b));
    } else {
        lemma_encode_concat(a.drop_first(), b);
        assert((a + b).drop_first() =~= a.drop_first() + b);
        assert((a + b)[0] == a[0]);
        assert(encode_utf8(a + b) =~= encode_scalar(a[0] as u32) + (encode_utf8(a.drop_first())
            + encode_utf8(b)));
    }
}

/// The number of bytes that the first `i` characters of `c` take in UTF-8.
pub open spec fn byte_offset(c: Seq<char>, i: int) -> int {
    encode_utf8(c.take(i)).len() as int
}

/// The byte offset of every character position is a character boundary.
pub proof fn lemma_boundary_at_offset(c: Seq<char>, i: int)
    requires
        0 <= i <= c.len(),
    ensures
        is_char_boundary(encode_utf8(c), byte_offset(c, i)),
    decreases c.len(),
{
    encode_utf8_valid_utf8(c);
    if i == 0 {
        assert(c.take(0) =~= seq![]);
    } else {
        let bytes = encode_utf8(c);
        encode_utf8_first_scalar(c);
        assert(pop_first_scalar(bytes) =~= encode_utf8(c.drop_first()));
        assert(c.take(i).drop_first() =~= c.drop_first().take(i - 1));
        assert(c.take(i)[0] == c[0]);
        lemma_boundary_at_offset(c.drop_first(), i - 1);
        encode_utf8_valid_utf8(c.drop_first());
        reveal_with_fuel(is_char_boundary, 2);
    }
}

/// The bytes between two character positions encode the characters between
/// them.
pub proof fn lemma_bytes_between(c: Seq<char>, i: int, j: int)
    requires
        0 <= i <= j <= c.len(),
    ensures
        encode_utf8(c).subrange(byte_offset(c, i), byte_offset(c, j)) == encode_utf8(
            c.subrange(i, j),
        ),
        byte_offset(c, i) <= byte_offset(c, j) <= encode_utf8(c).len(),
{
    lemma_encode_concat(c.take(i), c.subrange(i, j));
    lemma_encode_concat(c.take(j), c.skip(j));
    assert(c.take(i) + c.subrange(i, j) =~= c.take(j));
    assert(c.take(j) + c.skip(j) =~= c);
    assert(encode_utf8(c).subrange(byte_offset(c, i), byte_offset(c, j)) =~= encode_utf8(
        c.subrange(i, j),
    ));
}

/// One more character adds the length of its encoding.
pub proof fn lemma_offset_step(c: Seq<char>, i: int)
    requires
        0 <= i < c.len(),
    ensures
        byte_offset(c, i + 1) == byte_offset(c, i) + encode_scalar(c[i] as u32).len(),
{
    lemma_encode_concat(c.take(i), seq![c[i]]);
    assert(c.take(i) + seq![c[i]] =~= c.take(i + 1));
    assert(seq![c[i]].drop_first() =~= seq![]);
    assert(encode_utf8(seq![c[i]]) =~= encode_scalar(c[i] as u32) + encode_utf8(
        seq![c[i]].drop_first(),
    ));
    assert(encode_utf8(seq![c[i]]) =~= encode_scalar(c[i] as u32));
}

/// The number of bytes of the UTF-8 encoding of `c`.
pub fn char_width(c: char) -> (n: usize)
    ensures
        n == encode_scalar(c as u32).len(),
{
    proof {
        char_is_scalar(c);
    }
    let u = c as u32;
    if u <= 0x7f {
        1
    } else if u <= 0x7ff {
        2
    } else if u <= 0xffff {
        3
    } else {
        4
    }
}

/// A string together with its characters and the byte offset of each
/// character, so that pieces of it can be cut out by character position.
pub struct Text<'a> {
    pub src: &'a str,
    pub chars: Vec<char>,
    pub offsets: Vec<usize>,
}

impl<'a> Text<'a> {
    pub open spec fn wf(&self) -> bool {
        &&& self.chars@ == self.src@
        &&& self.offsets.len() == self.chars.len() + 1
        &&& forall|i: int|
            0 <= i <= self.chars.len() ==> #[trigger] self.offsets@[i] == byte_offset(
                self.src@,
                i,
            )
    }

    /// Indexes the characters of `src`.
    pub fn new(src: &'a str) -> (t: Text<'a>)
        ensures
            t.wf(),
            t.src == src,
    {
        let chars = chars_of(src);
        let total_bytes = src.as_bytes().len();
        let mut offsets: Vec<usize> = Vec::new();
        let mut off: usize = 0;
        let mut i: usize = 0;
        proof {
            assert(src@.take(0) =~= seq![]);
            lemma_bytes_between(src@, 0, src@.len() as int);
            assert(src@.take(src@.len() as int) =~= src@);
        }
        while i < chars.len()
            invariant
                chars@ == src@,
                i <= chars.len(),
                offsets.len() == i,
                total_bytes == encode_utf8(src@).len(),
                off == byte_offset(src@, i as int),
                forall|k: int| 0 <= k < i ==> #[trigger] offsets@[k] == byte_offset(src@, k),
            decreases chars.len() - i,
        {
            proof {
                lemma_offset_step(src@, i as int);
                lemma_bytes_between(src@, (i + 1) as int, src@.len() as int);
                assert(src@.take(src@.len() as int) =~= src@);
            }
            offsets.push(off);
            off = off + char_width(chars[i]);
            i += 1;
        }
        offsets.push(off);
        Text { src, chars, offsets }
    }

    /// The number of characters.
    pub fn len(&self) -> (n: usize)
        requires
            self.wf(),
        ensures
            n == self.src@.len(),
    {
        self.chars.len()
    }

    /// The characters from position `i` to position `j`.
    pub fn slice(&self, i: usize, j: usize) -> (r: &'a str)
        requires
            self.wf(),
            i <= j <= self.src@.len(),
        ensures
            r@ == self.src@.subrange(i as int, j as int),
    {
        let c = Ghost(self.src@);
        let bi = self.offsets[i];
        let bj = self.offsets[j];
        proof {
            lemma_boundary_at_offset(c@, i as int);
            lemma_bytes_between(c@, i as int, j as int);
            lemma_bytes_between(c@, i as int, c@.len() as int);
            lemma_bytes_between(c@, j as int, c@.len() as int);
            assert(c@.take(c@.len() as int) =~= c@);
            assert(c@.subrange(i as int, c@.len() as int) =~= c@.skip(i as int));
        }
        let (_, tail) = self.src.split_at(bi);
        proof {
            let rest = c@.skip(i as int);
            lemma_boundary_at_offset(rest, (j - i) as int);
            assert(rest.take((j - i) as int) =~= c@.subrange(i as int, j as int));
            assert(tail.spec_bytes() =~= encode_utf8(rest));
            encode_utf8_decode_utf8(rest);
            encode_utf8_decode_utf8(tail@);
        }
        let (piece, _) = tail.split_at(bj - bi);
        proof {
            let rest = c@.skip(i as int);
            lemma_bytes_between(rest, 0, (j - i) as int);
            assert(rest.take(0) =~= seq![]);
            assert(rest.subrange(0, (j - i) as int) =~= c@.subrange(i as int, j as int));
            encode_utf8_decode_utf8(piece@);
            encode_utf8_decode_utf8(c@.subrange(i as int, j as int));
        }
        piece
    }
}

} // verus!
