//! Scanning of a text by the byte offsets of its UTF-8 encoding.

use vstd::prelude::*;
use vstd::utf8::*;
use vstd::std_specs::iter::IteratorSpec;
use vstd::string::StringSliceAdditionalSpecFns;
use crate::foreign::is_white_space;

verus! {

/// Whether exactly the first `n` characters of the text are whitespace that
/// leads it: they are whitespace, and the character after them, if there is
/// one, is not.
pub open spec fn whitespace_ends(text: Seq<char>, n: int) -> bool {
    &&& 0 <= n <= text.len()
    &&& forall|i: int| 0 <= i < n ==> is_white_space(#[trigger] text[i])
    &&& n < text.len() ==> !is_white_space(text[n])
}

/// The number of whitespace characters that lead the text.
pub open spec fn leading_whitespace(text: Seq<char>) -> int {
    choose|n: int| whitespace_ends(text, n)
}

/// The byte offset of the first character that is not whitespace, if the
/// text has one.
pub open spec fn first_visible(text: Seq<char>) -> Option<int> {
    let n = leading_whitespace(text);
    if n == text.len() {
        None
    } else {
        Some(encode_utf8(text.take(n)).len() as int)
    }
}

/// The encoding of a text is the encoding of its first part followed by the
/// encoding of the rest.
pub proof fn lemma_encode_concat(a: Seq<char>, b: Seq<char>)
    ensures
        encode_utf8(a + b) == encode_utf8(a) + encode_utf8(b),
    decreases a.len(),
{
    if a.len() == 0 {
        assert(a + b =~= b);
        assert(encode_utf8(a) + encode_utf8(b) =~= encode_utf8(b));
    } else {
        lemma_encode_concat(a.drop_first(), b);
        assert((a + b).drop_first() =~= a.drop_first() + b);
        assert(encode_utf8(a + b) =~= encode_utf8(a) + encode_utf8(b));
    }
}

/// At most one count of leading whitespace fits a text.
pub proof fn lemma_whitespace_ends_unique(text: Seq<char>, n: int)
    requires
        whitespace_ends(text, n),
    ensures
        leading_whitespace(text) == n,
{
    let m = leading_whitespace(text);
    assert(whitespace_ends(text, m));
    if m < n {
        assert(is_white_space(text[m]));
    } else if n < m {
        assert(is_white_space(text[n]));
    }
}

/// The number of bytes that encode the character whose encoding starts with
/// the byte `first`.
pub fn encoded_width(first: u8) -> (r: usize)
    ensures
        r == if first < 0x80 {
            1int
        } else if first < 0xe0 {
            2
        } else if first < 0xf0 {
            3
        } else {
            4
        },
{
    if first < 0x80 {
        1
    } else if first < 0xe0 {
        2
    } else if first < 0xf0 {
        3
    } else {
        4
    }
}

/// Finds the byte offset of the first character that is not whitespace.
pub fn find_visible(text: &str) -> (r: Option<usize>)
    ensures
        match r {
            Some(at) => first_visible(text@) == Some(at as int),
            None => first_visible(text@) is None,
        },
{
    let bytes = text.as_bytes();
    let mut chars = text.chars();
    let mut at: usize = 0;
    let ghost mut n: int = 0;
    assert(text@.take(0) =~= Seq::empty());
    assert(text@.skip(0) =~= text@);
    loop
        invariant
            0 <= n <= text@.len(),
            chars.remaining() == text@.skip(n),
            at == encode_utf8(text@.take(n)).len(),
            forall|i: int| 0 <= i < n ==> is_white_space(#[trigger] text@[i]),
            bytes@ == encode_utf8(text@),
        decreases text@.len() - n,
    {
        match chars.next() {
            None => {
                proof {
                    lemma_whitespace_ends_unique(text@, n);
                }
                return None;
            },
            Some(c) => {
                assert(c == text@[n]);
                if !c.is_whitespace() {
                    proof {
                        lemma_whitespace_ends_unique(text@, n);
                    }
                    return Some(at);
                }
                proof {
                    let rest = text@.skip(n);
                    assert(text@.take(n) + rest =~= text@);
                    lemma_encode_concat(text@.take(n), rest);
                    encode_utf8_first_scalar(rest);
                    assert(text@.take(n + 1) =~= text@.take(n) + seq![text@[n]]);
                    lemma_encode_concat(text@.take(n), seq![text@[n]]);
                    assert(encode_utf8(seq![text@[n]]) =~= encode_scalar(text@[n] as u32)) by {
                        reveal_with_fuel(encode_utf8, 2);
                    }
                    assert(bytes@[at as int] == encode_utf8(rest)[0]);
                }
                let width = encoded_width(bytes[at]);
                at = at + width;
                proof {
                    n = n + 1;
                }
            },
        }
    }
}

/// The byte of a line break.
pub const LINE_BREAK: u8 = 0x0a;

/// Whether `pattern` stands in `text` at the offset `at`.
pub open spec fn occurs_at(text: Seq<u8>, pattern: Seq<u8>, at: int) -> bool {
    &&& 0 <= at
    &&& at + pattern.len() <= text.len()
    &&& text.subrange(at, at + pattern.len()) == pattern
}

/// Where a pattern stands in a text, the bytes of the text are those of the
/// pattern.
pub proof fn lemma_occurrence_bytes(text: Seq<u8>, pattern: Seq<u8>, at: int)
    requires
        occurs_at(text, pattern, at),
    ensures
        at + pattern.len() <= text.len(),
        forall|i: int| 0 <= i < pattern.len() ==> text[at + i] == #[trigger] pattern[i],
{
    assert forall|i: int| 0 <= i < pattern.len() implies text[at + i] == #[trigger] pattern[i] by {
        assert(text.subrange(at, at + pattern.len())[i] == text[at + i]);
    }
}

/// Tells whether `pattern` stands in `text` at the offset `at`.
pub fn occurs(text: &[u8], pattern: &[u8], at: usize) -> (r: bool)
    ensures
        r == occurs_at(text@, pattern@, at as int),
{
    if at > text.len() || pattern.len() > text.len() - at {
        return false;
    }
    let mut i: usize = 0;
    while i < pattern.len()
        invariant
            i <= pattern.len(),
            at + pattern.len() <= text.len(),
            forall|j: int| 0 <= j < i ==> text[at + j] == pattern[j],
        decreases pattern.len() - i,
    {
        if text[at + i] != pattern[i] {
            assert(text@.subrange(at as int, at + pattern.len())[i as int] == text[at + i]);
            return false;
        }
        i += 1;
    }
    assert(text@.subrange(at as int, at + pattern.len()) =~= pattern@);
    true
}

/// Whether `at` is the first offset after `after` at which `pattern` stands
/// in `text`.
pub open spec fn first_occurrence_after(
    text: Seq<u8>,
    pattern: Seq<u8>,
    after: int,
    at: int,
) -> bool {
    &&& after < at
    &&& occurs_at(text, pattern, at)
    &&& forall|j: int| after < j < at ==> !occurs_at(text, pattern, j)
}

/// Finds the first offset after `after` at which `pattern` stands in `text`.
pub fn find_after(text: &[u8], pattern: &[u8], after: usize) -> (r: Option<usize>)
    ensures
        match r {
            Some(at) => first_occurrence_after(text@, pattern@, after as int, at as int),
            None => forall|j: int| after < j ==> !occurs_at(text@, pattern@, j),
        },
{
    if after >= text.len() {
        return None;
    }
    let mut at: usize = after + 1;
    loop
        invariant
            after < at <= text.len(),
            forall|j: int| after < j < at ==> !occurs_at(text@, pattern@, j),
        decreases text.len() - at,
    {
        if occurs(text, pattern, at) {
            return Some(at);
        }
        if at == text.len() {
            return None;
        }
        at += 1;
    }
}

/// Whether the bytes of `text` from `from` up to `to` hold no line break.
pub open spec fn unbroken(text: Seq<u8>, from: int, to: int) -> bool {
    forall|i: int| from <= i < to ==> text[i] != LINE_BREAK
}

/// Whether `at` is where the text goes on after the line that holds the
/// offset `from`: just after the first line break at or after `from`, or at
/// the end of the text if no line break follows.
pub open spec fn is_next_line(text: Seq<u8>, from: int, at: int) -> bool {
    ||| from < at <= text.len() && text[at - 1] == LINE_BREAK && unbroken(text, from, at - 1)
    ||| at == text.len() && unbroken(text, from, at)
}

/// The offset at which the text goes on after the line that holds `from`.
pub open spec fn next_line(text: Seq<u8>, from: int) -> int {
    choose|at: int| is_next_line(text, from, at)
}

/// At most one offset is the start of the next line.
pub proof fn lemma_next_line_unique(text: Seq<u8>, from: int, at: int)
    requires
        is_next_line(text, from, at),
    ensures
        next_line(text, from) == at,
{
    let other = next_line(text, from);
    assert(is_next_line(text, from, other));
    if other < at {
        if other < text.len() {
            assert(text[other - 1] == LINE_BREAK);
        }
    } else if at < other {
        if at < text.len() {
            assert(text[at - 1] == LINE_BREAK);
        }
    }
}

/// Finds the offset at which the text goes on after the line that holds
/// `from`.
pub fn skip_line(text: &[u8], from: usize) -> (r: usize)
    ensures
        r == next_line(text@, from as int),
        r <= text.len(),
        from <= text.len() ==> from <= r,
        is_next_line(text@, from as int, r as int),
{
    if from > text.len() {
        proof {
            lemma_next_line_unique(text@, from as int, text.len() as int);
        }
        return text.len();
    }
    let mut at: usize = from;
    while at < text.len()
        invariant
            from <= at <= text.len(),
            unbroken(text@, from as int, at as int),
        decreases text.len() - at,
    {
        if text[at] == LINE_BREAK {
            proof {
                lemma_next_line_unique(text@, from as int, at + 1);
            }
            return at + 1;
        }
        at += 1;
    }
    proof {
        lemma_next_line_unique(text@, from as int, at as int);
    }
    at
}

/// The text that the bytes from `from` up to `to` of the encoding of `text`
/// spell.
pub open spec fn slice_text(text: Seq<char>, from: int, to: int) -> Seq<char> {
    decode_utf8(encode_utf8(text).subrange(from, to))
}

/// In valid UTF-8 a byte below 0x80 is a character of its own: a character
/// starts at it and another one, or the end, follows it.
pub proof fn lemma_boundary_at_ascii(bytes: Seq<u8>, at: int)
    requires
        valid_utf8(bytes),
        0 <= at < bytes.len(),
        bytes[at] < 0x80,
    ensures
        is_char_boundary(bytes, at),
        is_char_boundary(bytes, at + 1),
{
    is_char_boundary_iff_not_is_continuation_byte(bytes, at);
    if at + 1 == bytes.len() {
        is_char_boundary_start_end_of_seq(bytes);
    } else {
        valid_utf8_split(bytes, at);
        let tail = bytes.subrange(at, bytes.len() as int);
        assert(tail[0] == bytes[at]);
        assert(valid_first_scalar(tail));
        let rest = pop_first_scalar(tail);
        assert(rest =~= bytes.subrange(at + 1, bytes.len() as int));
        assert(valid_utf8(rest));
        assert(valid_first_scalar(rest));
        assert(rest[0] == bytes[at + 1]);
        is_char_boundary_iff_not_is_continuation_byte(bytes, at + 1);
    }
}

/// A character boundary of a text is one of each part of the text that
/// reaches it.
pub proof fn lemma_boundary_in_prefix(bytes: Seq<u8>, at: int, end: int)
    requires
        valid_utf8(bytes),
        0 <= at <= end <= bytes.len(),
        is_char_boundary(bytes, at),
        is_char_boundary(bytes, end),
    ensures
        valid_utf8(bytes.subrange(0, end)),
        is_char_boundary(bytes.subrange(0, end), at),
{
    valid_utf8_split(bytes, end);
    let head = bytes.subrange(0, end);
    if at == end {
        is_char_boundary_start_end_of_seq(head);
    } else {
        is_char_boundary_iff_not_is_continuation_byte(bytes, at);
        assert(head[at] == bytes[at]);
        is_char_boundary_iff_not_is_continuation_byte(head, at);
    }
}

/// The part of a text from a character boundary on is the text without the
/// characters before the boundary.
pub proof fn lemma_tail_is_suffix(text: Seq<char>, at: int)
    requires
        is_char_boundary(encode_utf8(text), at),
        0 <= at <= encode_utf8(text).len(),
    ensures
        ({
            let before = slice_text(text, 0, at).len() as int;
            before <= text.len() && slice_text(text, at, encode_utf8(text).len() as int)
                == text.skip(before)
        }),
{
    let bytes = encode_utf8(text);
    encode_utf8_valid_utf8(text);
    encode_utf8_decode_utf8(text);
    decode_utf8_split(bytes, at);
    let head = decode_utf8(bytes.subrange(0, at));
    let tail = decode_utf8(bytes.subrange(at, bytes.len() as int));
    assert(text =~= head + tail);
    assert(text.skip(head.len() as int) =~= tail);
}

/// The part of `text` between two character boundaries, given by their
/// byte offsets.
pub fn slice<'a>(text: &'a str, from: usize, to: usize) -> (r: &'a str)
    requires
        from <= to <= text.spec_bytes().len(),
        is_char_boundary(text.spec_bytes(), from as int),
        is_char_boundary(text.spec_bytes(), to as int),
    ensures
        r.spec_bytes() == text.spec_bytes().subrange(from as int, to as int),
        r@ == slice_text(text@, from as int, to as int),
{
    proof {
        encode_utf8_valid_utf8(text@);
        lemma_boundary_in_prefix(text.spec_bytes(), from as int, to as int);
    }
    let (head, _) = text.split_at(to);
    let (_, r) = head.split_at(from);
    proof {
        assert(r.spec_bytes() =~= text.spec_bytes().subrange(from as int, to as int));
        encode_utf8_decode_utf8(r@);
    }
    r
}

} // verus!
