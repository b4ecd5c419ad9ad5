use vstd::prelude::*;
use vstd::utf8::*;

use crate::utf8::{decode_stream, lead_len, unfinished};

verus! {

/// Where a match ends: the position of the last character of the match, after it has
/// been counted.
#[derive(Clone, Copy, Debug, PartialEq, Eq, Structural)]
pub struct Occurence {
    /// Line of the character, from 1.
    pub line_number: u64,
    /// Characters of the line up to and including this one.
    pub line_character_offset: u64,
    /// Bytes of the line up to and including this character.
    pub line_byte_offset: u64,
    /// Bytes of the whole stream up to and including this character.
    pub total_byte_offset: u64,
}

/// Number of newlines among the characters.
pub open spec fn newlines(s: Seq<char>) -> nat
    decreases s.len(),
{
    if s.len() == 0 {
        0
    } else {
        newlines(s.drop_last()) + if s.last() == '\n' {
            1nat
        } else {
            0nat
        }
    }
}

/// Index of the first character of the current line: just after the last newline.
pub open spec fn line_start(s: Seq<char>) -> nat
    decreases s.len(),
{
    if s.len() == 0 {
        0
    } else if s.last() == '\n' {
        s.len()
    } else {
        line_start(s.drop_last())
    }
}

/// The characters of the current line.
pub open spec fn current_line(s: Seq<char>) -> Seq<char> {
    s.subrange(line_start(s) as int, s.len() as int)
}

/// Line number after the characters: one more than the newlines seen.
pub open spec fn line_number_after(s: Seq<char>) -> int {
    1 + newlines(s) as int
}

/// Characters of the current line.
pub open spec fn line_chars_after(s: Seq<char>) -> int {
    current_line(s).len() as int
}

/// Bytes that the current line takes in UTF-8.
pub open spec fn line_bytes_after(s: Seq<char>) -> int {
    encode_utf8(current_line(s)).len() as int
}

/// Bytes that the characters take in UTF-8.
pub open spec fn total_bytes_after(s: Seq<char>) -> int {
    encode_utf8(s).len() as int
}

/// The position after the characters, as an occurrence records it.
pub open spec fn position_after(s: Seq<char>) -> Occurence {
    Occurence {
        line_number: line_number_after(s) as u64,
        line_character_offset: line_chars_after(s) as u64,
        line_byte_offset: line_bytes_after(s) as u64,
        total_byte_offset: total_bytes_after(s) as u64,
    }
}

/// Encoding one more character appends its own encoding.
pub proof fn lemma_encode_push(s: Seq<char>, c: char)
    ensures
        encode_utf8(s.push(c)) == encode_utf8(s) + encode_scalar(c as u32),
    decreases s.len(),
{
    if s.len() == 0 {
        assert(s.push(c).drop_first() =~= Seq::<char>::empty());
        assert(s.push(c)[0] == c);
        assert(encode_utf8(Seq::<char>::empty()) =~= Seq::<u8>::empty());
        assert(encode_utf8(s) =~= Seq::<u8>::empty());
        assert(encode_utf8(s.push(c)) =~= encode_utf8(s) + encode_scalar(c as u32));
    } else {
        lemma_encode_push(s.drop_first(), c);
        assert(s.push(c).drop_first() =~= s.drop_first().push(c));
        assert(s.push(c)[0] == s[0]);
        assert(encode_utf8(s.push(c)) =~= encode_utf8(s) + encode_scalar(c as u32));
    }
}

/// The line of the characters after one more: empty after a newline, else one longer.
pub proof fn lemma_current_line_push(s: Seq<char>, c: char)
    ensures
        c == '\n' ==> current_line(s.push(c)) == Seq::<char>::empty(),
        c != '\n' ==> current_line(s.push(c)) == current_line(s).push(c),
        line_start(s) <= s.len(),
{
    lemma_line_start_bound(s);
    assert(s.push(c).drop_last() =~= s);
    if c == '\n' {
        assert(current_line(s.push(c)) =~= Seq::<char>::empty());
    } else {
        assert(current_line(s.push(c)) =~= current_line(s).push(c));
    }
}

proof fn lemma_line_start_bound(s: Seq<char>)
    ensures
        line_start(s) <= s.len(),
    decreases s.len(),
{
    if s.len() > 0 {
        lemma_line_start_bound(s.drop_last());
    }
}

/// The total byte offset after a run of characters is the sum of their encoded lengths:
/// one more character adds exactly the length of its encoding, whatever it is.
pub proof fn lemma_total_is_sum_of_lengths(s: Seq<char>, c: char)
    ensures
        total_bytes_after(s.push(c)) == total_bytes_after(s) + encode_scalar(c as u32).len(),
        total_bytes_after(Seq::<char>::empty()) == 0,
{
    lemma_encode_push(s, c);
}

/// A newline moves to the next line, exactly once, and sets both in-line offsets to 0;
/// any other character keeps the line number.
pub proof fn lemma_newline_starts_line(s: Seq<char>, c: char)
    ensures
        c == '\n' ==> line_number_after(s.push(c)) == line_number_after(s) + 1
            && line_chars_after(s.push(c)) == 0 && line_bytes_after(s.push(c)) == 0,
        c != '\n' ==> line_number_after(s.push(c)) == line_number_after(s)
            && line_chars_after(s.push(c)) == line_chars_after(s) + 1
            && line_bytes_after(s.push(c)) == line_bytes_after(s) + encode_scalar(c as u32).len(),
{
    assert(s.push(c).drop_last() =~= s);
    lemma_current_line_push(s, c);
    lemma_encode_push(current_line(s), c);
}

/// Encoding two runs of characters one after the other gives their encodings one after
/// the other.
pub proof fn lemma_encode_concat(a: Seq<char>, b: Seq<char>)
    ensures
        encode_utf8(a + b) == encode_utf8(a) + encode_utf8(b),
    decreases a.len(),
{
    if a.len() == 0 {
        assert(a + b =~= b);
        assert(encode_utf8(a) =~= Seq::<u8>::empty());
        assert(encode_utf8(a) + encode_utf8(b) =~= encode_utf8(b));
    } else {
        lemma_encode_concat(a.drop_first(), b);
        assert((a + b).drop_first() =~= a.drop_first() + b);
        assert((a + b)[0] == a[0]);
        assert(encode_utf8(a + b) =~= encode_utf8(a) + encode_utf8(b));
    }
}

/// The total byte offset after the characters of a stream is the number of bytes they
/// were decoded from: every byte but those of a final, unfinished sequence.
pub proof fn lemma_total_is_bytes_decoded(bytes: Seq<u8>)
    requires
        decode_stream(bytes) is Some,
    ensures
        total_bytes_after(decode_stream(bytes)->0) + unfinished(bytes) == bytes.len(),
    decreases bytes.len(),
{
    if bytes.len() > 0 {
        let n = lead_len(bytes[0])->0 as int;
        if bytes.len() >= n {
            let span = bytes.subrange(0, n);
            let rest = bytes.subrange(n, bytes.len() as int);
            lemma_total_is_bytes_decoded(rest);
            decode_utf8_encode_utf8(span);
            lemma_encode_concat(decode_utf8(span), decode_stream(rest)->0);
        } else {
            assert(encode_utf8(Seq::<char>::empty()) =~= Seq::<u8>::empty());
        }
    } else {
        assert(encode_utf8(Seq::<char>::empty()) =~= Seq::<u8>::empty());
    }
}

} // verus!
