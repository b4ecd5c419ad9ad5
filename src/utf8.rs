use vstd::prelude::*;
use vstd::string::{StrSliceExecFns, StringSliceAdditionalSpecFns};
use vstd::utf8::*;

verus! {

/// Number of bytes in the UTF-8 sequence that a lead byte introduces, or `None` for a
/// continuation byte or a byte that never starts a sequence.
pub open spec fn lead_len(first: u8) -> Option<usize> {
    if first <= 0x7F {
        Some(1)
    } else if 0xC0 <= first && first <= 0xDF {
        Some(2)
    } else if 0xE0 <= first && first <= 0xEF {
        Some(3)
    } else if 0xF0 <= first && first <= 0xF7 {
        Some(4)
    } else {
        None
    }
}

/// The characters of a byte stream decoded from its start, one sequence at a time.
/// A sequence that the stream ends in the middle of is left out; `None` as soon as a
/// lead byte is invalid or a complete sequence is not well-formed UTF-8.
pub open spec fn decode_stream(bytes: Seq<u8>) -> Option<Seq<char>>
    decreases bytes.len(),
{
    if bytes.len() == 0 {
        Some(Seq::empty())
    } else {
        match lead_len(bytes[0]) {
            None => None,
            Some(n) => {
                if bytes.len() < n {
                    Some(Seq::empty())
                } else if valid_utf8(bytes.subrange(0, n as int)) {
                    match decode_stream(bytes.subrange(n as int, bytes.len() as int)) {
                        Some(rest) => Some(decode_utf8(bytes.subrange(0, n as int)) + rest),
                        None => None,
                    }
                } else {
                    None
                }
            },
        }
    }
}

/// Number of bytes at the end of a stream that belong to a sequence not yet complete.
pub open spec fn unfinished(bytes: Seq<u8>) -> nat
    decreases bytes.len(),
{
    if bytes.len() == 0 {
        0
    } else {
        match lead_len(bytes[0]) {
            None => 0,
            Some(n) => {
                if bytes.len() < n {
                    bytes.len()
                } else {
                    unfinished(bytes.subrange(n as int, bytes.len() as int))
                }
            },
        }
    }
}

/// Length of the UTF-8 sequence that starts with `first`, read from its high bits.
pub fn utf8_char_len(first: u8) -> (r: Option<usize>)
    ensures
        r == lead_len(first),
{
    if first & 0b1000_0000 == 0 {
        assert(first & 0x80 == 0 ==> first <= 0x7F) by (bit_vector);
        Some(1)
    } else if first & 0b1110_0000 == 0b1100_0000 {
        assert(first & 0x80 != 0 && first & 0xE0 == 0xC0 ==> 0xC0 <= first && first <= 0xDF)
            by (bit_vector);
        Some(2)
    } else if first & 0b1111_0000 == 0b1110_0000 {
        assert(first & 0x80 != 0 && first & 0xE0 != 0xC0 && first & 0xF0 == 0xE0 ==> 0xE0 <= first
            && first <= 0xEF) by (bit_vector);
        Some(3)
    } else if first & 0b1111_1000 == 0b1111_0000 {
        assert(first & 0x80 != 0 && first & 0xE0 != 0xC0 && first & 0xF0 != 0xE0 && first & 0xF8
            == 0xF0 ==> 0xF0 <= first && first <= 0xF7) by (bit_vector);
        Some(4)
    } else {
        assert(first & 0x80 != 0 && first & 0xE0 != 0xC0 && first & 0xF0 != 0xE0 && first & 0xF8
            != 0xF0 ==> !(first <= 0x7F) && !(0xC0 <= first && first <= 0xDF) && !(0xE0 <= first
            && first <= 0xEF) && !(0xF0 <= first && first <= 0xF7)) by (bit_vector);
        None
    }
}

/// Relies on std::str::from_utf8: it succeeds exactly on well-formed UTF-8, and the
/// string it returns holds those same bytes.
#[verifier::external_body]
fn str_from_utf8(bytes: &[u8]) -> (r: Option<&str>)
    ensures
        r is Some <==> valid_utf8(bytes@),
        r matches Some(s) ==> s.spec_bytes() == bytes@,
{
    std::str::from_utf8(bytes).ok()
}

/// Decodes one complete UTF-8 sequence: the span's length is the one its lead byte gives.
pub fn decode_sequence(span: &[u8]) -> (r: Option<char>)
    requires
        0 < span@.len() <= 4,
        lead_len(span@[0]) == Some(span@.len() as usize),
    ensures
        r is Some <==> valid_utf8(span@),
        r matches Some(c) ==> decode_utf8(span@) == seq![c] && encode_scalar(c as u32) == span@,
{
    match str_from_utf8(span) {
        None => None,
        Some(s) => {
            proof {
                encode_utf8_decode_utf8(s@);
                lemma_single_scalar(span@);
            }
            Some(s.get_char(0))
        },
    }
}

/// A well-formed span whose length its lead byte gives decodes to one character, whose
/// encoding is the span.
pub proof fn lemma_single_scalar(span: Seq<u8>)
    requires
        0 < span.len() <= 4,
        lead_len(span[0]) == Some(span.len() as usize),
        valid_utf8(span),
    ensures
        decode_utf8(span) == seq![decode_first_scalar(span) as char],
        encode_scalar((decode_first_scalar(span) as char) as u32) == span,
{
    assert(length_of_first_scalar(span) == span.len());
    assert(pop_first_scalar(span) =~= Seq::<u8>::empty());
    assert(decode_utf8(pop_first_scalar(span)) =~= Seq::<char>::empty());
    assert(decode_utf8(span) =~= seq![decode_first_scalar(span) as char]);
    decode_utf8_first_scalar(span);
    assert(take_first_scalar(span) =~= span);
}

/// Decoding a stream that starts with complete, well-formed sequences: their characters
/// come first, then those of the rest.
pub proof fn lemma_decode_append(a: Seq<u8>, x: Seq<u8>)
    requires
        decode_stream(a) is Some,
        unfinished(a) == 0,
    ensures
        decode_stream(a + x) == (match decode_stream(x) {
            Some(q) => Some(decode_stream(a)->0 + q),
            None => None,
        }),
        unfinished(a + x) == unfinished(x),
    decreases a.len(),
{
    if a.len() == 0 {
        assert(a + x =~= x);
        assert(decode_stream(a)->0 =~= Seq::<char>::empty());
        if let Some(q) = decode_stream(x) {
            assert(Seq::<char>::empty() + q =~= q);
        }
    } else {
        let n = lead_len(a[0])->0 as int;
        let ax = a + x;
        assert(ax[0] == a[0]);
        assert(ax.subrange(0, n) =~= a.subrange(0, n));
        let rest = a.subrange(n, a.len() as int);
        assert(ax.subrange(n, ax.len() as int) =~= rest + x);
        lemma_decode_append(rest, x);
        let head = decode_utf8(a.subrange(0, n));
        if let Some(q) = decode_stream(x) {
            assert(head + (decode_stream(rest)->0 + q) =~= (head + decode_stream(rest)->0) + q);
        }
    }
}

/// Once a stream holds a malformed sequence, no bytes that follow make it decodable.
pub proof fn lemma_malformed_stays_malformed(a: Seq<u8>, x: Seq<u8>)
    requires
        decode_stream(a) is None,
    ensures
        decode_stream(a + x) is None,
    decreases a.len(),
{
    let n = lead_len(a[0]);
    let ax = a + x;
    assert(ax[0] == a[0]);
    if let Some(n) = n {
        let n = n as int;
        assert(ax.subrange(0, n) =~= a.subrange(0, n));
        let rest = a.subrange(n, a.len() as int);
        assert(ax.subrange(n, ax.len() as int) =~= rest + x);
        if valid_utf8(a.subrange(0, n)) {
            lemma_malformed_stays_malformed(rest, x);
        }
    }
}

/// A byte that cannot start a sequence (a continuation byte, or 0xF8 and above) makes
/// a stream that starts with it malformed, whatever follows.
pub proof fn lemma_stray_byte_is_malformed(b: u8, x: Seq<u8>)
    requires
        lead_len(b) is None,
    ensures
        decode_stream(seq![b] + x) is None,
{
    assert((seq![b] + x)[0] == b);
}

} // verus!
