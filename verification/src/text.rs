//! Strings on the wire: the length of the UTF-8 form in bytes, then the bytes.

use crate::varint::{lemma_span_round_trip, read_span, span_at, span_bytes, write_span};
use vstd::prelude::*;
use vstd::slice::slice_subrange;
use vstd::string::StringSliceAdditionalSpecFns;
use vstd::utf8::{
    decode_utf8, decode_utf8_encode_utf8, encode_utf8, encode_utf8_decode_utf8,
    encode_utf8_valid_utf8, valid_utf8,
};

verus! {

/// The string that starts at `pos` in `s`, with the position behind it. A run
/// of bytes that is no UTF-8 is no string.
pub open spec fn string_at(s: Seq<u8>, pos: int) -> Option<(Seq<char>, int)> {
    match span_at(s, pos) {
        Some((from, to)) => if valid_utf8(s.subrange(from, to)) {
            Some((decode_utf8(s.subrange(from, to)), to))
        } else {
            None
        },
        None => None,
    }
}

/// The bytes that stand for the string `cs`.
pub open spec fn string_bytes(cs: Seq<char>) -> Seq<u8> {
    span_bytes(encode_utf8(cs))
}

/// A string whose UTF-8 form is short enough to have its length written.
pub open spec fn writable(cs: Seq<char>) -> bool {
    encode_utf8(cs).len() <= u64::MAX
}

pub proof fn lemma_string_round_trip(a: Seq<u8>, cs: Seq<char>, b: Seq<u8>)
    requires
        writable(cs),
    ensures
        string_at(a + string_bytes(cs) + b, a.len() as int) == Some(
            (cs, (a.len() + string_bytes(cs).len()) as int),
        ),
{
    lemma_span_round_trip(a, encode_utf8(cs), b);
    encode_utf8_valid_utf8(cs);
    encode_utf8_decode_utf8(cs);
}

/// `core::str::from_utf8`: the bytes as a string slice where they are UTF-8,
/// and nothing where they are not. The slice holds the characters that the
/// bytes encode.
#[verifier::external_body]
pub(crate) fn str_from_utf8(bytes: &[u8]) -> (r: Option<&str>)
    ensures
        r is Some <==> valid_utf8(bytes@),
        r matches Some(s) ==> s@ == decode_utf8(bytes@),
{
    core::str::from_utf8(bytes).ok()
}

/// Reads a string.
pub fn read_string(buf: &[u8], pos: usize) -> (r: Option<(String, usize)>)
    ensures
        match r {
            Some((v, q)) => string_at(buf@, pos as int) == Some((v@, q as int)) && pos < q
                <= buf.len() && writable(v@),
            None => string_at(buf@, pos as int) is None,
        },
{
    match read_span(buf, pos) {
        Some((from, to)) => {
            let run = slice_subrange(buf, from, to);
            match str_from_utf8(run) {
                Some(s) => {
                    proof {
                        decode_utf8_encode_utf8(run@);
                    }
                    Some((s.to_owned(), to))
                },
                None => None,
            }
        },
        None => None,
    }
}

/// Appends the string `s`.
pub fn write_string(out: &mut Vec<u8>, s: &str)
    ensures
        final(out)@ == old(out)@ + string_bytes(s@),
        writable(s@),
{
    let run = s.as_bytes();
    let n: usize = run.len();
    write_span(out, run);
}

/// Part of a string that can be written can be written.
pub proof fn lemma_writable_part(cs: Seq<char>, from: int, to: int)
    requires
        writable(cs),
        0 <= from <= to <= cs.len(),
    ensures
        writable(cs.subrange(from, to)),
{
    lemma_encode_len(cs.subrange(0, from), cs.subrange(from, cs.len() as int));
    assert(cs.subrange(0, from) + cs.subrange(from, cs.len() as int) =~= cs);
    lemma_encode_len(cs.subrange(from, to), cs.subrange(to, cs.len() as int));
    assert(cs.subrange(from, to) + cs.subrange(to, cs.len() as int) =~= cs.subrange(
        from,
        cs.len() as int,
    ));
}

/// The UTF-8 form of two strings in a row is as long as both forms together.
pub proof fn lemma_encode_len(a: Seq<char>, b: Seq<char>)
    ensures
        encode_utf8(a + b).len() == encode_utf8(a).len() + encode_utf8(b).len(),
    decreases a.len(),
{
    if a.len() == 0 {
        assert(a + b =~= b);
    } else {
        assert((a + b).drop_first() =~= a.drop_first() + b);
        lemma_encode_len(a.drop_first(), b);
    }
}

/// A string in memory can be written.
pub fn note_writable(s: &str)
    ensures
        writable(s@),
{
    let run = s.as_bytes();
    let n: usize = run.len();
}

/// Whether two strings hold the same characters.
pub fn same_text(a: &String, b: &String) -> (r: bool)
    ensures
        r == (a@ == b@),
{
    *a == *b
}

/// Whether two optional strings agree.
pub fn same_opt_text(a: &Option<String>, b: &Option<String>) -> (r: bool)
    ensures
        r == (opt_text(*a) == opt_text(*b)),
{
    match (a, b) {
        (Some(x), Some(y)) => same_text(x, y),
        (None, None) => true,
        _ => false,
    }
}

/// The characters of an optional string.
pub open spec fn opt_text(s: Option<String>) -> Option<Seq<char>> {
    match s {
        Some(t) => Some(t@),
        None => None,
    }
}

} // verus!
