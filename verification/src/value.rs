//! Scalar values of a block, kept in their binary form.
//!
//! A value is one of: undefined, null, a boolean, an integer, a 32-bit or
//! 64-bit float, a 64-bit big integer, a string, a byte buffer, an array of
//! values, or a map from strings to values. The library never looks inside a
//! value: it finds where one ends, carries its bytes, and asks `lib0` whether
//! two of them are equal.

use crate::text::str_from_utf8;
use crate::varint::{
    i64_at, ivar_at, lemma_uvar_at_bounds, read_i64, read_u32, read_u64, u32_at, u64_at, uvar_at,
};
use vstd::prelude::*;
use vstd::slice::slice_subrange;
use vstd::utf8::valid_utf8;

verus! {

/// How deep arrays and maps may nest inside one value.
pub const MAX_DEPTH: usize = 64;

/// A run of bytes in a value, with a length in front that fits 32 bits.
pub open spec fn short_span_at(s: Seq<u8>, pos: int) -> Option<(int, int)> {
    match u32_at(s, pos) {
        Some((n, q)) => if q + n <= s.len() {
            Some((q, q + n))
        } else {
            None
        },
        None => None,
    }
}

/// A string in a value: a short run of bytes that is UTF-8.
pub open spec fn key_at(s: Seq<u8>, pos: int) -> Option<int> {
    match short_span_at(s, pos) {
        Some((from, to)) => if valid_utf8(s.subrange(from, to)) {
            Some(to)
        } else {
            None
        },
        None => None,
    }
}

/// The position behind the value that starts at `pos` in `s`, where there is
/// one that nests arrays and maps at most `depth` deep.
#[verifier::opaque]
pub open spec fn value_at(s: Seq<u8>, pos: int, depth: nat) -> Option<int>
    decreases depth, 0nat,
{
    if pos < 0 || pos >= s.len() {
        None
    } else {
        let tag = s[pos];
        if tag == 127 || tag == 126 || tag == 121 || tag == 120 {
            Some(pos + 1)
        } else if tag == 125 {
            match ivar_at(s, pos + 1) {
                Some(((neg, m), q)) => if m < 0x8000_0000_0000_0000 {
                    Some(q)
                } else {
                    None
                },
                None => None,
            }
        } else if tag == 124 {
            if pos + 5 <= s.len() {
                Some(pos + 5)
            } else {
                None
            }
        } else if tag == 123 || tag == 122 {
            if pos + 9 <= s.len() {
                Some(pos + 9)
            } else {
                None
            }
        } else if tag == 119 {
            key_at(s, pos + 1)
        } else if tag == 116 {
            match short_span_at(s, pos + 1) {
                Some((from, to)) => Some(to),
                None => None,
            }
        } else if tag == 117 && depth > 0 {
            match u64_at(s, pos + 1) {
                Some((n, q)) => values_at(s, q, n as nat, (depth - 1) as nat),
                None => None,
            }
        } else if tag == 118 && depth > 0 {
            match u64_at(s, pos + 1) {
                Some((n, q)) => entries_at(s, q, n as nat, (depth - 1) as nat),
                None => None,
            }
        } else {
            None
        }
    }
}

/// The position behind `n` values in a row.
#[verifier::opaque]
pub open spec fn values_at(s: Seq<u8>, pos: int, n: nat, depth: nat) -> Option<int>
    decreases depth, n + 1,
{
    if n == 0 {
        Some(pos)
    } else {
        match value_at(s, pos, depth) {
            Some(q) => values_at(s, q, (n - 1) as nat, depth),
            None => None,
        }
    }
}

/// The position behind `n` pairs of a key and a value.
#[verifier::opaque]
pub open spec fn entries_at(s: Seq<u8>, pos: int, n: nat, depth: nat) -> Option<int>
    decreases depth, n + 1,
{
    if n == 0 {
        Some(pos)
    } else {
        match key_at(s, pos) {
            Some(k) => match value_at(s, k, depth) {
                Some(q) => entries_at(s, q, (n - 1) as nat, depth),
                None => None,
            },
            None => None,
        }
    }
}

/// Bytes that hold exactly one value.
pub open spec fn valid_value(b: Seq<u8>) -> bool {
    value_at(b, 0, MAX_DEPTH as nat) == Some(b.len() as int)
}

/// Two stretches of `n` bytes that hold the same bytes.
pub open spec fn same_run(s1: Seq<u8>, at1: int, s2: Seq<u8>, at2: int, n: int) -> bool {
    &&& 0 <= at1 && 0 <= at2 && 0 <= n
    &&& at1 + n <= s1.len() && at2 + n <= s2.len()
    &&& s1.subrange(at1, at1 + n) == s2.subrange(at2, at2 + n)
}

proof fn lemma_same_run_at(s1: Seq<u8>, at1: int, s2: Seq<u8>, at2: int, n: int, i: int)
    requires
        same_run(s1, at1, s2, at2, n),
        0 <= i < n,
    ensures
        s1[at1 + i] == s2[at2 + i],
{
    assert(s1.subrange(at1, at1 + n)[i] == s1[at1 + i]);
    assert(s2.subrange(at2, at2 + n)[i] == s2[at2 + i]);
}

proof fn lemma_same_run_part(
    s1: Seq<u8>,
    at1: int,
    s2: Seq<u8>,
    at2: int,
    n: int,
    from: int,
    to: int,
)
    requires
        same_run(s1, at1, s2, at2, n),
        0 <= from <= to <= n,
    ensures
        same_run(s1, at1 + from, s2, at2 + from, to - from),
{
    assert(s1.subrange(at1 + from, at1 + to) =~= s1.subrange(at1, at1 + n).subrange(from, to));
    assert(s2.subrange(at2 + from, at2 + to) =~= s2.subrange(at2, at2 + n).subrange(from, to));
}

/// An unsigned number reads the same wherever its bytes stand.
proof fn lemma_uvar_frame(s1: Seq<u8>, at1: int, s2: Seq<u8>, at2: int, n: int, limit: nat)
    requires
        same_run(s1, at1, s2, at2, n),
        uvar_at(s1, at1, limit) matches Some((v, q)) && q <= at1 + n,
    ensures
        uvar_at(s2, at2, limit) == Some(
            (uvar_at(s1, at1, limit).unwrap().0, uvar_at(s1, at1, limit).unwrap().1 - at1 + at2),
        ),
    decreases limit,
{
    reveal(uvar_at);
    lemma_uvar_at_bounds(s1, at1, limit);
    lemma_same_run_at(s1, at1, s2, at2, n, 0);
    if s1[at1] < 128 {
    } else {
        lemma_same_run_part(s1, at1, s2, at2, n, 1, n);
        lemma_uvar_frame(s1, at1 + 1, s2, at2 + 1, n - 1, (limit - 1) as nat);
    }
}

proof fn lemma_ivar_frame(s1: Seq<u8>, at1: int, s2: Seq<u8>, at2: int, n: int)
    requires
        same_run(s1, at1, s2, at2, n),
        ivar_at(s1, at1) matches Some((v, q)) && q <= at1 + n,
    ensures
        ivar_at(s2, at2) == Some(
            (ivar_at(s1, at1).unwrap().0, ivar_at(s1, at1).unwrap().1 - at1 + at2),
        ),
{
    if s1[at1] < 128 {
        lemma_same_run_at(s1, at1, s2, at2, n, 0);
    } else {
        lemma_uvar_at_bounds(s1, at1 + 1, 9);
        lemma_same_run_at(s1, at1, s2, at2, n, 0);
        lemma_same_run_part(s1, at1, s2, at2, n, 1, n);
        lemma_uvar_frame(s1, at1 + 1, s2, at2 + 1, n - 1, 9);
    }
}

proof fn lemma_short_span_frame(s1: Seq<u8>, at1: int, s2: Seq<u8>, at2: int, n: int)
    requires
        same_run(s1, at1, s2, at2, n),
        short_span_at(s1, at1) matches Some((from, to)) && to <= at1 + n,
    ensures
        short_span_at(s2, at2) == Some(
            (short_span_at(s1, at1).unwrap().0 - at1 + at2, short_span_at(s1, at1).unwrap().1 - at1 + at2),
        ),
        s2.subrange(short_span_at(s2, at2).unwrap().0, short_span_at(s2, at2).unwrap().1)
            == s1.subrange(short_span_at(s1, at1).unwrap().0, short_span_at(s1, at1).unwrap().1),
{
    let (from, to) = short_span_at(s1, at1).unwrap();
    lemma_uvar_at_bounds(s1, at1, 10);
    lemma_uvar_frame(s1, at1, s2, at2, n, 10);
    lemma_same_run_part(s1, at1, s2, at2, n, from - at1, to - at1);
}

proof fn lemma_key_frame(s1: Seq<u8>, at1: int, s2: Seq<u8>, at2: int, n: int)
    requires
        same_run(s1, at1, s2, at2, n),
        key_at(s1, at1) matches Some(q) && q <= at1 + n,
    ensures
        key_at(s2, at2) == Some(key_at(s1, at1).unwrap() - at1 + at2),
{
    lemma_short_span_frame(s1, at1, s2, at2, n);
}

/// A value ends behind where it begins and inside the buffer; `n` values
/// take at least `n` bytes.
pub proof fn lemma_value_bounds(s: Seq<u8>, pos: int, depth: nat)
    ensures
        value_at(s, pos, depth) matches Some(q) ==> 0 <= pos < q <= s.len(),
    decreases depth, 0nat,
{
    reveal(value_at);
    reveal(values_at);
    reveal(entries_at);
    if pos < 0 || pos >= s.len() {
    } else {
        let tag = s[pos];
        if tag == 125 {
            lemma_uvar_at_bounds(s, pos + 2, 9);
        } else if tag == 119 || tag == 116 {
            lemma_uvar_at_bounds(s, pos + 1, 10);
        } else if (tag == 117 || tag == 118) && depth > 0 {
            lemma_uvar_at_bounds(s, pos + 1, 10);
            match u64_at(s, pos + 1) {
                Some((n, q)) => {
                    if tag == 117 {
                        lemma_values_bounds(s, q, n as nat, (depth - 1) as nat);
                    } else {
                        lemma_entries_bounds(s, q, n as nat, (depth - 1) as nat);
                    }
                },
                None => {},
            }
        }
    }
}

pub proof fn lemma_values_bounds(s: Seq<u8>, pos: int, n: nat, depth: nat)
    requires
        0 <= pos <= s.len(),
    ensures
        values_at(s, pos, n, depth) matches Some(q) ==> pos + n <= q <= s.len(),
    decreases depth, n + 1,
{
    reveal(value_at);
    reveal(values_at);
    reveal(entries_at);
    if n > 0 {
        lemma_value_bounds(s, pos, depth);
        match value_at(s, pos, depth) {
            Some(q) => lemma_values_bounds(s, q, (n - 1) as nat, depth),
            None => {},
        }
    }
}

pub proof fn lemma_entries_bounds(s: Seq<u8>, pos: int, n: nat, depth: nat)
    requires
        0 <= pos <= s.len(),
    ensures
        entries_at(s, pos, n, depth) matches Some(q) ==> pos + n <= q <= s.len(),
    decreases depth, n + 1,
{
    reveal(value_at);
    reveal(values_at);
    reveal(entries_at);
    if n > 0 {
        lemma_uvar_at_bounds(s, pos, 10);
        match key_at(s, pos) {
            Some(k) => {
                lemma_value_bounds(s, k, depth);
                match value_at(s, k, depth) {
                    Some(q) => lemma_entries_bounds(s, q, (n - 1) as nat, depth),
                    None => {},
                }
            },
            None => {},
        }
    }
}

/// A value reads the same wherever its bytes stand: what follows it, and
/// what stands before it, do not matter.
pub proof fn lemma_value_frame(s1: Seq<u8>, at1: int, s2: Seq<u8>, at2: int, n: int, depth: nat)
    requires
        same_run(s1, at1, s2, at2, n),
        value_at(s1, at1, depth) matches Some(q) && q <= at1 + n,
    ensures
        value_at(s2, at2, depth) == Some(value_at(s1, at1, depth).unwrap() - at1 + at2),
    decreases depth, 0nat,
{
    reveal(value_at);
    reveal(values_at);
    reveal(entries_at);
    let tag = s1[at1];
    lemma_value_bounds(s1, at1, depth);
    lemma_same_run_at(s1, at1, s2, at2, n, 0);
    lemma_same_run_part(s1, at1, s2, at2, n, 1, n);
    if tag == 127 || tag == 126 || tag == 121 || tag == 120 {
    } else if tag == 125 {
        lemma_ivar_frame(s1, at1 + 1, s2, at2 + 1, n - 1);
    } else if tag == 124 {
    } else if tag == 123 || tag == 122 {
    } else if tag == 119 {
        lemma_key_frame(s1, at1 + 1, s2, at2 + 1, n - 1);
    } else if tag == 116 {
        lemma_short_span_frame(s1, at1 + 1, s2, at2 + 1, n - 1);
    } else {
        let (count, q) = u64_at(s1, at1 + 1).unwrap();
        lemma_uvar_at_bounds(s1, at1 + 1, 10);
        let d = (depth - 1) as nat;
        if tag == 117 {
            lemma_values_bounds(s1, q, count as nat, d);
        } else {
            lemma_entries_bounds(s1, q, count as nat, d);
        }
        lemma_uvar_frame(s1, at1 + 1, s2, at2 + 1, n - 1, 10);
        lemma_same_run_part(s1, at1, s2, at2, n, q - at1, n);
        if tag == 117 {
            lemma_values_frame(s1, q, s2, q - at1 + at2, n - (q - at1), count as nat, d);
        } else {
            lemma_entries_frame(s1, q, s2, q - at1 + at2, n - (q - at1), count as nat, d);
        }
    }
}

proof fn lemma_values_frame(
    s1: Seq<u8>,
    at1: int,
    s2: Seq<u8>,
    at2: int,
    n: int,
    count: nat,
    depth: nat,
)
    requires
        same_run(s1, at1, s2, at2, n),
        values_at(s1, at1, count, depth) matches Some(q) && q <= at1 + n,
    ensures
        values_at(s2, at2, count, depth) == Some(
            values_at(s1, at1, count, depth).unwrap() - at1 + at2,
        ),
    decreases depth, count + 1,
{
    reveal(value_at);
    reveal(values_at);
    reveal(entries_at);
    if count > 0 {
        let q = value_at(s1, at1, depth).unwrap();
        lemma_value_bounds(s1, at1, depth);
        lemma_values_bounds(s1, q, (count - 1) as nat, depth);
        lemma_value_frame(s1, at1, s2, at2, n, depth);
        lemma_same_run_part(s1, at1, s2, at2, n, q - at1, n);
        lemma_values_frame(s1, q, s2, q - at1 + at2, n - (q - at1), (count - 1) as nat, depth);
    }
}

proof fn lemma_entries_frame(
    s1: Seq<u8>,
    at1: int,
    s2: Seq<u8>,
    at2: int,
    n: int,
    count: nat,
    depth: nat,
)
    requires
        same_run(s1, at1, s2, at2, n),
        entries_at(s1, at1, count, depth) matches Some(q) && q <= at1 + n,
    ensures
        entries_at(s2, at2, count, depth) == Some(
            entries_at(s1, at1, count, depth).unwrap() - at1 + at2,
        ),
    decreases depth, count + 1,
{
    reveal(value_at);
    reveal(values_at);
    reveal(entries_at);
    if count > 0 {
        let k = key_at(s1, at1).unwrap();
        let q = value_at(s1, k, depth).unwrap();
        lemma_uvar_at_bounds(s1, at1, 10);
        lemma_value_bounds(s1, k, depth);
        lemma_entries_bounds(s1, q, (count - 1) as nat, depth);
        lemma_key_frame(s1, at1, s2, at2, n);
        lemma_same_run_part(s1, at1, s2, at2, n, k - at1, n);
        lemma_value_frame(s1, k, s2, k - at1 + at2, n - (k - at1), depth);
        lemma_same_run_part(s1, at1, s2, at2, n, q - at1, n);
        lemma_entries_frame(s1, q, s2, q - at1 + at2, n - (q - at1), (count - 1) as nat, depth);
    }
}

/// A value that stands between any two runs of bytes is found there again.
pub proof fn lemma_value_round_trip(a: Seq<u8>, v: Seq<u8>, b: Seq<u8>)
    requires
        valid_value(v),
    ensures
        value_at(a + v + b, a.len() as int, MAX_DEPTH as nat) == Some((a.len() + v.len()) as int),
        (a + v + b).subrange(a.len() as int, (a.len() + v.len()) as int) == v,
{
    let s = a + v + b;
    assert(s.subrange(a.len() as int, (a.len() + v.len()) as int) =~= v);
    assert(v.subrange(0, v.len() as int) =~= v);
    lemma_value_frame(v, 0, s, a.len() as int, v.len() as int, MAX_DEPTH as nat);
}

/// The bytes of a value found in a buffer are a value of their own.
pub proof fn lemma_value_cut(s: Seq<u8>, pos: int, q: int)
    requires
        value_at(s, pos, MAX_DEPTH as nat) == Some(q),
    ensures
        0 <= pos < q <= s.len(),
        valid_value(s.subrange(pos, q)),
{
    lemma_value_bounds(s, pos, MAX_DEPTH as nat);
    let v = s.subrange(pos, q);
    assert(v.subrange(0, v.len() as int) =~= v);
    lemma_value_frame(s, pos, v, 0, q - pos, MAX_DEPTH as nat);
}

fn scan_short_span(buf: &[u8], pos: usize) -> (r: Option<(usize, usize)>)
    ensures
        match r {
            Some((from, to)) => short_span_at(buf@, pos as int) == Some((from as int, to as int))
                && pos < from <= to <= buf.len(),
            None => short_span_at(buf@, pos as int) is None,
        },
{
    match read_u32(buf, pos) {
        Some((n, q)) => if n as usize <= buf.len() - q {
            Some((q, q + n as usize))
        } else {
            None
        },
        None => None,
    }
}

fn scan_key(buf: &[u8], pos: usize) -> (r: Option<usize>)
    ensures
        match r {
            Some(q) => key_at(buf@, pos as int) == Some(q as int) && pos < q <= buf.len(),
            None => key_at(buf@, pos as int) is None,
        },
{
    match scan_short_span(buf, pos) {
        Some((from, to)) => {
            if str_from_utf8(slice_subrange(buf, from, to)).is_some() {
                Some(to)
            } else {
                None
            }
        },
        None => None,
    }
}

/// Finds where the value that starts at `pos` ends.
pub fn scan_value(buf: &[u8], pos: usize, depth: usize) -> (r: Option<usize>)
    ensures
        match r {
            Some(q) => value_at(buf@, pos as int, depth as nat) == Some(q as int) && pos < q
                <= buf.len(),
            None => value_at(buf@, pos as int, depth as nat) is None,
        },
    decreases depth,
{
    proof {
        reveal(value_at);
        reveal(values_at);
        reveal(entries_at);
    }
    if pos >= buf.len() {
        return None;
    }
    let tag: u8 = buf[pos];
    if tag == 127 || tag == 126 || tag == 121 || tag == 120 {
        Some(pos + 1)
    } else if tag == 125 {
        match read_i64(buf, pos + 1) {
            Some(((neg, m), q)) => if m < 0x8000_0000_0000_0000 {
                Some(q)
            } else {
                None
            },
            None => None,
        }
    } else if tag == 124 {
        if buf.len() - pos >= 5 {
            Some(pos + 5)
        } else {
            None
        }
    } else if tag == 123 || tag == 122 {
        if buf.len() - pos >= 9 {
            Some(pos + 9)
        } else {
            None
        }
    } else if tag == 119 {
        scan_key(buf, pos + 1)
    } else if tag == 116 {
        match scan_short_span(buf, pos + 1) {
            Some((from, to)) => Some(to),
            None => None,
        }
    } else if (tag == 117 || tag == 118) && depth > 0 {
        match read_u64(buf, pos + 1) {
            Some((n, start)) => {
                let mut at: usize = start;
                let mut left: u64 = n;
                while left > 0
                    invariant
                        pos < at <= buf.len(),
                        depth > 0,
                        tag == 117 || tag == 118,
                        value_at(buf@, pos as int, depth as nat) == (if tag == 117 {
                            values_at(buf@, start as int, n as nat, (depth - 1) as nat)
                        } else {
                            entries_at(buf@, start as int, n as nat, (depth - 1) as nat)
                        }),
                        tag == 117 ==> values_at(buf@, start as int, n as nat, (depth - 1) as nat)
                            == values_at(buf@, at as int, left as nat, (depth - 1) as nat),
                        tag == 118 ==> entries_at(buf@, start as int, n as nat, (depth - 1) as nat)
                            == entries_at(buf@, at as int, left as nat, (depth - 1) as nat),
                    decreases left,
                {
                    let ghost d = (depth - 1) as nat;
                    assert(values_at(buf@, at as int, left as nat, d) == (match value_at(
                        buf@,
                        at as int,
                        d,
                    ) {
                        Some(q) => values_at(buf@, q, (left - 1) as nat, d),
                        None => None,
                    })) by {
                        reveal(value_at);
                        reveal(values_at);
                        reveal(entries_at);
                    }
                    assert(entries_at(buf@, at as int, left as nat, d) == (match key_at(
                        buf@,
                        at as int,
                    ) {
                        Some(k) => match value_at(buf@, k, d) {
                            Some(q) => entries_at(buf@, q, (left - 1) as nat, d),
                            None => None,
                        },
                        None => None,
                    })) by {
                        reveal(value_at);
                        reveal(values_at);
                        reveal(entries_at);
                    }
                    let from: usize = if tag == 118 {
                        match scan_key(buf, at) {
                            Some(k) => k,
                            None => {
                                return None;
                            },
                        }
                    } else {
                        at
                    };
                    match scan_value(buf, from, depth - 1) {
                        Some(q) => {
                            at = q;
                        },
                        None => {
                            return None;
                        },
                    }
                    left = left - 1;
                }
                assert(values_at(buf@, at as int, 0, (depth - 1) as nat) == Some(at as int)) by {
                    reveal(value_at);
                    reveal(values_at);
                    reveal(entries_at);
                }
                assert(entries_at(buf@, at as int, 0, (depth - 1) as nat) == Some(at as int)) by {
                    reveal(value_at);
                    reveal(values_at);
                    reveal(entries_at);
                }
                Some(at)
            },
            None => None,
        }
    } else {
        None
    }
}

/// What `lib0` answers when it decodes both runs of bytes as values and
/// compares the two with `==`.
pub uninterp spec fn values_equal(a: Seq<u8>, b: Seq<u8>) -> bool;

/// `lib0::any::Any::decode` on each of the two runs, read through a
/// `lib0::decoding::Cursor`, and `==` on what came out. Both runs hold
/// exactly one value each, with bounded nesting, lengths that stay inside
/// the run and strings that are UTF-8, so that the decoder neither runs
/// out of its buffer nor reserves more than the run is long.
#[verifier::external_body]
fn decoded_eq(a: &[u8], b: &[u8]) -> (r: bool)
    requires
        valid_value(a@),
        valid_value(b@),
    ensures
        r == values_equal(a@, b@),
{
    let x = lib0::any::Any::decode(&mut lib0::decoding::Cursor::new(a));
    let y = lib0::any::Any::decode(&mut lib0::decoding::Cursor::new(b));
    match (x, y) {
        (Ok(x), Ok(y)) => x == y,
        _ => false,
    }
}

/// One scalar value, in its binary form.
#[derive(Debug, PartialEq, Eq, Hash)]
pub struct Value {
    pub bytes: Vec<u8>,
}

impl View for Value {
    type V = Seq<u8>;

    open spec fn view(&self) -> Seq<u8> {
        self.bytes@
    }
}

impl Value {
    /// The bytes are one value, no more and no less.
    pub open spec fn wf(&self) -> bool {
        valid_value(self.bytes@)
    }

    /// The value that `bytes` hold, where they hold exactly one.
    pub fn from_bytes(bytes: Vec<u8>) -> (r: Option<Value>)
        ensures
            r is Some <==> valid_value(bytes@),
            r matches Some(v) ==> v@ == bytes@ && v.wf(),
    {
        match scan_value(bytes.as_slice(), 0, MAX_DEPTH) {
            Some(q) => if q == bytes.len() {
                Some(Value { bytes })
            } else {
                None
            },
            None => None,
        }
    }

    /// Whether the bytes are one value.
    pub fn check(&self) -> (r: bool)
        ensures
            r == self.wf(),
    {
        match scan_value(self.bytes.as_slice(), 0, MAX_DEPTH) {
            Some(q) => q == self.bytes.len(),
            None => false,
        }
    }

    /// The binary form.
    pub fn as_bytes(&self) -> (r: &[u8])
        ensures
            r@ == self@,
    {
        self.bytes.as_slice()
    }

    /// A copy of the value.
    pub fn duplicate(&self) -> (r: Value)
        ensures
            r@ == self@,
    {
        Value { bytes: self.bytes.clone() }
    }

    /// Whether `lib0` holds the two values to be equal.
    pub fn same(&self, other: &Value) -> (r: bool)
        requires
            self.wf(),
            other.wf(),
        ensures
            r == values_equal(self@, other@),
    {
        decoded_eq(self.bytes.as_slice(), other.bytes.as_slice())
    }
}

} // verus!
