//! Variable-length integers of the update formats.
//!
//! An unsigned number is written in base 128, least significant digit first;
//! every byte but the last has its high bit set. A signed number keeps six
//! bits of its magnitude in the first byte, beside a sign bit and the
//! continuation bit, and the rest of the magnitude as an unsigned number.

use vstd::prelude::*;

verus! {

/// `128` to the power `n`.
pub open spec fn pow128(n: nat) -> nat
    decreases n,
{
    if n == 0 {
        1
    } else {
        128 * pow128((n - 1) as nat)
    }
}

/// The bytes that stand for the unsigned number `v`.
#[verifier::opaque]
pub open spec fn uvar_bytes(v: nat) -> Seq<u8>
    decreases v,
{
    if v < 128 {
        seq![v as u8]
    } else {
        seq![(128 + v % 128) as u8] + uvar_bytes(v / 128)
    }
}

/// The unsigned number that starts at `pos` in `s`, read from at most `limit`
/// bytes, together with the position behind it.
#[verifier::opaque]
pub open spec fn uvar_at(s: Seq<u8>, pos: int, limit: nat) -> Option<(nat, int)>
    decreases limit,
{
    if limit == 0 || pos < 0 || pos >= s.len() {
        None
    } else if s[pos] < 128 {
        Some((s[pos] as nat, pos + 1))
    } else {
        match uvar_at(s, pos + 1, (limit - 1) as nat) {
            Some((v, q)) => Some(((s[pos] - 128) as nat + 128 * v, q)),
            None => None,
        }
    }
}

/// An unsigned number of at most ten bytes that fits 64 bits.
pub open spec fn u64_at(s: Seq<u8>, pos: int) -> Option<(u64, int)> {
    match uvar_at(s, pos, 10) {
        Some((v, q)) => if v <= u64::MAX {
            Some((v as u64, q))
        } else {
            None
        },
        None => None,
    }
}

/// An unsigned number of at most ten bytes that fits 32 bits.
pub open spec fn u32_at(s: Seq<u8>, pos: int) -> Option<(u32, int)> {
    match uvar_at(s, pos, 10) {
        Some((v, q)) => if v <= u32::MAX {
            Some((v as u32, q))
        } else {
            None
        },
        None => None,
    }
}

/// The bytes that stand for the signed number with magnitude `m`, negative
/// where `neg` is set. Zero has both signs.
pub open spec fn ivar_bytes(neg: bool, m: nat) -> Seq<u8> {
    let sign: nat = if neg { 64 } else { 0 };
    if m < 64 {
        seq![(sign + m) as u8]
    } else {
        seq![(128 + sign + m % 64) as u8] + uvar_bytes(m / 64)
    }
}

/// The signed number that starts at `pos` in `s`, as sign and magnitude, read
/// from at most ten bytes, with the position behind it.
pub open spec fn ivar_at(s: Seq<u8>, pos: int) -> Option<((bool, nat), int)> {
    if pos < 0 || pos >= s.len() {
        None
    } else {
        let b = s[pos];
        let neg = (b / 64) % 2 == 1;
        let low = (b % 64) as nat;
        if b < 128 {
            Some(((neg, low), pos + 1))
        } else {
            match uvar_at(s, pos + 1, 9) {
                Some((v, q)) => Some(((neg, low + 64 * v), q)),
                None => None,
            }
        }
    }
}

/// A signed number whose magnitude fits 64 bits.
pub open spec fn i64_at(s: Seq<u8>, pos: int) -> Option<((bool, u64), int)> {
    match ivar_at(s, pos) {
        Some(((neg, m), q)) => if m <= u64::MAX {
            Some(((neg, m as u64), q))
        } else {
            None
        },
        None => None,
    }
}

/// A length-prefixed run of bytes: its first and last position in `s`.
pub open spec fn span_at(s: Seq<u8>, pos: int) -> Option<(int, int)> {
    match u64_at(s, pos) {
        Some((n, q)) => if q + n <= s.len() {
            Some((q, q + n))
        } else {
            None
        },
        None => None,
    }
}

/// The bytes that stand for the run `b` with its length in front.
pub open spec fn span_bytes(b: Seq<u8>) -> Seq<u8> {
    uvar_bytes(b.len()) + b
}

pub proof fn lemma_pow128(n: nat)
    requires
        n <= 10,
    ensures
        pow128(n) <= 0x40_0000_0000_0000_0000,
        n <= 9 ==> pow128(n) <= 0x8000_0000_0000_0000,
{
    reveal_with_fuel(pow128, 11);
}

/// A successful read ends inside the buffer, behind where it began, and its
/// number is below `128` to the power `limit`.
pub proof fn lemma_uvar_at_bounds(s: Seq<u8>, pos: int, limit: nat)
    ensures
        uvar_at(s, pos, limit) matches Some((v, q)) ==> pos < q <= s.len() && q <= pos + limit && v
            < pow128(limit),
    decreases limit,
{
    reveal(uvar_at);
    if limit == 0 || pos < 0 || pos >= s.len() {
    } else if s[pos] < 128 {
        lemma_pow128_pos((limit - 1) as nat);
    } else {
        lemma_uvar_at_bounds(s, pos + 1, (limit - 1) as nat);
    }
}

pub proof fn lemma_pow128_pos(n: nat)
    ensures
        pow128(n) >= 1,
    decreases n,
{
    if n > 0 {
        lemma_pow128_pos((n - 1) as nat);
    }
}

/// A number below `128` to the power `k` takes at most `k` bytes, and at
/// least one.
pub proof fn lemma_uvar_bytes_len(v: nat, k: nat)
    requires
        k >= 1,
        v < pow128(k),
    ensures
        1 <= uvar_bytes(v).len() <= k,
    decreases k,
{
    reveal(uvar_bytes);
    reveal_with_fuel(pow128, 2);
    if v < 128 {
    } else {
        assert(v / 128 < pow128((k - 1) as nat));
        lemma_uvar_bytes_len(v / 128, (k - 1) as nat);
    }
}

pub proof fn lemma_u64_bytes_len(v: u64)
    ensures
        1 <= uvar_bytes(v as nat).len() <= 10,
{
    lemma_pow128(10);
    reveal_with_fuel(pow128, 11);
    lemma_uvar_bytes_len(v as nat, 10);
}

/// Reading what was written gives the number back, whatever stands before
/// and behind it.
pub proof fn lemma_uvar_round_trip(a: Seq<u8>, v: nat, b: Seq<u8>, limit: nat)
    requires
        uvar_bytes(v).len() <= limit,
    ensures
        uvar_at(a + uvar_bytes(v) + b, a.len() as int, limit) == Some(
            (v, (a.len() + uvar_bytes(v).len()) as int),
        ),
    decreases limit,
{
    reveal(uvar_at);
    reveal(uvar_bytes);
    let s = a + uvar_bytes(v) + b;
    let p = a.len() as int;
    assert(s[p] == uvar_bytes(v)[0]);
    if v < 128 {
    } else {
        let head = seq![(128 + v % 128) as u8];
        let a2 = a + head;
        assert(s =~= a2 + uvar_bytes(v / 128) + b);
        lemma_uvar_round_trip(a2, v / 128, b, (limit - 1) as nat);
    }
}

pub proof fn lemma_u64_round_trip(a: Seq<u8>, v: u64, b: Seq<u8>)
    ensures
        u64_at(a + uvar_bytes(v as nat) + b, a.len() as int) == Some(
            (v, (a.len() + uvar_bytes(v as nat).len()) as int),
        ),
{
    lemma_u64_bytes_len(v);
    lemma_uvar_round_trip(a, v as nat, b, 10);
}

pub proof fn lemma_u32_round_trip(a: Seq<u8>, v: u32, b: Seq<u8>)
    ensures
        u32_at(a + uvar_bytes(v as nat) + b, a.len() as int) == Some(
            (v, (a.len() + uvar_bytes(v as nat).len()) as int),
        ),
{
    lemma_u64_bytes_len(v as u64);
    lemma_uvar_round_trip(a, v as nat, b, 10);
}

pub proof fn lemma_i64_round_trip(a: Seq<u8>, neg: bool, m: u64, b: Seq<u8>)
    ensures
        i64_at(a + ivar_bytes(neg, m as nat) + b, a.len() as int) == Some(
            ((neg, m), (a.len() + ivar_bytes(neg, m as nat).len()) as int),
        ),
{
    reveal(uvar_bytes);
    let s = a + ivar_bytes(neg, m as nat) + b;
    let p = a.len() as int;
    let sign: nat = if neg { 64 } else { 0 };
    assert(s[p] == ivar_bytes(neg, m as nat)[0]);
    if m < 64 {
    } else {
        let head = seq![(128 + sign + m % 64) as u8];
        let a2 = a + head;
        let rest = (m / 64) as nat;
        assert(s =~= a2 + uvar_bytes(rest) + b);
        lemma_pow128(9);
        reveal_with_fuel(pow128, 10);
        lemma_uvar_bytes_len(rest, 9);
        lemma_uvar_round_trip(a2, rest, b, 9);
    }
}

pub proof fn lemma_span_round_trip(a: Seq<u8>, x: Seq<u8>, b: Seq<u8>)
    requires
        x.len() <= u64::MAX,
    ensures
        span_at(a + span_bytes(x) + b, a.len() as int) == Some(
            (
                (a.len() + uvar_bytes(x.len()).len()) as int,
                (a.len() + span_bytes(x).len()) as int,
            ),
        ),
        (a + span_bytes(x) + b).subrange(
            (a.len() + uvar_bytes(x.len()).len()) as int,
            (a.len() + span_bytes(x).len()) as int,
        ) == x,
{
    let s = a + span_bytes(x) + b;
    assert(s =~= a + uvar_bytes(x.len()) + (x + b));
    lemma_u64_round_trip(a, x.len() as u64, x + b);
    assert(s.subrange(
        (a.len() + uvar_bytes(x.len()).len()) as int,
        (a.len() + span_bytes(x).len()) as int,
    ) =~= x);
}

/// Reads an unsigned number of at most `limit` bytes.
fn read_uvar(buf: &[u8], pos: usize, limit: u8) -> (r: Option<(u128, usize)>)
    requires
        limit <= 10,
    ensures
        match r {
            Some((v, q)) => uvar_at(buf@, pos as int, limit as nat) == Some((v as nat, q as int)),
            None => uvar_at(buf@, pos as int, limit as nat) is None,
        },
    decreases limit,
{
    proof {
        reveal(uvar_at);
    }
    if limit == 0 || pos >= buf.len() {
        return None;
    }
    let b: u8 = buf[pos];
    if b < 128 {
        return Some((b as u128, pos + 1));
    }
    match read_uvar(buf, pos + 1, limit - 1) {
        Some((v, q)) => {
            proof {
                lemma_uvar_at_bounds(buf@, pos + 1, (limit - 1) as nat);
                lemma_pow128((limit - 1) as nat);
            }
            Some(((b - 128) as u128 + 128 * v, q))
        },
        None => None,
    }
}

/// Reads an unsigned number that fits 64 bits.
pub fn read_u64(buf: &[u8], pos: usize) -> (r: Option<(u64, usize)>)
    ensures
        match r {
            Some((v, q)) => u64_at(buf@, pos as int) == Some((v, q as int)) && pos < q
                <= buf.len(),
            None => u64_at(buf@, pos as int) is None,
        },
{
    proof {
        lemma_uvar_at_bounds(buf@, pos as int, 10);
    }
    match read_uvar(buf, pos, 10) {
        Some((v, q)) => if v <= u64::MAX as u128 {
            Some((v as u64, q))
        } else {
            None
        },
        None => None,
    }
}

/// Reads an unsigned number that fits 32 bits.
pub fn read_u32(buf: &[u8], pos: usize) -> (r: Option<(u32, usize)>)
    ensures
        match r {
            Some((v, q)) => u32_at(buf@, pos as int) == Some((v, q as int)) && pos < q
                <= buf.len(),
            None => u32_at(buf@, pos as int) is None,
        },
{
    proof {
        lemma_uvar_at_bounds(buf@, pos as int, 10);
    }
    match read_uvar(buf, pos, 10) {
        Some((v, q)) => if v <= u32::MAX as u128 {
            Some((v as u32, q))
        } else {
            None
        },
        None => None,
    }
}

/// Reads a signed number, as sign and magnitude.
pub fn read_i64(buf: &[u8], pos: usize) -> (r: Option<((bool, u64), usize)>)
    ensures
        match r {
            Some((v, q)) => i64_at(buf@, pos as int) == Some((v, q as int)) && pos < q
                <= buf.len(),
            None => i64_at(buf@, pos as int) is None,
        },
{
    if pos >= buf.len() {
        return None;
    }
    let b: u8 = buf[pos];
    let neg: bool = (b / 64) % 2 == 1;
    let low: u8 = b % 64;
    if b < 128 {
        return Some(((neg, low as u64), pos + 1));
    }
    proof {
        lemma_uvar_at_bounds(buf@, pos + 1, 9);
        lemma_pow128(9);
    }
    match read_uvar(buf, pos + 1, 9) {
        Some((v, q)) => {
            let m: u128 = low as u128 + 64 * v;
            if m <= u64::MAX as u128 {
                Some(((neg, m as u64), q))
            } else {
                None
            }
        },
        None => None,
    }
}

/// Reads the length in front of a run of bytes and finds where the run ends.
pub fn read_span(buf: &[u8], pos: usize) -> (r: Option<(usize, usize)>)
    ensures
        match r {
            Some((from, to)) => span_at(buf@, pos as int) == Some((from as int, to as int)) && pos
                < from <= to <= buf.len(),
            None => span_at(buf@, pos as int) is None,
        },
{
    match read_u64(buf, pos) {
        Some((n, q)) => if n <= (buf.len() - q) as u64 {
            Some((q, q + n as usize))
        } else {
            None
        },
        None => None,
    }
}

/// Appends the unsigned number `v`.
pub fn write_uvar(out: &mut Vec<u8>, v: u64)
    ensures
        final(out)@ == old(out)@ + uvar_bytes(v as nat),
{
    let mut rest: u64 = v;
    while rest >= 128
        invariant
            old(out)@ + uvar_bytes(v as nat) == out@ + uvar_bytes(rest as nat),
        decreases rest,
    {
        let ghost before = out@;
        proof {
            reveal(uvar_bytes);
        }
        out.push(128 + (rest % 128) as u8);
        assert(out@ + uvar_bytes((rest / 128) as nat) =~= before + uvar_bytes(rest as nat));
        rest = rest / 128;
    }
    let ghost before = out@;
    out.push(rest as u8);
    proof {
        reveal(uvar_bytes);
    }
    assert(out@ =~= before + uvar_bytes(rest as nat));
}

/// Appends the signed number with magnitude `m`.
pub fn write_ivar(out: &mut Vec<u8>, neg: bool, m: u64)
    ensures
        final(out)@ == old(out)@ + ivar_bytes(neg, m as nat),
{
    let sign: u8 = if neg { 64 } else { 0 };
    let ghost before = out@;
    if m < 64 {
        out.push(sign + m as u8);
        assert(out@ =~= before + ivar_bytes(neg, m as nat));
    } else {
        out.push(128 + sign + (m % 64) as u8);
        write_uvar(out, m / 64);
        assert(out@ =~= before + ivar_bytes(neg, m as nat));
    }
}

/// Appends the bytes of `run`.
pub fn write_bytes(out: &mut Vec<u8>, run: &[u8])
    ensures
        final(out)@ == old(out)@ + run@,
{
    out.extend_from_slice(run);
}

/// Appends `run` with its length in front.
pub fn write_span(out: &mut Vec<u8>, run: &[u8])
    ensures
        final(out)@ == old(out)@ + span_bytes(run@),
{
    let ghost before = out@;
    write_uvar(out, run.len() as u64);
    out.extend_from_slice(run);
    assert(out@ =~= before + span_bytes(run@));
}

} // verus!
