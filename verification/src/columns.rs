//! The columns of the second binary format.
//!
//! The second format writes values of one kind into one column, and
//! shortens a column by writing a run of values once. A column of numbers
//! writes a value that stands alone as a positive signed number, and a run
//! of a value as the negative of the value and the length of the run less
//! two. A column of clocks writes the difference to the value before
//! instead of the value, doubled, with the low bit set where a count
//! follows. A column of bytes writes the byte and the length of the run
//! less one, and leaves out the length of the last run.

use crate::varint::{
    i64_at, ivar_bytes, lemma_i64_round_trip, lemma_u64_round_trip, lemma_uvar_at_bounds, read_i64,
    read_u64, u64_at, uvar_at, uvar_bytes, write_ivar, write_uvar,
};
use crate::text::{
    lemma_string_round_trip, read_string, string_at, string_bytes, writable, write_string,
};
use vstd::prelude::*;
use vstd::string::{StrSliceExecFns, StringExecFns};

verus! {

/// The value `v`, `n` times.
pub open spec fn repeat<T>(v: T, n: nat) -> Seq<T> {
    Seq::new(n, |i: int| v)
}

/// How many times the first value of `vs` stands at its start.
pub open spec fn run_len<T>(vs: Seq<T>) -> nat
    decreases vs.len(),
{
    if vs.len() <= 1 {
        vs.len()
    } else if vs[1] == vs[0] {
        1 + run_len(vs.drop_first())
    } else {
        1
    }
}

/// The first `run_len` values are the first value, and the next one is
/// another.
pub proof fn lemma_run_len<T>(vs: Seq<T>)
    requires
        vs.len() > 0,
    ensures
        1 <= run_len(vs) <= vs.len(),
        forall|i: int| 0 <= i < run_len(vs) ==> #[trigger] vs[i] == vs[0],
        run_len(vs) < vs.len() ==> vs[run_len(vs) as int] != vs[0],
        vs.subrange(0, run_len(vs) as int) == repeat(vs[0], run_len(vs)),
    decreases vs.len(),
{
    if vs.len() <= 1 {
    } else if vs[1] == vs[0] {
        let w = vs.drop_first();
        lemma_run_len(w);
        assert forall|i: int| 0 <= i < run_len(vs) implies #[trigger] vs[i] == vs[0] by {
            if i > 0 {
                assert(w[i - 1] == w[0]);
            }
        }
        if run_len(vs) < vs.len() {
            assert(w[run_len(w) as int] != w[0]);
        }
    } else {
    }
    assert(vs.subrange(0, run_len(vs) as int) =~= repeat(vs[0], run_len(vs)));
}

/// One run of a column of numbers.
pub open spec fn uint_run_bytes(v: u64, n: nat) -> Seq<u8> {
    if n == 1 {
        ivar_bytes(false, v as nat)
    } else {
        ivar_bytes(true, v as nat) + uvar_bytes((n - 2) as nat)
    }
}

/// The bytes of a column of numbers.
#[verifier::opaque]
pub open spec fn uint_col_bytes(vs: Seq<u64>) -> Seq<u8>
    decreases vs.len(),
{
    if vs.len() == 0 {
        Seq::empty()
    } else {
        let n = run_len(vs);
        if 1 <= n <= vs.len() {
            uint_run_bytes(vs[0], n) + uint_col_bytes(vs.skip(n as int))
        } else {
            Seq::empty()
        }
    }
}

/// The head of a run of a column of numbers: the value, the length of the
/// run, and the position behind the head.
pub open spec fn uint_run_at(s: Seq<u8>, pos: int) -> Option<(u64, u64, int)> {
    match i64_at(s, pos) {
        Some(((neg, v), q)) => if !neg {
            Some((v, 1u64, q))
        } else {
            match u64_at(s, q) {
                Some((c, q2)) => if c + 2 <= u64::MAX {
                    Some((v, (c + 2) as u64, q2))
                } else {
                    None
                },
                None => None,
            }
        },
        None => None,
    }
}

/// The numbers that a column still holds for a reader that stands at
/// `pos` and has `left` more of the value `value` to give.
#[verifier::opaque]
pub open spec fn uint_stream(s: Seq<u8>, pos: int, value: u64, left: nat) -> Seq<u64>
    decreases s.len() - pos, left,
{
    if left > 0 {
        seq![value] + uint_stream(s, pos, value, (left - 1) as nat)
    } else {
        match uint_run_at(s, pos) {
            Some((v, n, q)) => if pos < q <= s.len() {
                uint_stream(s, q, v, n as nat)
            } else {
                Seq::empty()
            },
            None => Seq::empty(),
        }
    }
}

/// The numbers of a column.
pub open spec fn uint_col(s: Seq<u8>) -> Seq<u64> {
    uint_stream(s, 0, 0, 0)
}

/// A reader of a column of numbers.
pub struct UintCursor {
    pub pos: usize,
    pub value: u64,
    pub left: u64,
}

impl UintCursor {
    /// A reader at the start of a column.
    pub fn new() -> (r: UintCursor)
        ensures
            r.pos == 0 && r.left == 0 && r.value == 0,
    {
        UintCursor { pos: 0, value: 0, left: 0 }
    }

    /// The numbers that the reader still has to give.
    pub open spec fn rest(&self, col: Seq<u8>) -> Seq<u64> {
        uint_stream(col, self.pos as int, self.value, self.left as nat)
    }

    /// The next number of the column.
    pub fn next(&mut self, col: &[u8]) -> (r: Option<u64>)
        ensures
            match r {
                Some(v) => old(self).rest(col@).len() > 0 && v == old(self).rest(col@)[0]
                    && final(self).rest(col@) == old(self).rest(col@).drop_first(),
                None => old(self).rest(col@).len() == 0 && *final(self) == *old(self),
            },
    {
        let ghost s = col@;
        proof {
            reveal(uint_stream);
        }
        if self.left == 0 {
            let ((neg, v), q) = match read_i64(col, self.pos) {
                Some(x) => x,
                None => {
                    return None;
                },
            };
            let mut n: u64 = 1;
            let mut q2: usize = q;
            if neg {
                match read_u64(col, q) {
                    Some((c, p)) => {
                        if c > u64::MAX - 2 {
                            return None;
                        }
                        n = c + 2;
                        q2 = p;
                    },
                    None => {
                        return None;
                    },
                }
            }
            assert(uint_run_at(s, self.pos as int) == Some((v, n, q2 as int)));
            self.pos = q2;
            self.value = v;
            self.left = n;
        }
        let ghost before = self.rest(s);
        self.left = self.left - 1;
        assert(before =~= seq![self.value] + self.rest(s));
        assert(before.drop_first() =~= self.rest(s));
        Some(self.value)
    }
}

/// A run of `n` of the value `v`, read back, gives the run and then what
/// stands behind it.
pub proof fn lemma_uint_stream_run(s: Seq<u8>, pos: int, v: u64, n: nat)
    ensures
        uint_stream(s, pos, v, n) == repeat(v, n) + uint_stream(s, pos, v, 0),
    decreases n,
{
    reveal(uint_stream);
    if n > 0 {
        lemma_uint_stream_run(s, pos, v, (n - 1) as nat);
        assert(seq![v] + (repeat(v, (n - 1) as nat) + uint_stream(s, pos, v, 0)) =~= repeat(v, n)
            + uint_stream(s, pos, v, 0));
    } else {
        assert(repeat(v, 0) + uint_stream(s, pos, v, 0) =~= uint_stream(s, pos, v, 0));
    }
}

/// A reader that has nothing left of its value gives what the column
/// holds from its position on, whatever the value was.
pub proof fn lemma_uint_stream_fresh(s: Seq<u8>, pos: int, v: u64, w: u64)
    ensures
        uint_stream(s, pos, v, 0) == uint_stream(s, pos, w, 0),
{
    reveal(uint_stream);
}

/// The numbers written into a column are the numbers that the column
/// holds.
pub proof fn lemma_uint_col_round_trip(a: Seq<u8>, vs: Seq<u64>)
    requires
        vs.len() <= u64::MAX,
    ensures
        uint_stream(a + uint_col_bytes(vs), a.len() as int, 0, 0) == vs,
    decreases vs.len(),
{
    let s = a + uint_col_bytes(vs);
    reveal(uint_col_bytes);
    if vs.len() == 0 {
        assert(s =~= a);
        assert(uint_stream(s, a.len() as int, 0, 0) =~= Seq::<u64>::empty()) by {
            reveal(uint_stream);
        }
    } else {
        let n = run_len(vs);
        lemma_run_len(vs);
        let v = vs[0];
        let x = uint_run_bytes(v, n);
        let rest = vs.skip(n as int);
        let y = uint_col_bytes(rest);
        let e = Seq::<u8>::empty();
        assert(s =~= a + x + y);
        assert(uint_run_at(s, a.len() as int) == Some((v, n as u64, (a.len() + x.len()) as int)))
            by {
            if n == 1 {
                lemma_i64_round_trip(a, false, v, y);
            } else {
                let x1 = ivar_bytes(true, v as nat);
                let x2 = uvar_bytes((n - 2) as nat);
                assert(s =~= a + x1 + (x2 + y));
                lemma_i64_round_trip(a, true, v, x2 + y);
                assert(s =~= (a + x1) + x2 + y);
                lemma_u64_round_trip(a + x1, (n - 2) as u64, y);
            }
        }
        assert(x.len() > 0) by {
            if n == 1 {
                lemma_i64_round_trip(e, false, v, e);
                lemma_uvar_at_bounds(e + x + e, 1, 9);
            } else {
                lemma_i64_round_trip(e, true, v, e);
            }
        }
        let q = (a.len() + x.len()) as int;
        assert(uint_stream(s, a.len() as int, 0, 0) == uint_stream(s, q, v, n)) by {
            reveal(uint_stream);
        }
        lemma_uint_stream_run(s, q, v, n);
        lemma_uint_stream_fresh(s, q, v, 0);
        lemma_uint_col_round_trip(a + x, rest);
        assert(repeat(v, n) + rest =~= vs);
    }
}

/// Writes a column of numbers.
pub fn write_uint_col(vs: &Vec<u64>) -> (r: Vec<u8>)
    ensures
        r@ == uint_col_bytes(vs@),
{
    let mut out: Vec<u8> = Vec::new();
    let ghost all = vs@;
    let mut i: usize = 0;
    assert(all.skip(0) =~= all);
    assert(Seq::<u8>::empty() + uint_col_bytes(all) =~= uint_col_bytes(all));
    while i < vs.len()
        invariant
            i <= vs.len(),
            all == vs@,
            uint_col_bytes(all) == out@ + uint_col_bytes(all.skip(i as int)),
        decreases vs.len() - i,
    {
        let v: u64 = vs[i];
        let ghost rest = all.skip(i as int);
        let mut j: usize = i + 1;
        proof {
            lemma_run_len(rest);
        }
        while j < vs.len() && vs[j] == v
            invariant
                i < j <= vs.len(),
                all == vs@,
                rest == all.skip(i as int),
                v == all[i as int],
                j - i <= run_len(rest),
                forall|k: int| i <= k < j ==> #[trigger] all[k] == v,
            decreases vs.len() - j,
        {
            proof {
                lemma_run_len(rest);
                if run_len(rest) == j - i {
                    assert(rest[(j - i) as int] == all[j as int]);
                }
            }
            j = j + 1;
        }
        let n: usize = j - i;
        proof {
            lemma_run_len(rest);
            if run_len(rest) > n {
                assert(rest[n as int] == rest[0]);
                assert(rest[n as int] == all[j as int]);
            }
            assert(run_len(rest) == n);
            assert(uint_col_bytes(rest) == uint_run_bytes(rest[0], n as nat) + uint_col_bytes(
                rest.skip(n as int),
            )) by {
                reveal(uint_col_bytes);
            }
            assert(rest.skip(n as int) =~= all.skip(j as int));
        }
        let ghost cur = out@;
        if n == 1 {
            write_ivar(&mut out, false, v);
        } else {
            write_ivar(&mut out, true, v);
            write_uvar(&mut out, (n - 2) as u64);
        }
        assert(out@ =~= cur + uint_run_bytes(v, n as nat));
        assert(out@ + uint_col_bytes(all.skip(j as int)) =~= cur + uint_col_bytes(rest));
        i = j;
    }
    proof {
        assert(uint_col_bytes(all.skip(i as int)) =~= Seq::<u8>::empty()) by {
            reveal(uint_col_bytes);
        }
        assert(out@ + Seq::<u8>::empty() =~= out@);
    }
    out
}

/// One run of a column of bytes: the byte, and the length of the run less
/// one where the run is not the last.
pub open spec fn rle_run_bytes(v: u8, n: nat, last: bool) -> Seq<u8> {
    if last {
        seq![v]
    } else {
        seq![v] + uvar_bytes((n - 1) as nat)
    }
}

/// The bytes of a column of bytes.
#[verifier::opaque]
pub open spec fn rle_col_bytes(vs: Seq<u8>) -> Seq<u8>
    decreases vs.len(),
{
    if vs.len() == 0 {
        Seq::empty()
    } else {
        let n = run_len(vs);
        if 1 <= n <= vs.len() {
            rle_run_bytes(vs[0], n, n == vs.len()) + rle_col_bytes(vs.skip(n as int))
        } else {
            Seq::empty()
        }
    }
}

/// The head of a run of a column of bytes. The last byte of the column
/// is a run without end, which is as long as a reader can count.
pub open spec fn rle_run_at(s: Seq<u8>, pos: int) -> Option<(u8, u64, int)> {
    if pos < 0 || pos >= s.len() {
        None
    } else if pos + 1 == s.len() {
        Some((s[pos], u64::MAX, pos + 1))
    } else {
        match u64_at(s, pos + 1) {
            Some((c, q)) => if c + 1 <= u64::MAX {
                Some((s[pos], (c + 1) as u64, q))
            } else {
                None
            },
            None => None,
        }
    }
}

/// The bytes that a column still holds for a reader that stands at `pos`
/// and has `left` more of the byte `value` to give.
#[verifier::opaque]
pub open spec fn rle_stream(s: Seq<u8>, pos: int, value: u8, left: nat) -> Seq<u8>
    decreases s.len() - pos, left,
{
    if left > 0 {
        seq![value] + rle_stream(s, pos, value, (left - 1) as nat)
    } else {
        match rle_run_at(s, pos) {
            Some((v, n, q)) => if pos < q <= s.len() {
                rle_stream(s, q, v, n as nat)
            } else {
                Seq::empty()
            },
            None => Seq::empty(),
        }
    }
}

/// The bytes of a column.
pub open spec fn rle_col(s: Seq<u8>) -> Seq<u8> {
    rle_stream(s, 0, 0, 0)
}

/// A reader of a column of bytes.
pub struct RleCursor {
    pub pos: usize,
    pub value: u8,
    pub left: u64,
}

impl RleCursor {
    /// A reader at the start of a column.
    pub fn new() -> (r: RleCursor)
        ensures
            r.pos == 0 && r.left == 0 && r.value == 0,
    {
        RleCursor { pos: 0, value: 0, left: 0 }
    }

    /// The bytes that the reader still has to give.
    pub open spec fn rest(&self, col: Seq<u8>) -> Seq<u8> {
        rle_stream(col, self.pos as int, self.value, self.left as nat)
    }

    /// The next byte of the column.
    pub fn next(&mut self, col: &[u8]) -> (r: Option<u8>)
        ensures
            match r {
                Some(v) => old(self).rest(col@).len() > 0 && v == old(self).rest(col@)[0]
                    && final(self).rest(col@) == old(self).rest(col@).drop_first(),
                None => old(self).rest(col@).len() == 0 && *final(self) == *old(self),
            },
    {
        let ghost s = col@;
        proof {
            reveal(rle_stream);
        }
        if self.left == 0 {
            if self.pos >= col.len() {
                return None;
            }
            let v: u8 = col[self.pos];
            let mut n: u64 = u64::MAX;
            let mut q: usize = self.pos + 1;
            if q < col.len() {
                match read_u64(col, q) {
                    Some((c, p)) => {
                        if c > u64::MAX - 1 {
                            return None;
                        }
                        n = c + 1;
                        q = p;
                    },
                    None => {
                        return None;
                    },
                }
            }
            assert(rle_run_at(s, self.pos as int) == Some((v, n, q as int)));
            self.pos = q;
            self.value = v;
            self.left = n;
        }
        let ghost before = self.rest(s);
        self.left = self.left - 1;
        assert(before =~= seq![self.value] + self.rest(s));
        assert(before.drop_first() =~= self.rest(s));
        Some(self.value)
    }
}

pub proof fn lemma_rle_stream_run(s: Seq<u8>, pos: int, v: u8, n: nat)
    ensures
        rle_stream(s, pos, v, n) == repeat(v, n) + rle_stream(s, pos, v, 0),
    decreases n,
{
    reveal(rle_stream);
    if n > 0 {
        lemma_rle_stream_run(s, pos, v, (n - 1) as nat);
        assert(seq![v] + (repeat(v, (n - 1) as nat) + rle_stream(s, pos, v, 0)) =~= repeat(v, n)
            + rle_stream(s, pos, v, 0));
    } else {
        assert(repeat(v, 0) + rle_stream(s, pos, v, 0) =~= rle_stream(s, pos, v, 0));
    }
}

pub proof fn lemma_rle_stream_fresh(s: Seq<u8>, pos: int, v: u8, w: u8)
    ensures
        rle_stream(s, pos, v, 0) == rle_stream(s, pos, w, 0),
{
    reveal(rle_stream);
}

/// The bytes written into a column are the first bytes that the column
/// holds.
pub proof fn lemma_rle_col_round_trip(a: Seq<u8>, vs: Seq<u8>)
    requires
        vs.len() <= u64::MAX,
    ensures
        rle_stream(a + rle_col_bytes(vs), a.len() as int, 0, 0).len() >= vs.len(),
        rle_stream(a + rle_col_bytes(vs), a.len() as int, 0, 0).subrange(0, vs.len() as int) == vs,
    decreases vs.len(),
{
    let s = a + rle_col_bytes(vs);
    let st = rle_stream(s, a.len() as int, 0, 0);
    reveal(rle_col_bytes);
    if vs.len() == 0 {
        assert(st.subrange(0, 0) =~= vs);
    } else {
        let n = run_len(vs);
        lemma_run_len(vs);
        let v = vs[0];
        let last = n == vs.len();
        let x = rle_run_bytes(v, n, last);
        let rest = vs.skip(n as int);
        let y = rle_col_bytes(rest);
        assert(s =~= a + x + y);
        assert(s[a.len() as int] == v);
        let q = (a.len() + x.len()) as int;
        if last {
            assert(rest.len() == 0);
            assert(y =~= Seq::<u8>::empty());
            assert(rle_run_at(s, a.len() as int) == Some((v, u64::MAX, q)));
            assert(st == rle_stream(s, q, v, u64::MAX as nat)) by {
                reveal(rle_stream);
            }
            lemma_rle_stream_run(s, q, v, u64::MAX as nat);
            assert(st.subrange(0, vs.len() as int) =~= vs);
        } else {
            let x2 = uvar_bytes((n - 1) as nat);
            assert(rest.len() > 0);
            assert(y.len() > 0) by {
                let m = run_len(rest);
                lemma_run_len(rest);
            }
            assert(rle_run_at(s, a.len() as int) == Some((v, n as u64, q))) by {
                assert(s =~= (a + seq![v]) + x2 + y);
                lemma_u64_round_trip(a + seq![v], (n - 1) as u64, y);
            }
            assert(st == rle_stream(s, q, v, n)) by {
                reveal(rle_stream);
            }
            lemma_rle_stream_run(s, q, v, n);
            lemma_rle_stream_fresh(s, q, v, 0);
            lemma_rle_col_round_trip(a + x, rest);
            let tail = rle_stream(s, q, 0, 0);
            assert(st == repeat(v, n) + tail);
            assert(st.subrange(0, vs.len() as int) =~= repeat(v, n) + tail.subrange(
                0,
                rest.len() as int,
            ));
            assert(repeat(v, n) + rest =~= vs);
        }
    }
}

/// Writes a column of bytes.
pub fn write_rle_col(vs: &Vec<u8>) -> (r: Vec<u8>)
    ensures
        r@ == rle_col_bytes(vs@),
{
    let mut out: Vec<u8> = Vec::new();
    let ghost all = vs@;
    let mut i: usize = 0;
    assert(all.skip(0) =~= all);
    assert(Seq::<u8>::empty() + rle_col_bytes(all) =~= rle_col_bytes(all));
    while i < vs.len()
        invariant
            i <= vs.len(),
            all == vs@,
            rle_col_bytes(all) == out@ + rle_col_bytes(all.skip(i as int)),
        decreases vs.len() - i,
    {
        let v: u8 = vs[i];
        let ghost rest = all.skip(i as int);
        let mut j: usize = i + 1;
        proof {
            lemma_run_len(rest);
        }
        while j < vs.len() && vs[j] == v
            invariant
                i < j <= vs.len(),
                all == vs@,
                rest == all.skip(i as int),
                v == all[i as int],
                j - i <= run_len(rest),
                forall|k: int| i <= k < j ==> #[trigger] all[k] == v,
            decreases vs.len() - j,
        {
            proof {
                lemma_run_len(rest);
                if run_len(rest) == j - i {
                    assert(rest[(j - i) as int] == all[j as int]);
                }
            }
            j = j + 1;
        }
        let n: usize = j - i;
        proof {
            lemma_run_len(rest);
            if run_len(rest) > n {
                assert(rest[n as int] == rest[0]);
                assert(rest[n as int] == all[j as int]);
            }
            assert(run_len(rest) == n);
            assert(rle_col_bytes(rest) == rle_run_bytes(rest[0], n as nat, n == rest.len())
                + rle_col_bytes(rest.skip(n as int))) by {
                reveal(rle_col_bytes);
            }
            assert(rest.skip(n as int) =~= all.skip(j as int));
        }
        let ghost cur = out@;
        out.push(v);
        if j < vs.len() {
            write_uvar(&mut out, (n - 1) as u64);
        }
        assert(out@ =~= cur + rle_run_bytes(v, n as nat, n == rest.len()));
        assert(out@ + rle_col_bytes(all.skip(j as int)) =~= cur + rle_col_bytes(rest));
        i = j;
    }
    proof {
        assert(rle_col_bytes(all.skip(i as int)) =~= Seq::<u8>::empty()) by {
            reveal(rle_col_bytes);
        }
        assert(out@ + Seq::<u8>::empty() =~= out@);
    }
    out
}

/// The value that stands before the place `k` of a column of clocks that
/// follows the value `last`.
pub open spec fn before(vs: Seq<u32>, last: int, k: int) -> int {
    if k == 0 {
        last
    } else {
        vs[k - 1] as int
    }
}

/// Whether the value at the place `k` is `d` more than the value before
/// it.
pub open spec fn step_ok(vs: Seq<u32>, last: int, d: int, k: int) -> bool {
    vs[k] - before(vs, last, k) == d
}

/// How many values at the start of `vs` go on from `last` in steps of `d`.
pub open spec fn arith_len(vs: Seq<u32>, last: int, d: int) -> nat
    decreases vs.len(),
{
    if vs.len() == 0 {
        0
    } else if vs[0] - last == d {
        1 + arith_len(vs.drop_first(), vs[0] as int, d)
    } else {
        0
    }
}

/// The first `n` values go on in steps of `d` and the next one does not.
pub proof fn lemma_arith_len(vs: Seq<u32>, last: int, d: int, n: int)
    requires
        0 <= n <= vs.len(),
        forall|k: int| 0 <= k < n ==> #[trigger] step_ok(vs, last, d, k),
        n < vs.len() ==> !step_ok(vs, last, d, n),
    ensures
        arith_len(vs, last, d) == n,
    decreases vs.len(),
{
    if vs.len() == 0 {
    } else if n == 0 {
    } else {
        let w = vs.drop_first();
        assert(step_ok(vs, last, d, 0));
        assert forall|k: int| 0 <= k < n - 1 implies #[trigger] step_ok(w, vs[0] as int, d, k) by {
            assert(step_ok(vs, last, d, k + 1));
        }
        if n < vs.len() {
            assert(!step_ok(vs, last, d, n));
            assert(!step_ok(w, vs[0] as int, d, n - 1));
        }
        lemma_arith_len(w, vs[0] as int, d, n - 1);
    }
}

/// The number that stands for a step and says whether a count follows.
pub open spec fn diff_code(d: int, n: nat) -> int {
    d * 2 + (if n == 1 {
        0int
    } else {
        1int
    })
}

/// One run of a column of clocks.
pub open spec fn diff_run_bytes(d: int, n: nat) -> Seq<u8> {
    let e = diff_code(d, n);
    let head = ivar_bytes(
        e < 0,
        (if e < 0 {
            -e
        } else {
            e
        }) as nat,
    );
    if n == 1 {
        head
    } else {
        head + uvar_bytes((n - 2) as nat)
    }
}

/// The bytes of a column of clocks that follows the value `last`.
#[verifier::opaque]
pub open spec fn diff_col_bytes(vs: Seq<u32>, last: int) -> Seq<u8>
    decreases vs.len(),
{
    if vs.len() == 0 {
        Seq::empty()
    } else {
        let d = vs[0] - last;
        let n = arith_len(vs, last, d);
        if 1 <= n <= vs.len() {
            diff_run_bytes(d, n) + diff_col_bytes(vs.skip(n as int), vs[n - 1] as int)
        } else {
            Seq::empty()
        }
    }
}

/// The head of a run of a column of clocks: the step, the length of the
/// run, and the position behind the head.
pub open spec fn diff_run_at(s: Seq<u8>, pos: int) -> Option<(int, u64, int)> {
    match i64_at(s, pos) {
        Some(((neg, m), q)) => {
            let e: int = if neg {
                -(m as int)
            } else {
                m as int
            };
            if m % 2 == 1 {
                match u64_at(s, q) {
                    Some((c, q2)) => if c + 2 <= u64::MAX {
                        Some((e / 2, (c + 2) as u64, q2))
                    } else {
                        None
                    },
                    None => None,
                }
            } else {
                Some((e / 2, 1u64, q))
            }
        },
        None => None,
    }
}

/// The clocks that a column still holds for a reader that stands at
/// `pos`, gave `last` last, and has `left` more steps of `d` to take. A
/// step that leaves the clocks ends the column.
#[verifier::opaque]
pub open spec fn diff_stream(s: Seq<u8>, pos: int, last: int, d: int, left: nat) -> Seq<u32>
    decreases s.len() - pos, left,
{
    if left > 0 {
        if 0 <= last + d <= u32::MAX {
            seq![(last + d) as u32] + diff_stream(s, pos, last + d, d, (left - 1) as nat)
        } else {
            Seq::empty()
        }
    } else {
        match diff_run_at(s, pos) {
            Some((e, n, q)) => if pos < q <= s.len() {
                diff_stream(s, q, last, e, n as nat)
            } else {
                Seq::empty()
            },
            None => Seq::empty(),
        }
    }
}

/// The clocks of a column.
pub open spec fn diff_col(s: Seq<u8>) -> Seq<u32> {
    diff_stream(s, 0, 0, 0, 0)
}

/// A reader of a column of clocks.
pub struct DiffCursor {
    pub pos: usize,
    pub last: u32,
    pub diff: i64,
    pub left: u64,
}

impl DiffCursor {
    /// A reader at the start of a column.
    pub fn new() -> (r: DiffCursor)
        ensures
            r.pos == 0 && r.left == 0 && r.last == 0 && r.diff == 0,
    {
        DiffCursor { pos: 0, last: 0, diff: 0, left: 0 }
    }

    /// The clocks that the reader still has to give.
    pub open spec fn rest(&self, col: Seq<u8>) -> Seq<u32> {
        diff_stream(col, self.pos as int, self.last as int, self.diff as int, self.left as nat)
    }

    /// The next clock of the column.
    pub fn next(&mut self, col: &[u8]) -> (r: Option<u32>)
        ensures
            match r {
                Some(v) => old(self).rest(col@).len() > 0 && v == old(self).rest(col@)[0]
                    && final(self).rest(col@) == old(self).rest(col@).drop_first(),
                None => old(self).rest(col@).len() == 0 && *final(self) == *old(self),
            },
    {
        let ghost s = col@;
        proof {
            reveal_with_fuel(diff_stream, 2);
        }
        let mut pos: usize = self.pos;
        let mut diff: i64 = self.diff;
        let mut left: u64 = self.left;
        if left == 0 {
            let ((neg, m), q) = match read_i64(col, pos) {
                Some(x) => x,
                None => {
                    return None;
                },
            };
            let half: u64 = m / 2;
            let d: i64 = if !neg {
                half as i64
            } else if m % 2 == 0 {
                -(half as i64)
            } else {
                -(half as i64) - 1
            };
            let mut n: u64 = 1;
            let mut q2: usize = q;
            if m % 2 == 1 {
                match read_u64(col, q) {
                    Some((c, p)) => {
                        if c > u64::MAX - 2 {
                            return None;
                        }
                        n = c + 2;
                        q2 = p;
                    },
                    None => {
                        return None;
                    },
                }
            }
            assert(diff_run_at(s, pos as int) == Some((d as int, n, q2 as int)));
            pos = q2;
            diff = d;
            left = n;
        }
        let v: i128 = self.last as i128 + diff as i128;
        if v < 0 || v > u32::MAX as i128 {
            return None;
        }
        let ghost before = diff_stream(s, pos as int, self.last as int, diff as int, left as nat);
        assert(before == old(self).rest(s));
        self.pos = pos;
        self.diff = diff;
        self.left = left - 1;
        self.last = v as u32;
        assert(before =~= seq![v as u32] + self.rest(s));
        assert(before.drop_first() =~= self.rest(s));
        Some(v as u32)
    }
}

/// Values that go on from `last` in steps of `d`, read back, give the
/// values and then what stands behind them.
pub proof fn lemma_diff_stream_run(s: Seq<u8>, pos: int, last: int, d: int, p: Seq<u32>)
    requires
        arith_len(p, last, d) == p.len(),
    ensures
        diff_stream(s, pos, last, d, p.len()) == p + diff_stream(
            s,
            pos,
            before(p, last, p.len() as int),
            d,
            0,
        ),
    decreases p.len(),
{
    reveal(diff_stream);
    if p.len() > 0 {
        let w = p.drop_first();
        lemma_diff_stream_run(s, pos, p[0] as int, d, w);
        assert(before(w, p[0] as int, w.len() as int) == before(p, last, p.len() as int));
        assert(seq![p[0]] + (w + diff_stream(s, pos, before(p, last, p.len() as int), d, 0))
            =~= p + diff_stream(s, pos, before(p, last, p.len() as int), d, 0));
    } else {
        assert(p + diff_stream(s, pos, last, d, 0) =~= diff_stream(s, pos, last, d, 0));
    }
}

pub proof fn lemma_diff_stream_fresh(s: Seq<u8>, pos: int, last: int, d: int, e: int)
    ensures
        diff_stream(s, pos, last, d, 0) == diff_stream(s, pos, last, e, 0),
{
    reveal(diff_stream);
}

/// The first `arith_len` values go on in steps.
pub proof fn lemma_arith_prefix(vs: Seq<u32>, last: int, d: int)
    ensures
        arith_len(vs, last, d) <= vs.len(),
        arith_len(vs.subrange(0, arith_len(vs, last, d) as int), last, d) == arith_len(vs, last, d),
    decreases vs.len(),
{
    let n = arith_len(vs, last, d);
    if vs.len() == 0 {
    } else if vs[0] - last == d {
        let w = vs.drop_first();
        lemma_arith_prefix(w, vs[0] as int, d);
        let m = arith_len(w, vs[0] as int, d);
        let p = vs.subrange(0, n as int);
        assert(p.drop_first() =~= w.subrange(0, m as int));
    } else {
    }
}

/// The head of a run that was written is read back as it was.
pub proof fn lemma_diff_run_round_trip(a: Seq<u8>, d: int, n: nat, y: Seq<u8>)
    requires
        -0x1_0000_0000 < d < 0x1_0000_0000,
        1 <= n <= u64::MAX,
    ensures
        diff_run_at(a + diff_run_bytes(d, n) + y, a.len() as int) == Some(
            (d, n as u64, (a.len() + diff_run_bytes(d, n).len()) as int),
        ),
        diff_run_bytes(d, n).len() > 0,
{
    let x = diff_run_bytes(d, n);
    let s = a + x + y;
    let e = diff_code(d, n);
    let m: nat = (if e < 0 {
        -e
    } else {
        e
    }) as nat;
    let head = ivar_bytes(e < 0, m);
    let z = Seq::<u8>::empty();
    assert(m <= u64::MAX);
    assert(head.len() > 0) by {
        lemma_i64_round_trip(z, e < 0, m as u64, z);
    }
    let back: int = if e < 0 {
        -(m as int)
    } else {
        m as int
    };
    assert(back == e);
    assert(e / 2 == d && (m % 2 == 1) == (n != 1)) by {
        if n == 1 {
            assert(e == d * 2);
        } else {
            assert(e == d * 2 + 1);
        }
    }
    if n == 1 {
        assert(i64_at(s, a.len() as int) == Some(
            ((e < 0, m as u64), (a.len() + head.len()) as int),
        )) by {
            lemma_i64_round_trip(a, e < 0, m as u64, y);
        }
    } else {
        let x2 = uvar_bytes((n - 2) as nat);
        assert(i64_at(s, a.len() as int) == Some(
            ((e < 0, m as u64), (a.len() + head.len()) as int),
        )) by {
            assert(s =~= a + head + (x2 + y));
            lemma_i64_round_trip(a, e < 0, m as u64, x2 + y);
        }
        assert(u64_at(s, (a.len() + head.len()) as int) == Some(
            ((n - 2) as u64, (a.len() + x.len()) as int),
        )) by {
            assert(s =~= (a + head) + x2 + y);
            lemma_u64_round_trip(a + head, (n - 2) as u64, y);
        }
    }
}

/// The clocks written into a column are the clocks that the column holds.
pub proof fn lemma_diff_col_round_trip(a: Seq<u8>, vs: Seq<u32>, last: int)
    requires
        vs.len() <= u64::MAX,
        0 <= last <= u32::MAX,
    ensures
        diff_stream(a + diff_col_bytes(vs, last), a.len() as int, last, 0, 0) == vs,
    decreases vs.len(),
{
    let s = a + diff_col_bytes(vs, last);
    if vs.len() == 0 {
        assert(diff_col_bytes(vs, last) =~= Seq::<u8>::empty()) by {
            reveal(diff_col_bytes);
        }
        assert(s =~= a);
        assert(diff_stream(s, a.len() as int, last, 0, 0) =~= Seq::<u32>::empty()) by {
            reveal(diff_stream);
        }
    } else {
        let d = vs[0] - last;
        let n = arith_len(vs, last, d);
        lemma_arith_prefix(vs, last, d);
        assert(n >= 1);
        let x = diff_run_bytes(d, n);
        let rest = vs.skip(n as int);
        let y = diff_col_bytes(rest, vs[n - 1] as int);
        assert(diff_col_bytes(vs, last) == x + y) by {
            reveal(diff_col_bytes);
        }
        assert(s =~= a + x + y);
        lemma_diff_run_round_trip(a, d, n, y);
        let q = (a.len() + x.len()) as int;
        assert(diff_stream(s, a.len() as int, last, 0, 0) == diff_stream(s, q, last, d, n)) by {
            reveal(diff_stream);
        }
        let p = vs.subrange(0, n as int);
        lemma_diff_stream_run(s, q, last, d, p);
        assert(before(p, last, n as int) == vs[n - 1]);
        lemma_diff_stream_fresh(s, q, vs[n - 1] as int, d, 0);
        assert(s =~= (a + x) + y);
        lemma_diff_col_round_trip(a + x, rest, vs[n - 1] as int);
        assert(p + rest =~= vs);
    }
}

/// Appends one run of a column of clocks.
fn write_diff_run(out: &mut Vec<u8>, d: i64, n: usize)
    requires
        -0x1_0000_0000 < d < 0x1_0000_0000,
        n >= 1,
    ensures
        final(out)@ == old(out)@ + diff_run_bytes(d as int, n as nat),
{
    let ghost cur = out@;
    let flag: i64 = if n == 1 {
        0
    } else {
        1
    };
    let e: i64 = d * 2 + flag;
    if e < 0 {
        write_ivar(out, true, (-e) as u64);
    } else {
        write_ivar(out, false, e as u64);
    }
    if n > 1 {
        write_uvar(out, (n - 2) as u64);
    }
    assert(out@ =~= cur + diff_run_bytes(d as int, n as nat));
}

/// The length of the run of clocks that starts at the place `i`.
fn diff_run_end(vs: &Vec<u32>, i: usize, last: u32) -> (j: usize)
    requires
        i < vs.len(),
        last == before(vs@, 0, i as int),
    ensures
        i < j <= vs.len(),
        arith_len(vs@.skip(i as int), last as int, vs[i as int] - last) == j - i,
{
    let d: i64 = vs[i] as i64 - last as i64;
    let ghost rest = vs@.skip(i as int);
    let mut j: usize = i + 1;
    assert(step_ok(rest, last as int, d as int, 0));
    while j < vs.len() && vs[j] as i64 - vs[j - 1] as i64 == d
        invariant
            i < j <= vs.len(),
            rest == vs@.skip(i as int),
            forall|k: int| 0 <= k < j - i ==> #[trigger] step_ok(rest, last as int, d as int, k),
        decreases vs.len() - j,
    {
        proof {
            let k0 = (j - i) as int;
            assert(rest[k0] == vs[j as int]);
            assert(rest[k0 - 1] == vs[j - 1]);
            assert(step_ok(rest, last as int, d as int, k0));
        }
        j = j + 1;
    }
    proof {
        let n = (j - i) as int;
        if n < rest.len() {
            assert(rest[n] == vs[j as int]);
            assert(rest[n - 1] == vs[j - 1]);
            assert(!step_ok(rest, last as int, d as int, n));
        }
        lemma_arith_len(rest, last as int, d as int, n);
    }
    j
}

/// Writes a column of clocks.
pub fn write_diff_col(vs: &Vec<u32>) -> (r: Vec<u8>)
    ensures
        r@ == diff_col_bytes(vs@, 0),
{
    let mut out: Vec<u8> = Vec::new();
    let ghost all = vs@;
    let mut i: usize = 0;
    let mut last: u32 = 0;
    assert(all.skip(0) =~= all);
    assert(Seq::<u8>::empty() + diff_col_bytes(all, 0) =~= diff_col_bytes(all, 0));
    while i < vs.len()
        invariant
            i <= vs.len(),
            all == vs@,
            last == before(all, 0, i as int),
            diff_col_bytes(all, 0) == out@ + diff_col_bytes(all.skip(i as int), last as int),
        decreases vs.len() - i,
    {
        let d: i64 = vs[i] as i64 - last as i64;
        let ghost rest = all.skip(i as int);
        let j: usize = diff_run_end(vs, i, last);
        let n: usize = j - i;
        let ghost cur = out@;
        let ghost next = all.skip(j as int);
        write_diff_run(&mut out, d, n);
        proof {
            assert(rest[0] == all[i as int]);
            assert(rest[n - 1] == all[j - 1]);
            assert(rest.skip(n as int) =~= next);
            assert(diff_col_bytes(rest, last as int) == diff_run_bytes(d as int, n as nat)
                + diff_col_bytes(next, all[j - 1] as int)) by {
                reveal(diff_col_bytes);
            }
            assert(out@ + diff_col_bytes(next, all[j - 1] as int) =~= cur + diff_col_bytes(
                rest,
                last as int,
            ));
        }
        last = vs[j - 1];
        i = j;
    }
    proof {
        assert(diff_col_bytes(all.skip(i as int), last as int) =~= Seq::<u8>::empty()) by {
            reveal(diff_col_bytes);
        }
        assert(out@ + Seq::<u8>::empty() =~= out@);
    }
    out
}

/// The strings, one behind the other.
pub open spec fn join(strs: Seq<Seq<char>>) -> Seq<char>
    decreases strs.len(),
{
    if strs.len() == 0 {
        Seq::empty()
    } else {
        strs[0] + join(strs.drop_first())
    }
}

/// The lengths of the strings, in characters.
pub open spec fn lens_of(strs: Seq<Seq<char>>) -> Seq<u64> {
    Seq::new(strs.len(), |i: int| strs[i].len() as u64)
}

/// The text `joined` cut into strings of the lengths `lens`. A length that
/// the text no longer has ends the cutting.
pub open spec fn cut(joined: Seq<char>, lens: Seq<u64>) -> Seq<Seq<char>>
    decreases lens.len(),
{
    if lens.len() == 0 || lens[0] > joined.len() {
        Seq::empty()
    } else {
        seq![joined.subrange(0, lens[0] as int)] + cut(
            joined.skip(lens[0] as int),
            lens.drop_first(),
        )
    }
}

/// The bytes of a column of strings: the strings as one, then the column
/// of their lengths.
pub open spec fn str_col_bytes(strs: Seq<Seq<char>>) -> Seq<u8> {
    string_bytes(join(strs)) + uint_col_bytes(lens_of(strs))
}

/// The strings of a column.
pub open spec fn str_col(s: Seq<u8>) -> Seq<Seq<char>> {
    match string_at(s, 0) {
        Some((joined, q)) => cut(joined, uint_stream(s, q, 0, 0)),
        None => Seq::empty(),
    }
}

/// Strings cut from their joined text by their lengths are the strings.
pub proof fn lemma_cut_join(strs: Seq<Seq<char>>)
    requires
        forall|i: int| 0 <= i < strs.len() ==> (#[trigger] strs[i]).len() <= u64::MAX,
    ensures
        cut(join(strs), lens_of(strs)) == strs,
    decreases strs.len(),
{
    if strs.len() == 0 {
        assert(strs =~= Seq::<Seq<char>>::empty());
    } else {
        let w = strs.drop_first();
        let lens = lens_of(strs);
        assert(lens.drop_first() =~= lens_of(w));
        assert(lens[0] == strs[0].len());
        let j = join(strs);
        assert(j.subrange(0, lens[0] as int) =~= strs[0]);
        assert(j.skip(lens[0] as int) =~= join(w));
        assert forall|i: int| 0 <= i < w.len() implies (#[trigger] w[i]).len() <= u64::MAX by {
            assert(strs[i + 1].len() <= u64::MAX);
        }
        lemma_cut_join(w);
        assert(seq![strs[0]] + w =~= strs);
    }
}

/// The strings written into a column are the strings that the column
/// holds.
pub proof fn lemma_str_col_round_trip(strs: Seq<Seq<char>>)
    requires
        forall|i: int| 0 <= i < strs.len() ==> (#[trigger] strs[i]).len() <= u64::MAX,
        strs.len() <= u64::MAX,
        writable(join(strs)),
    ensures
        str_col(str_col_bytes(strs)) == strs,
{
    let e = Seq::<u8>::empty();
    let x = string_bytes(join(strs));
    let y = uint_col_bytes(lens_of(strs));
    let s = str_col_bytes(strs);
    assert(s =~= e + x + y);
    lemma_string_round_trip(e, join(strs), y);
    assert(s =~= (e + x) + y);
    lemma_uint_col_round_trip(e + x, lens_of(strs));
    lemma_cut_join(strs);
}

/// A reader of a column of strings.
pub struct StringCursor {
    /// The strings of the column, as one.
    pub text: String,
    /// How many characters of the text have been given.
    pub at: usize,
    /// How many characters the text has.
    pub total: usize,
    /// The reader of the lengths.
    pub lens: UintCursor,
}

impl StringCursor {
    pub open spec fn wf(&self) -> bool {
        self.at <= self.total && self.total == self.text@.len()
    }

    /// The strings that the reader still has to give.
    pub open spec fn rest(&self, col: Seq<u8>) -> Seq<Seq<char>> {
        cut(self.text@.skip(self.at as int), self.lens.rest(col))
    }

    /// A reader at the start of a column. A column that does not begin
    /// with a string holds no strings.
    pub fn new(col: &[u8]) -> (r: StringCursor)
        ensures
            r.wf(),
            r.rest(col@) == str_col(col@),
    {
        match read_string(col, 0) {
            Some((text, q)) => {
                let total: usize = text.as_str().unicode_len();
                assert(text@.skip(0) =~= text@);
                StringCursor { text, at: 0, total, lens: UintCursor { pos: q, value: 0, left: 0 } }
            },
            None => {
                let r = StringCursor {
                    text: String::new(),
                    at: 0,
                    total: 0,
                    lens: UintCursor { pos: col.len(), value: 0, left: 0 },
                };
                proof {
                    reveal(uint_stream);
                    lemma_uvar_at_bounds(col@, col.len() as int, 10);
                    assert(r.lens.rest(col@) =~= Seq::<u64>::empty());
                }
                r
            },
        }
    }

    /// The next string of the column. Where the column has none, the
    /// reader stays as it is.
    pub fn next(&mut self, col: &[u8]) -> (r: Option<String>)
        requires
            old(self).wf(),
        ensures
            final(self).wf(),
            match r {
                Some(v) => old(self).rest(col@).len() > 0 && v@ == old(self).rest(col@)[0]
                    && final(self).rest(col@) == old(self).rest(col@).drop_first(),
                None => old(self).rest(col@).len() == 0 && *final(self) == *old(self),
            },
    {
        let ghost before = self.rest(col@);
        let ghost lens0 = self.lens.rest(col@);
        let ghost text0 = self.text@.skip(self.at as int);
        let pos: usize = self.lens.pos;
        let value: u64 = self.lens.value;
        let left: u64 = self.lens.left;
        let l: u64 = match self.lens.next(col) {
            Some(l) => l,
            None => {
                return None;
            },
        };
        if l > (self.total - self.at) as u64 {
            proof {
                assert(before =~= Seq::<Seq<char>>::empty());
            }
            self.lens = UintCursor { pos, value, left };
            return None;
        }
        let to: usize = self.at + l as usize;
        let part = self.text.as_str().substring_char(self.at, to).to_owned();
        proof {
            assert(text0.subrange(0, l as int) =~= self.text@.subrange(self.at as int, to as int));
            assert(text0.skip(l as int) =~= self.text@.skip(to as int));
            assert(before =~= seq![part@] + cut(text0.skip(l as int), lens0.drop_first()));
        }
        self.at = to;
        assert(before.drop_first() =~= self.rest(col@));
        Some(part)
    }
}

/// Writes a column of strings.
pub fn write_str_col(strs: &Vec<String>) -> (r: Vec<u8>)
    ensures
        r@ == str_col_bytes(strs_view(strs@)),
        writable(join(strs_view(strs@))),
        forall|i: int| 0 <= i < strs.len() ==> (#[trigger] strs[i])@.len() <= u64::MAX,
{
    let ghost all = strs_view(strs@);
    let mut joined: String = String::new();
    let mut lens: Vec<u64> = Vec::new();
    let mut i: usize = 0;
    assert(joined@ + join(all.skip(0)) =~= join(all)) by {
        assert(all.skip(0) =~= all);
    }
    while i < strs.len()
        invariant
            i <= strs.len(),
            all == strs_view(strs@),
            joined@ + join(all.skip(i as int)) == join(all),
            lens.len() == i,
            forall|k: int| 0 <= k < i ==> #[trigger] lens[k] == all[k].len(),
            forall|k: int| 0 <= k < i ==> (#[trigger] strs[k])@.len() <= u64::MAX,
        decreases strs.len() - i,
    {
        let ghost rest = all.skip(i as int);
        let ghost cur = joined@;
        let n: usize = strs[i].as_str().unicode_len();
        joined.append(strs[i].as_str());
        lens.push(n as u64);
        proof {
            assert(rest.drop_first() =~= all.skip(i + 1));
            assert(rest[0] == strs[i as int]@);
            assert(joined@ + join(all.skip(i + 1)) =~= cur + join(rest));
        }
        i = i + 1;
    }
    proof {
        assert(join(all.skip(i as int)) =~= Seq::<char>::empty());
        assert(joined@ =~= join(all));
        assert(lens@ =~= lens_of(all));
    }
    let mut out: Vec<u8> = Vec::new();
    write_string(&mut out, joined.as_str());
    let col = write_uint_col(&lens);
    out.extend_from_slice(col.as_slice());
    assert(out@ =~= str_col_bytes(all));
    out
}

/// The characters of each of the strings.
pub open spec fn strs_view(v: Seq<String>) -> Seq<Seq<char>> {
    Seq::new(v.len(), |i: int| v[i]@)
}

} // verus!
