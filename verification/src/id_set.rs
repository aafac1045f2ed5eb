//! Sets of identifiers, kept as ranges of clocks per client.
//!
//! The delete set of a document is such a set: every position in it is a
//! tombstone. The clients stand in falling order; the ranges of a client
//! stand in rising order and neither overlap nor touch.

use crate::id::{ClientID, ID};
use vstd::prelude::*;

verus! {

/// The `len` clocks from `start` on.
#[derive(Clone, Copy, Debug, PartialEq, Eq, Hash, Structural)]
pub struct Range {
    pub start: u32,
    pub len: u32,
}

impl Range {
    /// The clock behind the range.
    pub open spec fn end(self) -> int {
        self.start + self.len
    }

    /// Whether the range holds the clock `c`.
    pub open spec fn holds(self, c: int) -> bool {
        self.start <= c < self.end()
    }

    /// A range that is not empty and whose end fits.
    pub open spec fn wf(self) -> bool {
        self.len >= 1 && self.end() <= u32::MAX
    }
}

/// The range of the clocks from `lo` up to, and without, `hi`.
pub open spec fn span(lo: u32, hi: u32) -> Range {
    Range { start: lo, len: (hi - lo) as u32 }
}

/// Ranges in rising order that neither overlap nor touch.
pub open spec fn ranges_wf(rs: Seq<Range>) -> bool {
    &&& forall|i: int| 0 <= i < rs.len() ==> (#[trigger] rs[i]).wf()
    &&& forall|i: int, j: int|
        0 <= i < j < rs.len() ==> (#[trigger] rs[i]).end() < (#[trigger] rs[j]).start
}

/// Whether one of the ranges holds the clock `c`.
pub open spec fn covers(rs: Seq<Range>, c: int) -> bool {
    exists|j: int| 0 <= j < rs.len() && (#[trigger] rs[j]).holds(c)
}

/// The ranges of one client.
#[derive(Debug, PartialEq, Eq)]
pub struct ClientRanges {
    pub client: ClientID,
    pub ranges: Vec<Range>,
}

impl View for ClientRanges {
    type V = (ClientID, Seq<Range>);

    open spec fn view(&self) -> (ClientID, Seq<Range>) {
        (self.client, self.ranges@)
    }
}

/// A set of identifiers.
#[derive(Debug, PartialEq, Eq)]
pub struct IdSet {
    pub clients: Vec<ClientRanges>,
}

/// The identifiers that are tombstones.
pub type DeleteSet = IdSet;

/// The ranges of a set, client by client.
pub type IdSetView = Seq<(ClientID, Seq<Range>)>;

impl View for IdSet {
    type V = IdSetView;

    open spec fn view(&self) -> IdSetView {
        Seq::new(self.clients.len() as nat, |i: int| self.clients[i]@)
    }
}

/// Clients in falling order, each with well-formed ranges and at least one.
pub open spec fn ids_wf(v: IdSetView) -> bool {
    &&& forall|i: int|
        0 <= i < v.len() ==> ranges_wf((#[trigger] v[i]).1) && v[i].1.len() >= 1
    &&& forall|i: int, j: int| 0 <= i < j < v.len() ==> (#[trigger] v[i]).0 > (#[trigger] v[j]).0
}

/// Whether every range of every client is well formed by itself.
pub open spec fn ids_ranges_ok(v: IdSetView) -> bool {
    forall|i: int, j: int|
        0 <= i < v.len() && 0 <= j < v[i].1.len() ==> (#[trigger] v[i].1[j]).wf()
}

/// Whether two lists of ranges hold the same identifiers.
pub open spec fn same_ids(a: IdSetView, b: IdSetView) -> bool {
    forall|x: ID| #[trigger] ids_contain(a, x) <==> ids_contain(b, x)
}

/// Whether the set holds the identifier.
pub open spec fn ids_contain(v: IdSetView, id: ID) -> bool {
    exists|i: int| 0 <= i < v.len() && (#[trigger] v[i]).0 == id.client && covers(v[i].1, id.clock as int)
}

/// The position of the range that holds `c`, found by halving.
pub fn find_range(rs: &Vec<Range>, c: u32) -> (r: Option<usize>)
    requires
        ranges_wf(rs@),
    ensures
        match r {
            Some(j) => j < rs.len() && rs[j as int].holds(c as int),
            None => !covers(rs@, c as int),
        },
{
    let mut lo: usize = 0;
    let mut hi: usize = rs.len();
    while lo < hi
        invariant
            lo <= hi <= rs.len(),
            ranges_wf(rs@),
            forall|j: int| 0 <= j < lo ==> (#[trigger] rs[j]).end() <= c,
            forall|j: int| hi <= j < rs.len() ==> c < (#[trigger] rs[j]).start,
        decreases hi - lo,
    {
        let mid: usize = lo + (hi - lo) / 2;
        let x: Range = rs[mid];
        if c < x.start {
            assert forall|j: int| mid <= j < rs.len() implies c < (#[trigger] rs[j]).start by {
                if j > mid {
                    assert(rs[mid as int].end() < rs[j].start);
                }
            }
            hi = mid;
        } else if c - x.start < x.len {
            return Some(mid);
        } else {
            assert forall|j: int| 0 <= j < mid + 1 implies (#[trigger] rs[j]).end() <= c by {
                if j < mid {
                    assert(rs[j].end() < rs[mid as int].start);
                }
            }
            lo = mid + 1;
        }
    }
    None
}

/// Adds the `len` clocks from `start` on to the ranges, melting them with
/// every range that they overlap or touch.
pub fn insert_range(rs: &mut Vec<Range>, start: u32, len: u32)
    requires
        ranges_wf(old(rs)@),
        len >= 1,
        start + len <= u32::MAX,
    ensures
        ranges_wf(final(rs)@),
        final(rs).len() >= 1,
        forall|c: int| covers(final(rs)@, c) <==> covers(old(rs)@, c) || start <= c < start + len,
        old(rs).len() == 0 || old(rs)[old(rs).len() - 1].end() < start ==> final(rs)@ == old(
            rs,
        )@.push(Range { start, len }),
{
    let n: usize = rs.len();
    if n == 0 || (rs[n - 1].start + rs[n - 1].len < start) {
        let ghost before = rs@;
        rs.push(Range { start, len });
        proof {
            assert forall|c: int| covers(rs@, c) <==> covers(before, c) || start <= c < start
                + len by {
                if covers(rs@, c) {
                    let j = choose|j: int| 0 <= j < rs.len() && (#[trigger] rs[j]).holds(c);
                    if j < n {
                        assert(before[j].holds(c));
                    }
                }
                if covers(before, c) {
                    let j = choose|j: int| 0 <= j < before.len() && (#[trigger] before[j]).holds(c);
                    assert(rs[j].holds(c));
                }
                if start <= c < start + len {
                    assert(rs[n as int].holds(c));
                }
            }
        }
        return;
    }
    let ghost prev = rs@;
    let mut out: Vec<Range> = Vec::new();
    let mut lo: u32 = start;
    let mut hi: u32 = start + len;
    let mut placed: bool = false;
    let ghost mut m: int = 0;
    let ghost mut b: int = 0;
    let mut i: usize = 0;
    while i < n
        invariant
            i <= n,
            n == rs.len(),
            rs@ == prev,
            ranges_wf(prev),
            len >= 1,
            start + len <= u32::MAX,
            lo <= start,
            start + len <= hi <= u32::MAX,
            0 <= m <= b <= i,
            !placed ==> b == i,
            !placed ==> out@ == prev.subrange(0, m),
            placed ==> out@ == prev.subrange(0, m).push(span(lo, hi))
                + prev.subrange(b, i as int),
            placed ==> b < i,
            placed ==> hi < prev[b].start,
            forall|k: int| 0 <= k < m ==> (#[trigger] prev[k]).end() < lo,
            forall|k: int| m <= k < b ==> lo <= (#[trigger] prev[k]).start && prev[k].end() <= hi,
            forall|c: int|
                #[trigger] span(lo, hi).holds(c) <==> start <= c < start + len || exists|k: int|
                    m <= k < b && (#[trigger] prev[k]).holds(c),
        decreases n - i,
    {
        let x: Range = rs[i];
        let xe: u32 = x.start + x.len;
        if placed {
            out.push(x);
            assert(out@ =~= prev.subrange(0, m).push(span(lo, hi))
                + prev.subrange(b, i + 1));
        } else if xe < lo {
            proof {
                if m < i {
                    assert(prev[m].end() < prev[i as int].start);
                    assert(prev[m].wf());
                }
            }
            out.push(x);
            proof {
                m = i + 1;
                b = i + 1;
                assert(out@ =~= prev.subrange(0, m));
                assert forall|k: int| 0 <= k < m implies (#[trigger] prev[k]).end() < lo by {
                    if k < i {
                        assert(prev[k].end() < prev[i as int].start);
                        assert(prev[i as int].wf());
                    }
                }
            }
        } else if hi < x.start {
            out.push(Range { start: lo, len: hi - lo });
            out.push(x);
            placed = true;
            proof {
                b = i as int;
                assert(out@ =~= prev.subrange(0, m).push(
                    span(lo, hi),
                ) + prev.subrange(b, i + 1));
            }
        } else {
            let ghost lo0 = lo;
            let ghost hi0 = hi;
            if x.start < lo {
                lo = x.start;
            }
            if xe > hi {
                hi = xe;
            }
            proof {
                assert(prev[i as int].wf());
                assert forall|k: int| 0 <= k < m implies (#[trigger] prev[k]).end() < lo by {
                    assert(prev[k].end() < prev[i as int].start);
                }
                b = i + 1;
                assert forall|c: int| #[trigger]
                    span(lo, hi).holds(c) <==> start <= c < start + len || exists|k: int|
                        m <= k < b && (#[trigger] prev[k]).holds(c) by {
                    if span(lo, hi).holds(c) {
                        if span(lo0, hi0).holds(c) {
                            if !(start <= c < start + len) {
                                let k = choose|k: int|
                                    m <= k < i && (#[trigger] prev[k]).holds(c);
                                assert(m <= k < b && prev[k].holds(c));
                            }
                        } else {
                            assert(prev[i as int].holds(c));
                        }
                    }
                    if exists|k: int| m <= k < b && (#[trigger] prev[k]).holds(c) {
                        let k = choose|k: int| m <= k < b && (#[trigger] prev[k]).holds(c);
                        if k < i {
                            assert(span(lo0, hi0).holds(c));
                        }
                    }
                    if start <= c < start + len {
                        assert(span(lo0, hi0).holds(c));
                    }
                }
            }
        }
        i = i + 1;
    }
    if !placed {
        out.push(Range { start: lo, len: hi - lo });
    }
    proof {
        let cur = span(lo, hi);
        let fin = out@;
        assert(fin =~= prev.subrange(0, m).push(cur) + prev.subrange(b, n as int));
        assert forall|k: int| 0 <= k < fin.len() implies (#[trigger] fin[k]).wf() by {
            if k < m {
                assert(prev[k].wf());
            } else if k > m {
                assert(prev[b + k - m - 1].wf());
            }
        }
        assert forall|k: int, l: int| 0 <= k < l < fin.len() implies (#[trigger] fin[k]).end()
            < (#[trigger] fin[l]).start by {
            if l < m {
                assert(prev[k].end() < prev[l].start);
            } else if l == m {
                assert(prev[k].end() < lo);
            } else {
                let pl = b + l - m - 1;
                assert(prev[pl].wf());
                assert(prev[b].wf());
                if pl > b {
                    assert(prev[b].end() < prev[pl].start);
                }
                if k < m {
                    assert(prev[k].end() < lo);
                } else if k == m {
                } else {
                    assert(prev[b + k - m - 1].end() < prev[pl].start);
                }
            }
        }
        assert forall|c: int| covers(fin, c) <==> covers(prev, c) || start <= c < start
            + len by {
            if covers(fin, c) {
                let j = choose|j: int| 0 <= j < fin.len() && (#[trigger] fin[j]).holds(c);
                if j < m {
                    assert(prev[j].holds(c));
                } else if j == m {
                    assert(span(lo, hi).holds(c));
                    if !(start <= c < start + len) {
                        let k = choose|k: int| m <= k < b && (#[trigger] prev[k]).holds(c);
                        assert(prev[k].holds(c));
                    }
                } else {
                    assert(prev[b + j - m - 1].holds(c));
                }
            }
            if covers(prev, c) {
                let k = choose|k: int| 0 <= k < prev.len() && (#[trigger] prev[k]).holds(c);
                if k < m {
                    assert(fin[k].holds(c));
                } else if k < b {
                    assert(span(lo, hi).holds(c));
                    assert(fin[m].holds(c));
                } else {
                    assert(fin[m + 1 + k - b].holds(c));
                }
            }
            if start <= c < start + len {
                assert(span(lo, hi).holds(c));
                assert(fin[m].holds(c));
            }
        }
    }
    *rs = out;
}

/// Whether the ranges are well formed, checked from neighbour to neighbour.
pub fn check_ranges(rs: &Vec<Range>) -> (r: bool)
    ensures
        r == ranges_wf(rs@),
{
    let mut i: usize = 0;
    while i < rs.len()
        invariant
            i <= rs.len(),
            ranges_wf(rs@.subrange(0, i as int)),
        decreases rs.len() - i,
    {
        let x: Range = rs[i];
        let ghost done = rs@.subrange(0, i as int);
        let ghost next = rs@.subrange(0, i + 1);
        if x.len < 1 || x.len > u32::MAX - x.start {
            assert(!rs@[i as int].wf());
            return false;
        }
        if i > 0 {
            let w: Range = rs[i - 1];
            assert(done[i - 1].wf());
            if w.start + w.len >= x.start {
                assert(!(rs@[i - 1].end() < rs@[i as int].start));
                return false;
            }
        }
        proof {
            assert forall|k: int| 0 <= k < next.len() implies (#[trigger] next[k]).wf() by {
                if k < i {
                    assert(done[k].wf());
                }
            }
            assert forall|k: int, l: int| 0 <= k < l < next.len() implies (#[trigger] next[k]).end()
                < (#[trigger] next[l]).start by {
                if l < i {
                    assert(done[k].end() < done[l].start);
                } else if k < i - 1 {
                    assert(done[k].end() < done[i - 1].start);
                    assert(done[i - 1].wf());
                }
            }
        }
        i = i + 1;
    }
    assert(rs@.subrange(0, i as int) =~= rs@);
    true
}

impl IdSet {
    /// The empty set.
    pub fn new() -> (r: IdSet)
        ensures
            r@.len() == 0,
            r.wf(),
    {
        IdSet { clients: Vec::new() }
    }

    pub open spec fn wf(&self) -> bool {
        ids_wf(self@)
    }

    /// Whether the set holds the identifier.
    pub open spec fn has(&self, id: ID) -> bool {
        ids_contain(self@, id)
    }

    /// Whether the clients stand in falling order, each with well-formed
    /// ranges and at least one.
    pub fn check(&self) -> (r: bool)
        ensures
            r == self.wf(),
    {
        let mut i: usize = 0;
        while i < self.clients.len()
            invariant
                i <= self.clients.len(),
                ids_wf(self@.subrange(0, i as int)),
            decreases self.clients.len() - i,
        {
            let ghost done = self@.subrange(0, i as int);
            let ghost next = self@.subrange(0, i + 1);
            let ghost v = self@;
            if self.clients[i].ranges.len() == 0 || !check_ranges(&self.clients[i].ranges) {
                assert(!(ranges_wf(v[i as int].1) && v[i as int].1.len() >= 1));
                return false;
            }
            if i > 0 {
                if self.clients[i - 1].client <= self.clients[i].client {
                    assert(!(v[i - 1].0 > v[i as int].0));
                    return false;
                }
            }
            proof {
                assert forall|k: int| 0 <= k < next.len() implies ranges_wf((#[trigger] next[k]).1)
                    && next[k].1.len() >= 1 by {
                    if k < i {
                        assert(ranges_wf(done[k].1));
                    }
                }
                assert forall|k: int, l: int| 0 <= k < l < next.len() implies (#[trigger] next[k]).0
                    > (#[trigger] next[l]).0 by {
                    if l < i {
                        assert(done[k].0 > done[l].0);
                    } else if k < i - 1 {
                        assert(done[k].0 > done[i - 1].0);
                    }
                }
            }
            i = i + 1;
        }
        assert(self@.subrange(0, i as int) =~= self@);
        true
    }

    /// The place of `client` among the clients: whether it is there, and
    /// where it stands or would stand.
    pub fn find_client(&self, client: ClientID) -> (r: (bool, usize))
        requires
            self.wf(),
        ensures
            r.1 <= self@.len(),
            r.0 ==> r.1 < self@.len() && self@[r.1 as int].0 == client,
            forall|j: int| 0 <= j < r.1 ==> (#[trigger] self@[j]).0 > client,
            forall|j: int|
                (if r.0 {
                    r.1 + 1
                } else {
                    r.1 as int
                }) <= j < self@.len() ==> (#[trigger] self@[j]).0 < client,
    {
        let mut lo: usize = 0;
        let mut hi: usize = self.clients.len();
        let ghost v = self@;
        while lo < hi
            invariant
                lo <= hi <= self.clients.len(),
                v == self@,
                ids_wf(v),
                forall|j: int| 0 <= j < lo ==> (#[trigger] v[j]).0 > client,
                forall|j: int| hi <= j < v.len() ==> (#[trigger] v[j]).0 < client,
            decreases hi - lo,
        {
            let mid: usize = lo + (hi - lo) / 2;
            let c: ClientID = self.clients[mid].client;
            assert(c == v[mid as int].0);
            if c == client {
                assert forall|j: int| 0 <= j < mid implies (#[trigger] v[j]).0 > client by {
                    assert(v[j].0 > v[mid as int].0);
                }
                assert forall|j: int| mid + 1 <= j < v.len() implies (#[trigger] v[j]).0
                    < client by {
                    assert(v[mid as int].0 > v[j].0);
                }
                return (true, mid);
            } else if c > client {
                assert forall|j: int| 0 <= j < mid + 1 implies (#[trigger] v[j]).0 > client by {
                    if j < mid {
                        assert(v[j].0 > v[mid as int].0);
                    }
                }
                lo = mid + 1;
            } else {
                assert forall|j: int| mid <= j < v.len() implies (#[trigger] v[j]).0 < client by {
                    if j > mid {
                        assert(v[mid as int].0 > v[j].0);
                    }
                }
                hi = mid;
            }
        }
        (false, lo)
    }

    /// Whether the set holds the identifier, found by halving among the
    /// clients and among the client's ranges.
    pub fn is_deleted(&self, id: &ID) -> (r: bool)
        requires
            self.wf(),
        ensures
            r == self.has(*id),
    {
        let (found, p) = self.find_client(id.client);
        let ghost v = self@;
        if !found {
            assert forall|i: int| 0 <= i < v.len() implies !((#[trigger] v[i]).0 == id.client) by {
                if i < p {
                } else {
                }
            }
            return false;
        }
        assert(ranges_wf(v[p as int].1));
        match find_range(&self.clients[p].ranges, id.clock) {
            Some(j) => {
                assert(covers(v[p as int].1, id.clock as int));
                true
            },
            None => {
                assert forall|i: int| 0 <= i < v.len() && (#[trigger] v[i]).0 == id.client implies i
                    == p by {
                    if i < p {
                    } else if i > p {
                    }
                }
                false
            },
        }
    }

    /// Adds the `len` positions from `id` on, melting them with the ranges
    /// of the same client that they overlap or touch. Nothing is added twice.
    pub fn insert(&mut self, id: ID, len: u32)
        requires
            old(self).wf(),
            id.clock + len <= u32::MAX,
        ensures
            final(self).wf(),
            forall|x: ID| #[trigger]
                ids_contain(final(self)@, x) <==> ids_contain(old(self)@, x) || x.within(
                    id,
                    len as nat,
                ),
    {
        if len == 0 {
            return;
        }
        let ghost v0 = self@;
        let (found, p) = self.find_client(id.client);
        if found {
            let mut entry: ClientRanges = self.clients.remove(p);
            let ghost r0 = entry.ranges@;
            assert(entry@ == v0[p as int]);
            assert(ranges_wf(v0[p as int].1));
            insert_range(&mut entry.ranges, id.clock, len);
            let ghost r1 = entry.ranges@;
            self.clients.insert(p, entry);
            proof {
                let v1 = self@;
                assert(v1.len() == v0.len());
                assert(v1[p as int] == (id.client, r1));
                assert forall|i: int| 0 <= i < v1.len() && i != p implies #[trigger] v1[i]
                    == v0[i] by {}
                assert forall|i: int| 0 <= i < v1.len() implies ranges_wf((#[trigger] v1[i]).1)
                    && v1[i].1.len() >= 1 by {
                    if i != p {
                        assert(ranges_wf(v0[i].1));
                    }
                }
                assert forall|i: int, j: int| 0 <= i < j < v1.len() implies (#[trigger] v1[i]).0
                    > (#[trigger] v1[j]).0 by {
                    assert(v0[i].0 > v0[j].0);
                }
                assert forall|x: ID| ids_contain(v1, x) <==> ids_contain(v0, x) || x.within(
                    id,
                    len as nat,
                ) by {
                    if ids_contain(v1, x) {
                        let i = choose|i: int|
                            0 <= i < v1.len() && (#[trigger] v1[i]).0 == x.client && covers(
                                v1[i].1,
                                x.clock as int,
                            );
                        if i == p {
                            if covers(r0, x.clock as int) {
                                assert(v0[i].0 == x.client && covers(v0[i].1, x.clock as int));
                            }
                        } else {
                            assert(v0[i].0 == x.client && covers(v0[i].1, x.clock as int));
                        }
                    }
                    if ids_contain(v0, x) {
                        let i = choose|i: int|
                            0 <= i < v0.len() && (#[trigger] v0[i]).0 == x.client && covers(
                                v0[i].1,
                                x.clock as int,
                            );
                        assert(v1[i].0 == x.client && covers(v1[i].1, x.clock as int));
                    }
                    if x.within(id, len as nat) {
                        assert(v1[p as int].0 == x.client && covers(
                            v1[p as int].1,
                            x.clock as int,
                        ));
                    }
                }
            }
        } else {
            let mut ranges: Vec<Range> = Vec::new();
            ranges.push(Range { start: id.clock, len });
            let ghost r1 = ranges@;
            self.clients.insert(p, ClientRanges { client: id.client, ranges });
            proof {
                let v1 = self@;
                assert(v1.len() == v0.len() + 1);
                assert(v1[p as int] == (id.client, r1));
                assert forall|i: int| 0 <= i < p implies #[trigger] v1[i] == v0[i] by {}
                assert forall|i: int| p < i < v1.len() implies #[trigger] v1[i] == v0[i - 1] by {}
                assert(r1[0].wf());
                assert forall|i: int| 0 <= i < v1.len() implies ranges_wf((#[trigger] v1[i]).1)
                    && v1[i].1.len() >= 1 by {
                    if i < p {
                        assert(ranges_wf(v0[i].1));
                    } else if i > p {
                        assert(ranges_wf(v0[i - 1].1));
                    }
                }
                assert forall|i: int, j: int| 0 <= i < j < v1.len() implies (#[trigger] v1[i]).0
                    > (#[trigger] v1[j]).0 by {
                    let a = if i < p {
                        i
                    } else {
                        i - 1
                    };
                    let b = if j < p {
                        j
                    } else {
                        j - 1
                    };
                    if i != p && j != p {
                        assert(v0[a].0 > v0[b].0);
                    } else if i == p {
                        assert(v0[b].0 < id.client);
                    } else {
                        assert(v0[a].0 > id.client);
                    }
                }
                assert forall|x: ID| ids_contain(v1, x) <==> ids_contain(v0, x) || x.within(
                    id,
                    len as nat,
                ) by {
                    if ids_contain(v1, x) {
                        let i = choose|i: int|
                            0 <= i < v1.len() && (#[trigger] v1[i]).0 == x.client && covers(
                                v1[i].1,
                                x.clock as int,
                            );
                        if i == p {
                            let j = choose|j: int|
                                0 <= j < r1.len() && (#[trigger] r1[j]).holds(x.clock as int);
                        } else if i < p {
                            assert(v0[i].0 == x.client && covers(v0[i].1, x.clock as int));
                        } else {
                            assert(v0[i - 1].0 == x.client && covers(
                                v0[i - 1].1,
                                x.clock as int,
                            ));
                        }
                    }
                    if ids_contain(v0, x) {
                        let i = choose|i: int|
                            0 <= i < v0.len() && (#[trigger] v0[i]).0 == x.client && covers(
                                v0[i].1,
                                x.clock as int,
                            );
                        if i < p {
                            assert(v1[i].0 == x.client && covers(v1[i].1, x.clock as int));
                        } else {
                            assert(v1[i + 1].0 == x.client && covers(
                                v1[i + 1].1,
                                x.clock as int,
                            ));
                        }
                    }
                    if x.within(id, len as nat) {
                        assert(r1[0].holds(x.clock as int));
                        assert(v1[p as int].0 == x.client && covers(
                            v1[p as int].1,
                            x.clock as int,
                        ));
                    }
                }
            }
        }
    }

    /// Adds every identifier of `other`, whose ranges may stand in any
    /// order.
    pub fn merge(&mut self, other: &IdSet)
        requires
            old(self).wf(),
            ids_ranges_ok(other@),
        ensures
            final(self).wf(),
            forall|x: ID| #[trigger]
                ids_contain(final(self)@, x) <==> ids_contain(old(self)@, x) || ids_contain(
                    other@,
                    x,
                ),
    {
        let ghost v0 = self@;
        let ghost w = other@;
        let mut i: usize = 0;
        while i < other.clients.len()
            invariant
                i <= other.clients.len(),
                w == other@,
                ids_ranges_ok(w),
                self.wf(),
                forall|x: ID| #[trigger]
                    ids_contain(self@, x) <==> ids_contain(v0, x) || ids_contain(
                        w.subrange(0, i as int),
                        x,
                    ),
            decreases other.clients.len() - i,
        {
            let client: ClientID = other.clients[i].client;
            let ghost rs = other.clients[i as int].ranges@;
            assert(w[i as int] == (client, rs));
            let ghost v1 = self@;
            let mut j: usize = 0;
            while j < other.clients[i].ranges.len()
                invariant
                    i < other.clients.len(),
                    j <= other.clients[i as int].ranges.len(),
                    rs == other.clients[i as int].ranges@,
                    client == other.clients[i as int].client,
                    w == other@,
                    ids_ranges_ok(w),
                    self.wf(),
                    forall|x: ID| #[trigger]
                        ids_contain(self@, x) <==> ids_contain(v1, x) || (x.client == client
                            && covers(rs.subrange(0, j as int), x.clock as int)),
                decreases other.clients[i as int].ranges.len() - j,
            {
                let r: Range = other.clients[i].ranges[j];
                assert(w[i as int].1[j as int].wf());
                let ghost v2 = self@;
                self.insert(ID { client, clock: r.start }, r.len);
                proof {
                    let done = rs.subrange(0, j as int);
                    let next = rs.subrange(0, j + 1);
                    assert forall|x: ID| #[trigger]
                        ids_contain(self@, x) <==> ids_contain(v1, x) || (x.client == client
                            && covers(next, x.clock as int)) by {
                        let c = x.clock as int;
                        assert(ids_contain(v2, x) <==> ids_contain(v1, x) || (x.client == client
                            && covers(done, c)));
                        if covers(next, c) {
                            let k = choose|k: int| 0 <= k < next.len() && (#[trigger] next[k]).holds(c);
                            if k < j {
                                assert(done[k].holds(c));
                            }
                        }
                        if covers(done, c) {
                            let k = choose|k: int| 0 <= k < done.len() && (#[trigger] done[k]).holds(c);
                            assert(next[k].holds(c));
                        }
                        if x.within(ID { client, clock: r.start }, r.len as nat) {
                            assert(next[j as int].holds(c));
                        }
                    }
                }
                j = j + 1;
            }
            proof {
                assert(rs.subrange(0, j as int) =~= rs);
                let done = w.subrange(0, i as int);
                let next = w.subrange(0, i + 1);
                assert forall|x: ID| #[trigger]
                    ids_contain(self@, x) <==> ids_contain(v0, x) || ids_contain(next, x) by {
                    assert(ids_contain(v1, x) <==> ids_contain(v0, x) || ids_contain(done, x));
                    if ids_contain(next, x) {
                        let k = choose|k: int|
                            0 <= k < next.len() && (#[trigger] next[k]).0 == x.client && covers(
                                next[k].1,
                                x.clock as int,
                            );
                        if k < i {
                            assert(done[k].0 == x.client && covers(done[k].1, x.clock as int));
                        }
                    }
                    if ids_contain(done, x) {
                        let k = choose|k: int|
                            0 <= k < done.len() && (#[trigger] done[k]).0 == x.client && covers(
                                done[k].1,
                                x.clock as int,
                            );
                        assert(next[k].0 == x.client && covers(next[k].1, x.clock as int));
                    }
                    if x.client == client && covers(rs, x.clock as int) {
                        assert(next[i as int].0 == x.client && covers(
                            next[i as int].1,
                            x.clock as int,
                        ));
                    }
                }
            }
            i = i + 1;
        }
        assert(w.subrange(0, i as int) =~= w);
    }
}

/// A well-formed set has well-formed ranges.
pub proof fn lemma_ids_ranges_ok(v: IdSetView)
    requires
        ids_wf(v),
    ensures
        ids_ranges_ok(v),
{
    assert forall|i: int, j: int| 0 <= i < v.len() && 0 <= j < v[i].1.len() implies (
    #[trigger] v[i].1[j]).wf() by {
        assert(ranges_wf(v[i].1));
    }
}

impl IdSet {
    /// The set of the identifiers that the ranges hold. Ranges that are in
    /// order already are kept as they are.
    pub fn from_entries(clients: Vec<ClientRanges>) -> (r: IdSet)
        requires
            ids_ranges_ok((IdSet { clients })@),
        ensures
            r.wf(),
            same_ids(r@, (IdSet { clients })@),
            ids_wf((IdSet { clients })@) ==> r@ == (IdSet { clients })@,
    {
        let raw = IdSet { clients };
        if raw.check() {
            raw
        } else {
            let mut out = IdSet::new();
            let ghost empty = out@;
            out.merge(&raw);
            proof {
                assert forall|x: ID| !ids_contain(empty, x) by {}
            }
            out
        }
    }
}

/// The first range of well-formed ranges begins at the least clock that
/// they cover.
pub proof fn lemma_first_range(rs: Seq<Range>, c: int)
    requires
        ranges_wf(rs),
        covers(rs, c),
    ensures
        rs.len() > 0,
        rs[0].start <= c,
        !rs[0].holds(c) ==> rs[0].end() < c && covers(rs.drop_first(), c),
{
    let j = choose|j: int| 0 <= j < rs.len() && (#[trigger] rs[j]).holds(c);
    assert(rs[0].wf());
    if j > 0 {
        assert(rs[0].end() < rs[j].start);
        assert(rs.drop_first()[j - 1].holds(c));
    }
}

/// The ranges behind the first one are well formed and cover what lies
/// behind the first range.
pub proof fn lemma_rest_ranges(rs: Seq<Range>)
    requires
        ranges_wf(rs),
        rs.len() > 0,
    ensures
        ranges_wf(rs.drop_first()),
        forall|c: int| #[trigger] covers(rs.drop_first(), c) <==> covers(rs, c) && !rs[0].holds(c),
{
    let w = rs.drop_first();
    assert forall|i: int| 0 <= i < w.len() implies (#[trigger] w[i]).wf() by {
        assert(rs[i + 1].wf());
    }
    assert forall|i: int, j: int| 0 <= i < j < w.len() implies (#[trigger] w[i]).end() < (
    #[trigger] w[j]).start by {
        assert(rs[i + 1].end() < rs[j + 1].start);
    }
    assert forall|c: int| #[trigger] covers(w, c) <==> covers(rs, c) && !rs[0].holds(c) by {
        if covers(w, c) {
            let j = choose|j: int| 0 <= j < w.len() && (#[trigger] w[j]).holds(c);
            assert(rs[j + 1].holds(c));
            assert(rs[0].end() < rs[j + 1].start);
        }
        if covers(rs, c) && !rs[0].holds(c) {
            lemma_first_range(rs, c);
        }
    }
}

/// Well-formed ranges that cover the same clocks are the same ranges.
pub proof fn lemma_ranges_unique(a: Seq<Range>, b: Seq<Range>)
    requires
        ranges_wf(a),
        ranges_wf(b),
        forall|c: int| #[trigger] covers(a, c) <==> covers(b, c),
    ensures
        a == b,
    decreases a.len(),
{
    if a.len() == 0 {
        if b.len() > 0 {
            assert(b[0].wf());
            assert(b[0].holds(b[0].start as int));
            assert(covers(b, b[0].start as int));
            assert(covers(a, b[0].start as int));
        }
        assert(a =~= b);
    } else {
        assert(a[0].wf());
        assert(a[0].holds(a[0].start as int));
        assert(covers(a, a[0].start as int));
        assert(covers(b, a[0].start as int));
        lemma_first_range(b, a[0].start as int);
        assert(b[0].wf());
        assert(b[0].holds(b[0].start as int));
        assert(covers(b, b[0].start as int));
        assert(covers(a, b[0].start as int));
        lemma_first_range(a, b[0].start as int);
        assert(a[0].start == b[0].start);
        // the ends
        if a[0].end() < b[0].end() {
            let e = a[0].end();
            assert(b[0].holds(e));
            assert(covers(b, e));
            assert(covers(a, e));
            lemma_first_range(a, e);
        }
        if b[0].end() < a[0].end() {
            let e = b[0].end();
            assert(a[0].holds(e));
            assert(covers(a, e));
            assert(covers(b, e));
            lemma_first_range(b, e);
        }
        assert(a[0] == b[0]);
        lemma_rest_ranges(a);
        lemma_rest_ranges(b);
        lemma_ranges_unique(a.drop_first(), b.drop_first());
        assert(seq![a[0]] + a.drop_first() =~= a);
        assert(seq![b[0]] + b.drop_first() =~= b);
    }
}

/// The ranges that a set holds of a client cover the clocks of the
/// identifiers of that client in the set.
pub proof fn lemma_entry_covers(v: IdSetView, i: int, c: int)
    requires
        ids_wf(v),
        0 <= i < v.len(),
        0 <= c <= u32::MAX,
    ensures
        covers(v[i].1, c) <==> ids_contain(v, ID { client: v[i].0, clock: c as u32 }),
{
    let id = ID { client: v[i].0, clock: c as u32 };
    if ids_contain(v, id) {
        let k = choose|k: int|
            0 <= k < v.len() && (#[trigger] v[k]).0 == id.client && covers(v[k].1, id.clock as int);
        if k < i {
            assert(v[k].0 > v[i].0);
        } else if k > i {
            assert(v[i].0 > v[k].0);
        }
    }
}

/// Ranges cover clocks only.
pub proof fn lemma_covers_clock(rs: Seq<Range>, c: int)
    requires
        ranges_wf(rs),
        covers(rs, c),
    ensures
        0 <= c < u32::MAX,
{
    let j = choose|j: int| 0 <= j < rs.len() && (#[trigger] rs[j]).holds(c);
    assert(rs[j].wf());
}

/// Well-formed sets that hold the same identifiers are the same: a set of
/// identifiers has one form only.
pub proof fn lemma_ids_unique(a: IdSetView, b: IdSetView)
    requires
        ids_wf(a),
        ids_wf(b),
        same_ids(a, b),
    ensures
        a == b,
    decreases a.len(),
{
    if a.len() == 0 {
        if b.len() > 0 {
            assert(ranges_wf(b[0].1) && b[0].1.len() >= 1);
            assert(b[0].1[0].wf());
            let id = ID { client: b[0].0, clock: b[0].1[0].start };
            assert(b[0].1[0].holds(id.clock as int));
            assert(b[0].0 == id.client && covers(b[0].1, id.clock as int));
            assert(ids_contain(b, id));
            assert(ids_contain(a, id));
        }
        assert(a =~= b);
    } else {
        assert(ranges_wf(a[0].1) && a[0].1.len() >= 1);
        assert(a[0].1[0].wf());
        let ida = ID { client: a[0].0, clock: a[0].1[0].start };
        assert(a[0].1[0].holds(ida.clock as int));
        assert(a[0].0 == ida.client && covers(a[0].1, ida.clock as int));
        assert(ids_contain(a, ida));
        assert(ids_contain(b, ida));
        let kb = choose|k: int|
            0 <= k < b.len() && (#[trigger] b[k]).0 == ida.client && covers(b[k].1, ida.clock as int);
        assert(ranges_wf(b[0].1) && b[0].1.len() >= 1);
        assert(b[0].1[0].wf());
        let idb = ID { client: b[0].0, clock: b[0].1[0].start };
        assert(b[0].1[0].holds(idb.clock as int));
        assert(b[0].0 == idb.client && covers(b[0].1, idb.clock as int));
        assert(ids_contain(b, idb));
        assert(ids_contain(a, idb));
        let ka = choose|k: int|
            0 <= k < a.len() && (#[trigger] a[k]).0 == idb.client && covers(a[k].1, idb.clock as int);
        if kb > 0 {
            assert(b[0].0 > b[kb].0);
        }
        if ka > 0 {
            assert(a[0].0 > a[ka].0);
        }
        assert(a[0].0 == b[0].0);
        assert forall|c: int| #[trigger] covers(a[0].1, c) <==> covers(b[0].1, c) by {
            if covers(a[0].1, c) {
                lemma_covers_clock(a[0].1, c);
                lemma_entry_covers(a, 0, c);
                lemma_entry_covers(b, 0, c);
                assert(ids_contain(b, ID { client: a[0].0, clock: c as u32 }));
            }
            if covers(b[0].1, c) {
                lemma_covers_clock(b[0].1, c);
                lemma_entry_covers(a, 0, c);
                lemma_entry_covers(b, 0, c);
                assert(ids_contain(a, ID { client: a[0].0, clock: c as u32 }));
            }
        }
        lemma_ranges_unique(a[0].1, b[0].1);
        let wa = a.drop_first();
        let wb = b.drop_first();
        lemma_rest_ids(a);
        lemma_rest_ids(b);
        assert forall|x: ID| #[trigger] ids_contain(wa, x) <==> ids_contain(wb, x) by {
            assert(ids_contain(a, x) <==> ids_contain(b, x));
        }
        lemma_ids_unique(wa, wb);
        assert(seq![a[0]] + wa =~= a);
        assert(seq![b[0]] + wb =~= b);
    }
}

/// The clients behind the first one form a well-formed set, which holds
/// the identifiers of the other clients.
pub proof fn lemma_rest_ids(v: IdSetView)
    requires
        ids_wf(v),
        v.len() > 0,
    ensures
        ids_wf(v.drop_first()),
        forall|x: ID| #[trigger]
            ids_contain(v.drop_first(), x) <==> ids_contain(v, x) && x.client != v[0].0,
{
    let w = v.drop_first();
    assert forall|i: int| 0 <= i < w.len() implies ranges_wf((#[trigger] w[i]).1) && w[i].1.len()
        >= 1 by {
        assert(ranges_wf(v[i + 1].1));
    }
    assert forall|i: int, j: int| 0 <= i < j < w.len() implies (#[trigger] w[i]).0 > (
    #[trigger] w[j]).0 by {
        assert(v[i + 1].0 > v[j + 1].0);
    }
    assert forall|x: ID| #[trigger]
        ids_contain(w, x) <==> ids_contain(v, x) && x.client != v[0].0 by {
        if ids_contain(w, x) {
            let k = choose|k: int|
                0 <= k < w.len() && (#[trigger] w[k]).0 == x.client && covers(
                    w[k].1,
                    x.clock as int,
                );
            assert(v[k + 1].0 == x.client && covers(v[k + 1].1, x.clock as int));
            assert(v[0].0 > v[k + 1].0);
        }
        if ids_contain(v, x) && x.client != v[0].0 {
            let k = choose|k: int|
                0 <= k < v.len() && (#[trigger] v[k]).0 == x.client && covers(
                    v[k].1,
                    x.clock as int,
                );
            assert(w[k - 1].0 == x.client && covers(w[k - 1].1, x.clock as int));
        }
    }
}

/// Sets of identifiers merge to the same set in either order: what comes
/// of adding `b` to `a` is what comes of adding `a` to `b`.
pub proof fn law_merge_order(a: IdSetView, b: IdSetView, ab: IdSetView, ba: IdSetView)
    requires
        ids_wf(ab),
        ids_wf(ba),
        forall|x: ID| #[trigger] ids_contain(ab, x) <==> ids_contain(a, x) || ids_contain(b, x),
        forall|x: ID| #[trigger] ids_contain(ba, x) <==> ids_contain(b, x) || ids_contain(a, x),
    ensures
        ab == ba,
{
    assert forall|x: ID| #[trigger] ids_contain(ab, x) <==> ids_contain(ba, x) by {
        assert(ids_contain(ab, x) <==> ids_contain(a, x) || ids_contain(b, x));
        assert(ids_contain(ba, x) <==> ids_contain(b, x) || ids_contain(a, x));
    }
    lemma_ids_unique(ab, ba);
}

/// Identifiers that a set holds already are taken in without a trace:
/// the set with them added is the set.
pub proof fn law_insert_again(s: IdSetView, id: ID, len: nat, t: IdSetView)
    requires
        ids_wf(s),
        ids_wf(t),
        forall|x: ID| x.within(id, len) ==> ids_contain(s, x),
        forall|x: ID| #[trigger] ids_contain(t, x) <==> ids_contain(s, x) || x.within(id, len),
    ensures
        t == s,
{
    assert forall|x: ID| #[trigger] ids_contain(t, x) <==> ids_contain(s, x) by {
        assert(ids_contain(t, x) <==> ids_contain(s, x) || x.within(id, len));
    }
    lemma_ids_unique(t, s);
}

} // verus!
