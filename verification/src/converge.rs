//! Blocks that were made side by side come to stand in one order, and the
//! updates that hold them bring a replica to the same store, whichever of
//! them it applies first.

use crate::block::ItemView;
use crate::determined::{
    lemma_core_names, lemma_same_on, lemma_same_place, lemma_took_same, same_core, same_name,
    same_type,
};
use crate::id::{ClientID, ID};
use crate::id_set::{ids_contain, lemma_ids_unique, IdSetView};
use crate::roundtrip::flatten;
use crate::store::{
    applied, came, first_index, lemma_chain_span, lemma_takes_clients, lemma_takes_same,
    lemma_yata_same, passed, placed, rounds, run, scan_start, scan_stop, settled, spanned, step,
    took, Store,
};
use crate::update::{items_view, lemma_chain_at, UpdateView};
use vstd::prelude::*;

verus! {

/// What taking the block `it` into the container `seq` makes of the store
/// `s0`: the block stands at the end of the blocks of its client, and its
/// positions stand in the container at the place that the scan gives.
pub open spec fn integrated(s0: Store, it: ItemView, seq: int, s1: Store) -> bool {
    &&& s1.wf()
    &&& s1.items_of(it.id.client) == s0.items_of(it.id.client).push(it)
    &&& forall|c: ClientID| c != it.id.client ==> #[trigger] s1.items_of(c) == s0.items_of(c)
    &&& s1.types.len() == s0.types.len()
    &&& s1.order_of(seq) == placed(s0.order_of(seq), s0.place(seq, it), it.id, it.len())
    &&& forall|k: int| 0 <= k < s0.types.len() && k != seq ==> #[trigger] s1.types[k] == s0.types[k]
}

/// The position `j` of a block.
pub open spec fn pos(it: ItemView, j: int) -> ID {
    ID { client: it.id.client, clock: (it.id.clock + j) as u32 }
}

/// Where an identifier stands first is where it stands and did not stand
/// before.
pub proof fn lemma_first_index_found(order: Seq<ID>, id: ID, from: int, to: int, k: int)
    requires
        0 <= from <= k < to,
        k < order.len(),
        order[k] == id,
        forall|i: int| from <= i < k ==> #[trigger] order[i] != id,
    ensures
        first_index(order, id, from, to) == Some(k),
    decreases k - from,
{
    if from < k {
        assert(order[from] != id);
        lemma_first_index_found(order, id, from + 1, to, k);
    }
}

pub proof fn lemma_first_index_none(order: Seq<ID>, id: ID, from: int, to: int)
    requires
        0 <= from,
        forall|i: int| from <= i < to && i < order.len() ==> #[trigger] order[i] != id,
    ensures
        first_index(order, id, from, to) is None,
    decreases to - from,
{
    if from < to && from < order.len() {
        assert(order[from] != id);
        lemma_first_index_none(order, id, from + 1, to);
    }
}

pub proof fn lemma_first_index_is(order: Seq<ID>, id: ID, from: int, to: int)
    requires
        0 <= from,
    ensures
        match first_index(order, id, from, to) {
            Some(k) => from <= k < to && k < order.len() && order[k] == id && forall|i: int|
                from <= i < k ==> #[trigger] order[i] != id,
            None => forall|i: int| from <= i < to && i < order.len() ==> #[trigger] order[i] != id,
        },
    decreases to - from,
{
    if from >= to || from >= order.len() {
    } else if order[from] == id {
    } else {
        lemma_first_index_is(order, id, from + 1, to);
    }
}

/// The positions of a block that a store has taken in last for its client
/// belong to the block: the first names the left neighbour of the block,
/// every other one the position before it, and all name the right
/// neighbour of the block.
pub proof fn lemma_new_positions(s0: Store, it: ItemView, seq: int, s1: Store, j: int)
    requires
        integrated(s0, it, seq, s1),
        it.wf(),
        0 <= j < it.len(),
    ensures
        s1.knows(pos(it, j)),
        s1.origin_of(pos(it, j)) == (if j == 0 {
            it.origin
        } else {
            Some(pos(it, j - 1))
        }),
        s1.right_origin_of(pos(it, j)) == it.right_origin,
{
    let client = it.id.client;
    let items = s1.items_of(client);
    let n = s0.items_of(client).len() as int;
    s1.lemma_items_chain(client);
    assert(items[n] == it);
    lemma_chain_span(items, client, 0, n, it.id.clock + j);
}

/// A block passes the positions of a block of a smaller client that names
/// the same left neighbour.
pub proof fn lemma_pass(
    s: Store,
    order: Seq<ID>,
    me: ItemView,
    other: ItemView,
    start: int,
    j: int,
)
    requires
        0 <= start,
        0 <= j <= other.len(),
        start + other.len() <= order.len(),
        forall|i: int| 0 <= i < other.len() ==> #[trigger] order[start + i] == pos(other, i),
        forall|i: int| 0 <= i < other.len() ==> #[trigger] s.knows(pos(other, i)),
        forall|i: int|
            0 <= i < other.len() ==> #[trigger] s.origin_of(pos(other, i)) == (if i == 0 {
                other.origin
            } else {
                Some(pos(other, i - 1))
            }),
        other.origin == me.origin,
        other.id.client < me.id.client,
        other.end() <= u32::MAX,
        forall|i: int| 0 <= i < other.len() ==> me.origin != Some(#[trigger] pos(other, i)),
    ensures
        s.yata(order, me, start, start + other.len(), start + j, start + j) == start + other.len(),
    decreases other.len() - j,
{
    let stop = start + other.len();
    let cur = start + j;
    if j < other.len() {
        let o = order[cur];
        assert(o == pos(other, j));
        assert(s.knows(pos(other, j)));
        assert(s.origin_of(pos(other, j)) == (if j == 0 {
            other.origin
        } else {
            Some(pos(other, j - 1))
        }));
        if j == 0 {
        } else {
            let prev = pos(other, j - 1);
            assert(me.origin != Some(prev));
            assert(order[start + (j - 1)] == prev);
            assert forall|i: int| start <= i < cur - 1 implies #[trigger] order[i] != prev by {
                assert(order[start + (i - start)] == pos(other, i - start));
            }
            lemma_first_index_found(order, prev, start, cur, cur - 1);
        }
        lemma_pass(s, order, me, other, start, j + 1);
    }
}

/// A block stops before the positions of a block of a greater client that
/// names the same neighbours.
pub proof fn lemma_stop(s: Store, order: Seq<ID>, me: ItemView, other: ItemView, start: int, stop: int)
    requires
        0 <= start < order.len(),
        start != stop,
        order[start] == pos(other, 0),
        s.knows(pos(other, 0)),
        s.origin_of(pos(other, 0)) == other.origin,
        s.right_origin_of(pos(other, 0)) == other.right_origin,
        other.origin == me.origin,
        other.right_origin == me.right_origin,
        other.id.client > me.id.client,
    ensures
        s.yata(order, me, start, stop, start, start) == start,
{
}

/// Whether two blocks were made side by side in the container `seq` of a
/// store that has neither: they belong to two clients, are next for them,
/// name the same neighbours, which the store has and which stand side by
/// side, and every position of the container is one that the store has.
pub open spec fn side_by_side(s: Store, seq: int, x: ItemView, y: ItemView) -> bool {
    let order = s.order_of(seq);
    &&& s.wf()
    &&& 0 <= seq < s.types.len()
    &&& x.wf()
    &&& y.wf()
    &&& x.id.client != y.id.client
    &&& x.id.clock == s.state(x.id.client)
    &&& y.id.clock == s.state(y.id.client)
    &&& x.origin == y.origin
    &&& x.right_origin == y.right_origin
    &&& forall|i: int| 0 <= i < order.len() ==> s.knows(#[trigger] order[i])
    &&& x.origin matches Some(o) ==> first_index(order, o, 0, order.len() as int) is Some
    &&& x.right_origin matches Some(r) ==> first_index(order, r, 0, order.len() as int) is Some
    &&& scan_start(order, x.origin) == scan_stop(order, x.right_origin)
}

/// The order of a container with the positions of the block with the
/// smaller client, and behind them those of the other block, put in at
/// the place `at`.
pub open spec fn both_placed(order: Seq<ID>, at: int, x: ItemView, y: ItemView) -> Seq<ID> {
    if x.id.client < y.id.client {
        order.subrange(0, at) + run(x.id, x.len()) + run(y.id, y.len()) + order.subrange(
            at,
            order.len() as int,
        )
    } else {
        order.subrange(0, at) + run(y.id, y.len()) + run(x.id, x.len()) + order.subrange(
            at,
            order.len() as int,
        )
    }
}

/// Taking in the block `x` and then the block `y`, made side by side,
/// puts the positions of both where they were made, those of the smaller
/// client first.
pub proof fn lemma_two_blocks(s0: Store, seq: int, x: ItemView, y: ItemView, s1: Store, s2: Store)
    requires
        side_by_side(s0, seq, x, y),
        integrated(s0, x, seq, s1),
        integrated(s1, y, seq, s2),
    ensures
        s2.order_of(seq) == both_placed(
            s0.order_of(seq),
            scan_start(s0.order_of(seq), x.origin),
            x,
            y,
        ),
{
    let o0 = s0.order_of(seq);
    let start = scan_start(o0, x.origin);
    let n = o0.len() as int;
    let lx = x.len() as int;
    lemma_first_index_is(o0, x.origin.unwrap(), 0, n);
    lemma_first_index_is(o0, x.right_origin.unwrap(), 0, n);
    assert(0 <= start <= n);
    // the first block goes where it was made
    assert(s0.place(seq, x) == start);
    let o1 = s1.order_of(seq);
    assert(o1 == placed(o0, start, x.id, x.len()));
    assert(o1.len() == n + lx);
    assert forall|i: int| 0 <= i < lx implies #[trigger] o1[start + i] == pos(x, i) by {}
    assert forall|i: int| 0 <= i < start implies #[trigger] o1[i] == o0[i] by {}
    assert forall|i: int| start <= i < n implies #[trigger] o1[i + lx] == o0[i] by {}
    // no position of the first block stood in the container or is named by the second
    assert forall|i: int, k: int| 0 <= i < lx && 0 <= k < n implies #[trigger] o0[k] != #[trigger] pos(
        x,
        i,
    ) by {
        assert(s0.knows(o0[k]));
        s0.lemma_knows(pos(x, i));
    }
    assert forall|i: int| 0 <= i < lx implies y.origin != Some(#[trigger] pos(x, i))
        && y.right_origin != Some(pos(x, i)) by {
        s0.lemma_knows(pos(x, i));
        if y.origin == Some(pos(x, i)) {
            let k = first_index(o0, pos(x, i), 0, n).unwrap();
            assert(o0[k] != pos(x, i));
        }
        if y.right_origin == Some(pos(x, i)) {
            let k = first_index(o0, pos(x, i), 0, n).unwrap();
            assert(o0[k] != pos(x, i));
        }
    }
    // where the scan for the second block begins and ends
    assert(scan_start(o1, y.origin) == start) by {
        match y.origin {
            Some(o) => {
                let k = first_index(o0, o, 0, n).unwrap();
                assert(k == start - 1);
                assert(o1[k] == o);
                assert forall|i: int| 0 <= i < k implies #[trigger] o1[i] != o by {
                    assert(o0[i] != o);
                }
                lemma_first_index_found(o1, o, 0, o1.len() as int, k);
            },
            None => {},
        }
    }
    assert(scan_stop(o1, y.right_origin) == start + lx) by {
        match y.right_origin {
            Some(r) => {
                let k = first_index(o0, r, 0, n).unwrap();
                assert(k == start);
                assert(o1[k + lx] == r);
                assert forall|i: int| 0 <= i < k + lx implies #[trigger] o1[i] != r by {
                    if i < start {
                        assert(o0[i] != r);
                    } else {
                        assert(o1[start + (i - start)] == pos(x, i - start));
                    }
                }
                lemma_first_index_found(o1, r, 0, o1.len() as int, k + lx);
            },
            None => {},
        }
    }
    assert forall|i: int| 0 <= i < lx implies #[trigger] s1.knows(pos(x, i)) by {
        lemma_new_positions(s0, x, seq, s1, i);
    }
    assert forall|i: int| 0 <= i < lx implies #[trigger] s1.origin_of(pos(x, i)) == (if i == 0 {
        x.origin
    } else {
        Some(pos(x, i - 1))
    }) by {
        lemma_new_positions(s0, x, seq, s1, i);
    }
    lemma_new_positions(s0, x, seq, s1, 0);
    let dest = s1.place(seq, y);
    if x.id.client < y.id.client {
        lemma_pass(s1, o1, y, x, start, 0);
        assert(dest == start + lx);
    } else {
        lemma_stop(s1, o1, y, x, start, start + lx);
        assert(dest == start);
    }
    assert(s2.order_of(seq) == placed(o1, dest, y.id, y.len()));
    assert(s2.order_of(seq) =~= both_placed(o0, start, x, y));
}

/// Two blocks that were made side by side come to stand in the same
/// order, whichever of them a replica takes in first.
pub proof fn law_two_blocks_converge(
    s0: Store,
    seq: int,
    x: ItemView,
    y: ItemView,
    sx: Store,
    sxy: Store,
    sy: Store,
    syx: Store,
)
    requires
        side_by_side(s0, seq, x, y),
        integrated(s0, x, seq, sx),
        integrated(sx, y, seq, sxy),
        integrated(s0, y, seq, sy),
        integrated(sy, x, seq, syx),
    ensures
        sxy.order_of(seq) == syx.order_of(seq),
        forall|c: ClientID| #[trigger] sxy.items_of(c) == syx.items_of(c),
{
    lemma_two_blocks(s0, seq, x, y, sx, sxy);
    assert(side_by_side(s0, seq, y, x));
    lemma_two_blocks(s0, seq, y, x, sy, syx);
    assert forall|c: ClientID| #[trigger] sxy.items_of(c) == syx.items_of(c) by {
        assert(sx.items_of(c) == s0.items_of(c) || c == x.id.client);
        assert(sy.items_of(c) == s0.items_of(c) || c == y.id.client);
        if c == x.id.client {
            assert(sy.items_of(c) == s0.items_of(c));
            assert(sxy.items_of(c) == sx.items_of(c));
        } else if c == y.id.client {
            assert(sx.items_of(c) == s0.items_of(c));
            assert(syx.items_of(c) == sy.items_of(c));
        } else {
            assert(sxy.items_of(c) == sx.items_of(c));
            assert(syx.items_of(c) == sy.items_of(c));
        }
    }
}

/// The positions that a store had keep what they name when a block is
/// taken in.
pub proof fn lemma_old_positions(s0: Store, it: ItemView, seq: int, s1: Store, id: ID)
    requires
        integrated(s0, it, seq, s1),
        s0.wf(),
        s0.knows(id),
    ensures
        s1.knows(id),
        s1.origin_of(id) == s0.origin_of(id),
        s1.right_origin_of(id) == s0.right_origin_of(id),
{
    let client = it.id.client;
    if id.client == client {
        s1.lemma_items_chain(client);
        crate::store::lemma_push_keeps(s0.items_of(client), client, it, id.clock as int);
    }
}

/// The scan for the place of a block looks only at the positions that
/// stand in the container.
pub proof fn lemma_yata_agree(
    a: Store,
    b: Store,
    order: Seq<ID>,
    me: ItemView,
    start: int,
    stop: int,
    cur: int,
    dest: int,
)
    requires
        forall|i: int| 0 <= i < order.len() ==> a.knows(#[trigger] order[i]) && b.knows(order[i])
            && b.origin_of(order[i]) == a.origin_of(order[i]) && b.right_origin_of(order[i])
            == a.right_origin_of(order[i]),
    ensures
        b.yata(order, me, start, stop, cur, dest) == a.yata(order, me, start, stop, cur, dest),
    decreases order.len() - cur,
{
    if cur < 0 || cur >= order.len() || cur == stop {
    } else {
        assert(a.knows(order[cur]) && b.knows(order[cur]));
        lemma_yata_agree(a, b, order, me, start, stop, cur + 1, cur + 1);
        lemma_yata_agree(a, b, order, me, start, stop, cur + 1, dest);
    }
}

/// Whether two blocks were made apart, in two containers of a store that
/// has neither: they belong to two clients and are next for them, and
/// every position of the two containers is one that the store has.
pub open spec fn apart(s: Store, p: int, x: ItemView, q: int, y: ItemView) -> bool {
    &&& s.wf()
    &&& 0 <= p < s.types.len()
    &&& 0 <= q < s.types.len()
    &&& p != q
    &&& x.wf()
    &&& y.wf()
    &&& x.id.client != y.id.client
    &&& x.id.clock == s.state(x.id.client)
    &&& y.id.clock == s.state(y.id.client)
    &&& forall|i: int| 0 <= i < s.order_of(p).len() ==> s.knows(#[trigger] s.order_of(p)[i])
    &&& forall|i: int| 0 <= i < s.order_of(q).len() ==> s.knows(#[trigger] s.order_of(q)[i])
}

/// A block takes the place in its container that it would have taken
/// before a block was taken into another container.
pub proof fn lemma_apart(s0: Store, p: int, x: ItemView, q: int, y: ItemView, sy: Store)
    requires
        apart(s0, p, x, q, y),
        integrated(s0, y, q, sy),
    ensures
        sy.order_of(p) == s0.order_of(p),
        sy.place(p, x) == s0.place(p, x),
{
    let order = s0.order_of(p);
    assert(sy.types[p] == s0.types[p]);
    assert forall|i: int| 0 <= i < order.len() implies s0.knows(#[trigger] order[i]) && sy.knows(
        order[i],
    ) && sy.origin_of(order[i]) == s0.origin_of(order[i]) && sy.right_origin_of(order[i])
        == s0.right_origin_of(order[i]) by {
        lemma_old_positions(s0, y, q, sy, order[i]);
    }
    let start = scan_start(order, x.origin);
    lemma_yata_agree(s0, sy, order, x, start, scan_stop(order, x.right_origin), start, start);
}

/// Two blocks that were made in two containers come to stand at the same
/// places, whichever of them a replica takes in first.
pub proof fn law_apart_converge(
    s0: Store,
    p: int,
    x: ItemView,
    q: int,
    y: ItemView,
    sx: Store,
    sxy: Store,
    sy: Store,
    syx: Store,
)
    requires
        apart(s0, p, x, q, y),
        integrated(s0, x, p, sx),
        integrated(sx, y, q, sxy),
        integrated(s0, y, q, sy),
        integrated(sy, x, p, syx),
    ensures
        sxy.order_of(p) == syx.order_of(p),
        sxy.order_of(q) == syx.order_of(q),
        forall|c: ClientID| #[trigger] sxy.items_of(c) == syx.items_of(c),
{
    lemma_apart(s0, p, x, q, y, sy);
    assert(apart(s0, q, y, p, x));
    lemma_apart(s0, q, y, p, x, sx);
    assert(sxy.types[p] == sx.types[p]);
    assert(syx.types[q] == sy.types[q]);
    assert forall|c: ClientID| #[trigger] sxy.items_of(c) == syx.items_of(c) by {
        if c == x.id.client {
            assert(sy.items_of(c) == s0.items_of(c));
            assert(sxy.items_of(c) == sx.items_of(c));
        } else if c == y.id.client {
            assert(sx.items_of(c) == s0.items_of(c));
            assert(syx.items_of(c) == sy.items_of(c));
        } else {
            assert(sx.items_of(c) == s0.items_of(c));
            assert(sy.items_of(c) == s0.items_of(c));
            assert(sxy.items_of(c) == sx.items_of(c));
            assert(syx.items_of(c) == sy.items_of(c));
        }
    }
}

/// Whether the block `x` was made in a gap of the container `seq` of a
/// store that does not have it: the neighbours that it names are
/// positions of the container, or none, and stand side by side.
pub open spec fn in_gap(s: Store, seq: int, x: ItemView) -> bool {
    let order = s.order_of(seq);
    &&& x.wf()
    &&& x.id.clock == s.state(x.id.client)
    &&& x.origin matches Some(o) ==> first_index(order, o, 0, order.len() as int) is Some
    &&& x.right_origin matches Some(r) ==> first_index(order, r, 0, order.len() as int) is Some
    &&& scan_start(order, x.origin) == scan_stop(order, x.right_origin)
}

/// Whether two blocks were made in two gaps of the container `seq` of a
/// store that has neither, and in which every position of the container
/// is one that the store has.
pub open spec fn two_gaps(s: Store, seq: int, x: ItemView, y: ItemView) -> bool {
    let order = s.order_of(seq);
    &&& s.wf()
    &&& 0 <= seq < s.types.len()
    &&& in_gap(s, seq, x)
    &&& in_gap(s, seq, y)
    &&& x.id.client != y.id.client
    &&& forall|i: int| 0 <= i < order.len() ==> s.knows(#[trigger] order[i])
    &&& scan_start(order, x.origin) != scan_start(order, y.origin)
}

/// The order of a container with the positions of two blocks put in at
/// the places `gx` and `gy`.
pub open spec fn both_gaps(order: Seq<ID>, gx: int, x: ItemView, gy: int, y: ItemView) -> Seq<ID> {
    if gx < gy {
        order.subrange(0, gx) + run(x.id, x.len()) + order.subrange(gx, gy) + run(y.id, y.len())
            + order.subrange(gy, order.len() as int)
    } else {
        order.subrange(0, gy) + run(y.id, y.len()) + order.subrange(gy, gx) + run(x.id, x.len())
            + order.subrange(gx, order.len() as int)
    }
}

/// Taking in the block `x` and then the block `y`, made in two gaps, puts
/// the positions of each into its gap.
pub proof fn lemma_two_gaps(s0: Store, seq: int, x: ItemView, y: ItemView, s1: Store, s2: Store)
    requires
        two_gaps(s0, seq, x, y),
        integrated(s0, x, seq, s1),
        integrated(s1, y, seq, s2),
    ensures
        s2.order_of(seq) == both_gaps(
            s0.order_of(seq),
            scan_start(s0.order_of(seq), x.origin),
            x,
            scan_start(s0.order_of(seq), y.origin),
            y,
        ),
{
    let o0 = s0.order_of(seq);
    let n = o0.len() as int;
    let gx = scan_start(o0, x.origin);
    let gy = scan_start(o0, y.origin);
    let lx = x.len() as int;
    lemma_first_index_is(o0, x.origin.unwrap(), 0, n);
    lemma_first_index_is(o0, x.right_origin.unwrap(), 0, n);
    lemma_first_index_is(o0, y.origin.unwrap(), 0, n);
    lemma_first_index_is(o0, y.right_origin.unwrap(), 0, n);
    assert(0 <= gx <= n && 0 <= gy <= n);
    assert(s0.place(seq, x) == gx);
    let o1 = s1.order_of(seq);
    assert(o1 == placed(o0, gx, x.id, x.len()));
    assert(o1.len() == n + lx);
    assert forall|i: int| 0 <= i < lx implies #[trigger] o1[gx + i] == pos(x, i) by {}
    assert forall|i: int| 0 <= i < gx implies #[trigger] o1[i] == o0[i] by {}
    assert forall|i: int| gx <= i < n implies #[trigger] o1[i + lx] == o0[i] by {}
    assert forall|i: int, k: int| 0 <= i < lx && 0 <= k < n implies #[trigger] o0[k] != #[trigger] pos(
        x,
        i,
    ) by {
        assert(s0.knows(o0[k]));
        s0.lemma_knows(pos(x, i));
    }
    let d = if gy < gx {
        gy
    } else {
        gy + lx
    };
    assert(scan_start(o1, y.origin) == d) by {
        match y.origin {
            Some(o) => {
                let k = first_index(o0, o, 0, n).unwrap();
                assert(k == gy - 1);
                if gy < gx {
                    assert(o1[k] == o);
                    assert forall|i: int| 0 <= i < k implies #[trigger] o1[i] != o by {
                        assert(o0[i] != o);
                    }
                    lemma_first_index_found(o1, o, 0, o1.len() as int, k);
                } else {
                    assert(o1[k + lx] == o);
                    assert forall|i: int| 0 <= i < k + lx implies #[trigger] o1[i] != o by {
                        if i < gx {
                            assert(o0[i] != o);
                        } else if i < gx + lx {
                            assert(o1[gx + (i - gx)] == pos(x, i - gx));
                            assert(o0[k] != pos(x, i - gx));
                        } else {
                            assert(o1[(i - lx) + lx] == o0[i - lx]);
                            assert(o0[i - lx] != o);
                        }
                    }
                    lemma_first_index_found(o1, o, 0, o1.len() as int, k + lx);
                }
            },
            None => {},
        }
    }
    assert(scan_stop(o1, y.right_origin) == d) by {
        match y.right_origin {
            Some(r) => {
                let k = first_index(o0, r, 0, n).unwrap();
                assert(k == gy);
                if gy < gx {
                    assert(o1[k] == r);
                    assert forall|i: int| 0 <= i < k implies #[trigger] o1[i] != r by {
                        assert(o0[i] != r);
                    }
                    lemma_first_index_found(o1, r, 0, o1.len() as int, k);
                } else {
                    assert(o1[k + lx] == r);
                    assert forall|i: int| 0 <= i < k + lx implies #[trigger] o1[i] != r by {
                        if i < gx {
                            assert(o0[i] != r);
                        } else if i < gx + lx {
                            assert(o1[gx + (i - gx)] == pos(x, i - gx));
                            assert(o0[k] != pos(x, i - gx));
                        } else {
                            assert(o1[(i - lx) + lx] == o0[i - lx]);
                            assert(o0[i - lx] != r);
                        }
                    }
                    lemma_first_index_found(o1, r, 0, o1.len() as int, k + lx);
                }
            },
            None => {},
        }
    }
    assert(s1.place(seq, y) == d);
    assert(s2.order_of(seq) == placed(o1, d, y.id, y.len()));
    assert(s2.order_of(seq) =~= both_gaps(o0, gx, x, gy, y));
}

/// Two blocks that were made in two gaps of a container come to stand in
/// their gaps, whichever of them a replica takes in first.
pub proof fn law_two_gaps_converge(
    s0: Store,
    seq: int,
    x: ItemView,
    y: ItemView,
    sx: Store,
    sxy: Store,
    sy: Store,
    syx: Store,
)
    requires
        two_gaps(s0, seq, x, y),
        integrated(s0, x, seq, sx),
        integrated(sx, y, seq, sxy),
        integrated(s0, y, seq, sy),
        integrated(sy, x, seq, syx),
    ensures
        sxy.order_of(seq) == syx.order_of(seq),
        forall|c: ClientID| #[trigger] sxy.items_of(c) == syx.items_of(c),
{
    lemma_two_gaps(s0, seq, x, y, sx, sxy);
    assert(two_gaps(s0, seq, y, x));
    lemma_two_gaps(s0, seq, y, x, sy, syx);
    assert forall|c: ClientID| #[trigger] sxy.items_of(c) == syx.items_of(c) by {
        if c == x.id.client {
            assert(sy.items_of(c) == s0.items_of(c));
            assert(sxy.items_of(c) == sx.items_of(c));
        } else if c == y.id.client {
            assert(sx.items_of(c) == s0.items_of(c));
            assert(syx.items_of(c) == sy.items_of(c));
        } else {
            assert(sx.items_of(c) == s0.items_of(c));
            assert(sy.items_of(c) == s0.items_of(c));
            assert(sxy.items_of(c) == sx.items_of(c));
            assert(syx.items_of(c) == sy.items_of(c));
        }
    }
}

/// Whether the update holds the block `x` and nothing else.
pub open spec fn one_block(u: UpdateView, x: ItemView) -> bool {
    u.blocks.len() == 1 && u.blocks[0].items == seq![x] && u.delete_set.len() == 0
}

/// Every round leaves fewer blocks waiting than it found.
pub proof fn lemma_rounds_shrink(s: Store, w0: Seq<ItemView>, k: int, s1: Store, w1: Seq<ItemView>)
    requires
        0 <= k,
        rounds(s, w0, k, s1, w1),
    ensures
        w1.len() + k <= w0.len(),
    decreases k,
{
    reveal(rounds);
    if k > 0 {
        let (sm, wm) = choose|sm: Store, wm: Seq<ItemView>|
            rounds(s, w0, k - 1, sm, wm) && #[trigger] passed(sm, wm, wm.len() as int, s1, w1)
                && w1.len() < wm.len();
        lemma_rounds_shrink(s, w0, k - 1, sm, wm);
    }
}

/// A store in which nothing waits comes to rest over one block that it
/// can take in by taking it in, and nothing waits then.
pub proof fn lemma_settled_one(a: Store, x: ItemView, b: Store, rest: Seq<ItemView>)
    requires
        a.takes(x),
        x.id.clock == a.state(x.id.client),
        settled(a, seq![x], b, rest),
    ensures
        took(a, x, b),
        rest.len() == 0,
{
    let w = seq![x];
    let (k, sm, wm) = choose|k: int, sm: Store, wm: Seq<ItemView>|
        0 <= k && #[trigger] rounds(a, w, k, sm, wm) && passed(sm, wm, wm.len() as int, b, rest)
            && rest.len() == wm.len();
    lemma_rounds_shrink(a, w, k, sm, wm);
    lemma_rounds_back(a, w, k, sm, wm);
    if k == 0 {
        lemma_pass_taken(a, x, b, rest);
    }
    assert(k == 1);
    let (p, q) = choose|p: Store, q: Seq<ItemView>|
        rounds(a, w, 0, p, q) && #[trigger] passed(p, q, q.len() as int, sm, wm) && wm.len()
            < q.len();
    lemma_rounds_back(a, w, 0, p, q);
    lemma_pass_taken(a, x, sm, wm);
    lemma_passed_back(sm, wm, 0, b, rest);
}

/// Applying an update that holds one block, to a store in which nothing
/// waits and which can take the block in, takes the block in, and
/// nothing waits then.
pub proof fn lemma_apply_block(s0: Store, u: UpdateView, x: ItemView, s1: Store)
    requires
        s0.pending.len() == 0,
        s0.pending_ds@.len() == 0,
        one_block(u, x),
        s0.takes(x),
        x.id.clock == s0.state(x.id.client),
        applied(s0, u, s1),
    ensures
        took(s0, x, s1),
        s1.pending.len() == 0,
        s1.pending_ds@.len() == 0,
{
    let (a, b, m) = choose|a: Store, b: Store, m: IdSetView| #[trigger] came(s0, u, a, b, m, s1);
    lemma_came_settled(s0, u, a, b, m, s1);
    lemma_one_flat(u, x);
    assert(items_view(s0.pending@) + flatten(u.blocks) =~= seq![x]);
    lemma_takes_clients(s0, a, x);
    lemma_settled_one(a, x, b, items_view(s1.pending@));
    lemma_unmarked(s0, u, a, b, m, s1);
    lemma_took_along(a, x, b, s0, s1);
}

/// What taking a block in makes of a store, it makes of every store with
/// the same blocks and containers, and what holds the same as the one is
/// what it makes of the other.
pub proof fn lemma_took_along(a: Store, x: ItemView, b: Store, s0: Store, s1: Store)
    requires
        took(a, x, b),
        a.clients == s0.clients,
        a.types == s0.types,
        same_core(b, s1),
        s1.types == b.types,
        s1.wf(),
    ensures
        took(s0, x, s1),
{
    reveal(took);
    assert forall|c: ClientID| #[trigger] a.items_of(c) == s0.items_of(c) by {}
    lemma_core_names(a, s0);
    lemma_core_names(b, s1);
    let seq = s0.container_for(x).unwrap();
    let n = s0.types.len() as int;
    let client = x.id.client;
    assert(a.container_for(x) == s0.container_for(x));
    assert forall|c: ClientID| c != client implies #[trigger] s1.items_of(c) == s0.items_of(c) by {
        assert(b.items_of(c) == s1.items_of(c));
        assert(b.items_of(c) == a.items_of(c));
    }
    assert(s1.items_of(client) == s0.items_of(client).push(x)) by {
        assert(b.items_of(client) == s1.items_of(client));
    }
    assert forall|id: ID| a.knows(id) implies b.knows(id) by {
        if id.client == client {
            let items = a.items_of(client);
            let i = crate::store::span_index(items, id.clock as int);
            assert(items.push(x)[i] == items[i]);
        } else {
            assert(b.items_of(id.client) == a.items_of(id.client));
        }
    }
    assert forall|id: ID| x.spans(id) implies b.knows(id) by {
        let items = a.items_of(client);
        assert(items.push(x)[items.len() as int] == x);
    }
    assert forall|id: ID| s0.knows(id) implies #[trigger] s1.seq_of(id) == s0.seq_of(id) by {
        assert(a.knows(id));
        assert(b.knows(id));
        assert(b.seq_of(id) == s1.seq_of(id));
        assert(b.seq_of(id) == a.seq_of(id));
    }
    assert forall|id: ID| x.spans(id) implies #[trigger] s1.seq_of(id) == seq by {
        assert(b.knows(id));
        assert(b.seq_of(id) == s1.seq_of(id));
        assert(b.seq_of(id) == seq);
    }
    assert forall|k: int| 0 <= k < n && k != seq implies #[trigger] s1.types[k] == s0.types[k] by {
        assert(b.types[k] == a.types[k]);
    }
    if seq < n {
        let order = a.order_of(seq);
        let start = scan_start(order, x.origin);
        lemma_yata_same(a, s0, order, x, start, scan_stop(order, x.right_origin), start, start);
    }
}

/// A store that has taken a block in can still take in a block of another
/// client that it could take in before, into a container that it had,
/// and takes it into the same container.
pub proof fn lemma_still_takes(s0: Store, x: ItemView, sx: Store, y: ItemView, seq: int)
    requires
        took(s0, x, sx),
        x.id.client != y.id.client,
        y.id.clock == s0.state(y.id.client),
        s0.takes(y),
        s0.container_for(y) == Some(seq),
        0 <= seq < s0.types.len(),
    ensures
        sx.takes(y),
        sx.container_for(y) == Some(seq),
        y.id.clock == sx.state(y.id.client),
{
    reveal(took);
    let client = x.id.client;
    let n = s0.types.len() as int;
    let sq = s0.container_for(x).unwrap();
    assert(sx.items_of(y.id.client) == s0.items_of(y.id.client));
    assert forall|id: ID| s0.knows(id) implies sx.knows(id) by {
        if id.client == client {
            let items = s0.items_of(client);
            let i = crate::store::span_index(items, id.clock as int);
            assert(items.push(x)[i] == items[i]);
        } else {
            assert(sx.items_of(id.client) == s0.items_of(id.client));
        }
    }
    match y.origin {
        Some(o) => {
            assert(sx.knows(o));
            assert(sx.seq_of(o) == s0.seq_of(o));
        },
        None => {},
    }
    match y.right_origin {
        Some(r) => {
            assert(sx.knows(r));
            assert(sx.seq_of(r) == s0.seq_of(r));
        },
        None => {},
    }
    match y.parent {
        crate::block::TypePtrView::Id(p) => {
            if !y.has_origin() {
                assert(sx.knows(p));
            }
        },
        _ => {},
    }
    if !y.has_origin() {
        if sq < n {
            assert forall|k: int| 0 <= k < n implies same_name(
                #[trigger] sx.types@[k],
                s0.types@[k],
            ) by {
                if k != sq {
                    assert(sx.types[k] == s0.types[k]);
                }
            }
            lemma_same_place(sx.types@, s0.types@, y.parent, y.parent_sub);
        } else {
            lemma_place_grown(s0.types@, sx.types@, y.parent, y.parent_sub);
        }
    }
}

/// A parent and a key that have a place among the containers keep it
/// when one more container comes to stand behind these.
pub proof fn lemma_place_grown(
    x: Seq<crate::store::Sequence>,
    y: Seq<crate::store::Sequence>,
    parent: crate::block::TypePtrView,
    key: Option<Seq<char>>,
)
    requires
        y.len() == x.len() + 1,
        forall|k: int| 0 <= k < x.len() ==> #[trigger] y[k] == x[k],
        crate::store::type_place(x, parent, key) < x.len(),
    ensures
        crate::store::type_place(y, parent, key) == crate::store::type_place(x, parent, key),
    decreases x.len(),
{
    if x.len() > 0 {
        assert(y[0] == x[0]);
        if !crate::store::is_type(x[0], parent, key) {
            let xs = x.drop_first();
            let ys = y.drop_first();
            assert forall|k: int| 0 <= k < xs.len() implies #[trigger] ys[k] == xs[k] by {
                assert(y[k + 1] == x[k + 1]);
            }
            lemma_place_grown(xs, ys, parent, key);
        }
    }
}

/// Whether nothing waits in the store, and the store can take in the
/// block `x`, into its container `p`, and the block `y` of another
/// client, into its container `q`.
pub open spec fn both_next(s: Store, p: int, x: ItemView, q: int, y: ItemView) -> bool {
    &&& s.pending.len() == 0
    &&& s.pending_ds@.len() == 0
    &&& x.id.client != y.id.client
    &&& x.id.clock == s.state(x.id.client)
    &&& y.id.clock == s.state(y.id.client)
    &&& s.takes(x)
    &&& s.takes(y)
    &&& 0 <= p < s.types.len()
    &&& 0 <= q < s.types.len()
    &&& s.container_for(x) == Some(p)
    &&& s.container_for(y) == Some(q)
}

/// Two updates, each of one block that the store can take in, applied in
/// the one order and in the other, take the two blocks in, in the order
/// of the updates, and nothing waits then.
pub proof fn lemma_two_updates(
    s0: Store,
    p: int,
    x: ItemView,
    q: int,
    y: ItemView,
    ux: UpdateView,
    uy: UpdateView,
    sx: Store,
    sxy: Store,
    sy: Store,
    syx: Store,
)
    requires
        both_next(s0, p, x, q, y),
        one_block(ux, x),
        one_block(uy, y),
        applied(s0, ux, sx),
        applied(sx, uy, sxy),
        applied(s0, uy, sy),
        applied(sy, ux, syx),
    ensures
        integrated(s0, x, p, sx),
        integrated(sx, y, q, sxy),
        integrated(s0, y, q, sy),
        integrated(sy, x, p, syx),
        sxy.pending.len() == 0 && sxy.pending_ds@.len() == 0,
        syx.pending.len() == 0 && syx.pending_ds@.len() == 0,
{
    lemma_apply_block(s0, ux, x, sx);
    lemma_still_takes(s0, x, sx, y, q);
    lemma_apply_block(sx, uy, y, sxy);
    lemma_apply_block(s0, uy, y, sy);
    lemma_still_takes(s0, y, sy, x, p);
    lemma_apply_block(sy, ux, x, syx);
    lemma_took_integrated(s0, x, p, sx);
    lemma_took_integrated(sx, y, q, sxy);
    lemma_took_integrated(s0, y, q, sy);
    lemma_took_integrated(sy, x, p, syx);
}

/// Two updates, each of one block, whose blocks were made side by side in
/// a container, bring a replica to the same blocks and to the same order
/// in the container, whichever of them the replica applies first.
pub proof fn law_two_updates_converge(
    s0: Store,
    seq: int,
    x: ItemView,
    y: ItemView,
    ux: UpdateView,
    uy: UpdateView,
    sx: Store,
    sxy: Store,
    sy: Store,
    syx: Store,
)
    requires
        side_by_side(s0, seq, x, y),
        both_next(s0, seq, x, seq, y),
        one_block(ux, x),
        one_block(uy, y),
        applied(s0, ux, sx),
        applied(sx, uy, sxy),
        applied(s0, uy, sy),
        applied(sy, ux, syx),
    ensures
        sxy.order_of(seq) == syx.order_of(seq),
        forall|c: ClientID| #[trigger] sxy.items_of(c) == syx.items_of(c),
        sxy.pending.len() == 0 && syx.pending.len() == 0,
{
    lemma_two_updates(s0, seq, x, seq, y, ux, uy, sx, sxy, sy, syx);
    law_two_blocks_converge(s0, seq, x, y, sx, sxy, sy, syx);
}

/// Two updates, each of one block, whose blocks were made in two gaps of
/// a container, bring a replica to the same blocks and to the same order
/// in the container, whichever of them the replica applies first.
pub proof fn law_two_gap_updates_converge(
    s0: Store,
    seq: int,
    x: ItemView,
    y: ItemView,
    ux: UpdateView,
    uy: UpdateView,
    sx: Store,
    sxy: Store,
    sy: Store,
    syx: Store,
)
    requires
        two_gaps(s0, seq, x, y),
        both_next(s0, seq, x, seq, y),
        one_block(ux, x),
        one_block(uy, y),
        applied(s0, ux, sx),
        applied(sx, uy, sxy),
        applied(s0, uy, sy),
        applied(sy, ux, syx),
    ensures
        sxy.order_of(seq) == syx.order_of(seq),
        forall|c: ClientID| #[trigger] sxy.items_of(c) == syx.items_of(c),
        sxy.pending.len() == 0 && syx.pending.len() == 0,
{
    lemma_two_updates(s0, seq, x, seq, y, ux, uy, sx, sxy, sy, syx);
    law_two_gaps_converge(s0, seq, x, y, sx, sxy, sy, syx);
}

/// Two updates, each of one block, whose blocks were made in two
/// containers, bring a replica to the same blocks and to the same order
/// in both containers, whichever of them the replica applies first.
pub proof fn law_apart_updates_converge(
    s0: Store,
    p: int,
    x: ItemView,
    q: int,
    y: ItemView,
    ux: UpdateView,
    uy: UpdateView,
    sx: Store,
    sxy: Store,
    sy: Store,
    syx: Store,
)
    requires
        apart(s0, p, x, q, y),
        both_next(s0, p, x, q, y),
        one_block(ux, x),
        one_block(uy, y),
        applied(s0, ux, sx),
        applied(sx, uy, sxy),
        applied(s0, uy, sy),
        applied(sy, ux, syx),
    ensures
        sxy.order_of(p) == syx.order_of(p),
        sxy.order_of(q) == syx.order_of(q),
        forall|c: ClientID| #[trigger] sxy.items_of(c) == syx.items_of(c),
        sxy.pending.len() == 0 && syx.pending.len() == 0,
{
    lemma_two_updates(s0, p, x, q, y, ux, uy, sx, sxy, sy, syx);
    law_apart_converge(s0, p, x, q, y, sx, sxy, sy, syx);
}

/// Taking a block in, into a container that the store has, is what
/// `integrated` says.
pub proof fn lemma_took_integrated(s0: Store, it: ItemView, seq: int, s1: Store)
    requires
        took(s0, it, s1),
        s0.container_for(it) == Some(seq),
        0 <= seq < s0.types.len(),
    ensures
        integrated(s0, it, seq, s1),
{
    reveal(took);
}

/// A pass through no blocks leaves all as it is, and a pass through
/// blocks ends with the step that deals with the last of them.
pub proof fn lemma_passed_back(s0: Store, work: Seq<ItemView>, n: int, s1: Store, r1: Seq<ItemView>)
    requires
        passed(s0, work, n, s1, r1),
    ensures
        n <= 0 ==> s1 == s0 && r1 == Seq::<ItemView>::empty(),
        n > 0 ==> exists|sm: Store, rm: Seq<ItemView>|
            passed(s0, work, n - 1, sm, rm) && #[trigger] step(sm, rm, work[n - 1], s1, r1),
{
    reveal(passed);
}

/// No rounds leave all as it is, and rounds end with a pass that leaves
/// fewer blocks waiting than it found.
pub proof fn lemma_rounds_back(s0: Store, w0: Seq<ItemView>, k: int, s1: Store, w1: Seq<ItemView>)
    requires
        rounds(s0, w0, k, s1, w1),
    ensures
        k <= 0 ==> s1 == s0 && w1 == w0,
        k > 0 ==> exists|sm: Store, wm: Seq<ItemView>|
            rounds(s0, w0, k - 1, sm, wm) && #[trigger] passed(sm, wm, wm.len() as int, s1, w1)
                && w1.len() < wm.len(),
{
    reveal(rounds);
}

/// A pass through one block that the store cannot take in, and lacks as a
/// whole, leaves the store as it is and the block waiting.
pub proof fn lemma_pass_kept(a: Store, y: ItemView, t: Store, r: Seq<ItemView>)
    requires
        passed(a, seq![y], 1, t, r),
        !a.takes(y),
        y.len() >= 1,
        y.id.clock >= a.state(y.id.client),
    ensures
        t == a,
        r == seq![y],
{
    let w = seq![y];
    lemma_passed_back(a, w, 1, t, r);
    let (p, q) = choose|p: Store, q: Seq<ItemView>|
        passed(a, w, 0, p, q) && #[trigger] step(p, q, w[0], t, r);
    lemma_passed_back(a, w, 0, p, q);
    assert(a.cut(y) == y);
    assert(!q.contains(y));
    assert(r =~= seq![y]);
}

/// A pass through one block that the store can take in takes it in and
/// leaves nothing waiting.
pub proof fn lemma_pass_taken(a: Store, y: ItemView, t: Store, r: Seq<ItemView>)
    requires
        passed(a, seq![y], 1, t, r),
        a.takes(y),
        y.id.clock == a.state(y.id.client),
    ensures
        took(a, y, t),
        r.len() == 0,
{
    let w = seq![y];
    lemma_passed_back(a, w, 1, t, r);
    let (p, q) = choose|p: Store, q: Seq<ItemView>|
        passed(a, w, 0, p, q) && #[trigger] step(p, q, w[0], t, r);
    lemma_passed_back(a, w, 0, p, q);
    assert(a.cut(y) == y);
}

/// A pass through a block that the store cannot take in and then a block
/// that it can take in takes the second in and leaves the first waiting.
pub proof fn lemma_pass_late(a: Store, y: ItemView, x: ItemView, t: Store, r: Seq<ItemView>)
    requires
        passed(a, seq![y, x], 2, t, r),
        !a.takes(y),
        y.len() >= 1,
        y.id.clock >= a.state(y.id.client),
        a.takes(x),
        x.id.clock == a.state(x.id.client),
    ensures
        took(a, x, t),
        r == seq![y],
{
    let w = seq![y, x];
    lemma_passed_back(a, w, 2, t, r);
    let (p1, q1) = choose|p: Store, q: Seq<ItemView>|
        passed(a, w, 1, p, q) && #[trigger] step(p, q, w[1], t, r);
    lemma_passed_back(a, w, 1, p1, q1);
    let (p0, q0) = choose|p: Store, q: Seq<ItemView>|
        passed(a, w, 0, p, q) && #[trigger] step(p, q, w[0], p1, q1);
    lemma_passed_back(a, w, 0, p0, q0);
    assert(a.cut(y) == y);
    assert(a.cut(x) == x);
    assert(!q0.contains(y));
    assert(q1 =~= seq![y]);
}

/// Applying an update that holds one block, to a store in which nothing
/// waits and which cannot take the block in and lacks it as a whole,
/// leaves the store as it is and the block waiting.
pub proof fn lemma_apply_waits(s0: Store, u: UpdateView, y: ItemView, s1: Store)
    requires
        s0.pending.len() == 0,
        s0.pending_ds@.len() == 0,
        one_block(u, y),
        !s0.takes(y),
        y.len() >= 1,
        y.id.clock >= s0.state(y.id.client),
        applied(s0, u, s1),
    ensures
        same_core(s0, s1),
        s1.types == s0.types,
        items_view(s1.pending@) == seq![y],
        s1.pending_ds@.len() == 0,
{
    let (a, b, m) = choose|a: Store, b: Store, m: IdSetView| #[trigger] came(s0, u, a, b, m, s1);
    lemma_came_settled(s0, u, a, b, m, s1);
    lemma_one_flat(u, y);
    let w = seq![y];
    assert(items_view(s0.pending@) + flatten(u.blocks) =~= w);
    lemma_takes_clients(s0, a, y);
    let rest = items_view(s1.pending@);
    let (k, sm, wm) = choose|k: int, sm: Store, wm: Seq<ItemView>|
        0 <= k && #[trigger] rounds(a, w, k, sm, wm) && passed(sm, wm, wm.len() as int, b, rest)
            && rest.len() == wm.len();
    lemma_rounds_shrink(a, w, k, sm, wm);
    lemma_rounds_back(a, w, k, sm, wm);
    if k == 1 {
        let (s1x, w1x) = choose|p: Store, q: Seq<ItemView>|
            rounds(a, w, 0, p, q) && #[trigger] passed(p, q, q.len() as int, sm, wm) && wm.len()
                < q.len();
        lemma_rounds_back(a, w, 0, s1x, w1x);
        lemma_pass_kept(a, y, sm, wm);
    }
    assert(k == 0);
    lemma_pass_kept(a, y, b, rest);
    lemma_unmarked(s0, u, a, b, m, s1);
    lemma_same_start(s1, b, s0);
    crate::determined::lemma_same_back(s1, s0);
}

/// Where no deletion waits and the update deletes nothing, the store
/// holds after applying the update what it held when it had come to rest
/// over the blocks, and no deletion waits.
pub proof fn lemma_unmarked(s0: Store, u: UpdateView, a: Store, b: Store, m: IdSetView, s1: Store)
    requires
        came(s0, u, a, b, m, s1),
        s0.pending_ds@.len() == 0,
        u.delete_set.len() == 0,
        s1.wf(),
    ensures
        same_core(b, s1),
        s1.types == b.types,
        s1.pending_ds@.len() == 0,
{
    reveal(came);
    let none = Seq::<(ClientID, Seq<crate::id_set::Range>)>::empty();
    assert(crate::id_set::same_ids(m, none)) by {
        assert forall|id: ID| #[trigger] ids_contain(m, id) <==> ids_contain(none, id) by {}
    }
    lemma_ids_unique(m, none);
    assert(crate::id_set::same_ids(s1.pending_ds@, none)) by {
        assert forall|id: ID| #[trigger]
            ids_contain(s1.pending_ds@, id) <==> ids_contain(none, id) by {}
    }
    lemma_ids_unique(s1.pending_ds@, none);
    assert forall|c: ClientID| #[trigger] b.items_of(c) == s1.items_of(c) by {
        assert(s1.items_of(c) == crate::store::erased_by(b.items_of(c), m, c));
    }
    assert forall|k: int| 0 <= k < b.types.len() implies same_type(
        #[trigger] b.types[k],
        s1.types[k],
    ) by {}
}

/// How applying an update begins: the store with no block waiting comes
/// to rest over the blocks that waited and behind them those of the
/// update.
pub proof fn lemma_came_settled(s0: Store, u: UpdateView, a: Store, b: Store, m: IdSetView, s1: Store)
    requires
        came(s0, u, a, b, m, s1),
    ensures
        a.clients == s0.clients,
        a.types == s0.types,
        a.pending_ds == s0.pending_ds,
        a.pending.len() == 0,
        settled(a, items_view(s0.pending@) + flatten(u.blocks), b, items_view(s1.pending@)),
{
    reveal(came);
}

/// The blocks of an update that holds one block are that block.
pub proof fn lemma_one_flat(u: UpdateView, x: ItemView)
    requires
        one_block(u, x),
    ensures
        flatten(u.blocks) == seq![x],
{
    assert(u.blocks.drop_last().len() == 0);
    assert(flatten(u.blocks.drop_last()) =~= Seq::<ItemView>::empty());
    assert(u.blocks.last() == u.blocks[0]);
    assert(flatten(u.blocks) =~= seq![x]);
}

/// A store comes to rest over a block that it cannot take in and, behind
/// it, a block that it can take in and that lets it take in the first, by
/// taking in the second and then the first, and nothing waits then.
pub proof fn lemma_settled_late(
    a: Store,
    y: ItemView,
    x: ItemView,
    b: Store,
    rest: Seq<ItemView>,
    s0: Store,
    sx: Store,
)
    requires
        settled(a, seq![y, x], b, rest),
        !a.takes(y),
        y.len() >= 1,
        y.id.clock >= a.state(y.id.client),
        a.takes(x),
        x.id.clock == a.state(x.id.client),
        same_core(s0, a),
        took(s0, x, sx),
        sx.takes(y),
        y.id.clock == sx.state(y.id.client),
    ensures
        exists|t: Store| #[trigger] took(a, x, t) && took(t, y, b),
        rest.len() == 0,
{
    let w = seq![y, x];
    let (k, sm, wm) = choose|k: int, sm: Store, wm: Seq<ItemView>|
        0 <= k && #[trigger] rounds(a, w, k, sm, wm) && passed(sm, wm, wm.len() as int, b, rest)
            && rest.len() == wm.len();
    lemma_rounds_shrink(a, w, k, sm, wm);
    lemma_rounds_back(a, w, k, sm, wm);
    if k == 0 {
        lemma_pass_late(a, y, x, b, rest);
    } else if k == 1 {
        let (p, q) = choose|p: Store, q: Seq<ItemView>|
            rounds(a, w, 0, p, q) && #[trigger] passed(p, q, q.len() as int, sm, wm) && wm.len()
                < q.len();
        lemma_rounds_back(a, w, 0, p, q);
        lemma_pass_late(a, y, x, sm, wm);
        lemma_late_takes(s0, a, x, sx, sm, y);
        lemma_pass_taken(sm, y, b, rest);
    } else {
        let (p2, q2) = choose|p: Store, q: Seq<ItemView>|
            rounds(a, w, 1, p, q) && #[trigger] passed(p, q, q.len() as int, sm, wm) && wm.len()
                < q.len();
        lemma_rounds_back(a, w, 1, p2, q2);
        let (p1, q1) = choose|p: Store, q: Seq<ItemView>|
            rounds(a, w, 0, p, q) && #[trigger] passed(p, q, q.len() as int, p2, q2) && q2.len()
                < q.len();
        lemma_rounds_back(a, w, 0, p1, q1);
        lemma_pass_late(a, y, x, p2, q2);
        lemma_late_takes(s0, a, x, sx, p2, y);
        lemma_pass_taken(p2, y, sm, wm);
        lemma_passed_back(sm, wm, 0, b, rest);
        assert(took(a, x, p2) && took(p2, y, b));
    }
}

/// Of two stores that hold the same after taking the same block in, the
/// one can take in what the other can.
pub proof fn lemma_late_takes(s0: Store, a: Store, x: ItemView, sx: Store, t: Store, y: ItemView)
    requires
        same_core(s0, a),
        took(s0, x, sx),
        took(a, x, t),
        sx.takes(y),
        y.id.clock == sx.state(y.id.client),
    ensures
        t.takes(y),
        y.id.clock == t.state(y.id.client),
{
    lemma_took_same(s0, a, x, sx, t);
    lemma_core_names(sx, t);
    lemma_takes_same(sx, t, y);
}

/// The store from which applying an update begins holds what a store
/// holds that holds the same as the store before.
pub proof fn lemma_same_start(s0: Store, sy: Store, a: Store)
    requires
        same_core(s0, sy),
        a.clients == sy.clients,
        a.types == sy.types,
    ensures
        same_core(s0, a),
{
    assert forall|c: ClientID| #[trigger] s0.items_of(c) == a.items_of(c) by {
        assert(s0.items_of(c) == sy.items_of(c));
    }
    assert forall|id: ID| s0.knows(id) implies #[trigger] s0.seq_of(id) == a.seq_of(id) by {
        assert(s0.seq_of(id) == sy.seq_of(id));
    }
    assert forall|k: int| 0 <= k < s0.types.len() implies same_type(#[trigger] s0.types[k], a.types[k]) by {
        assert(same_type(s0.types[k], sy.types[k]));
    }
}

/// A block that comes before a block that it depends on waits for it: a
/// replica that applies the update with the block `y` first and the
/// update with the block `x` then, where it can take in `y` only once it
/// has `x`, holds the same in the end as a replica that applies the two
/// the other way round, and nothing waits in either.
pub proof fn law_late_update_converges(
    s0: Store,
    x: ItemView,
    y: ItemView,
    ux: UpdateView,
    uy: UpdateView,
    sx: Store,
    sxy: Store,
    sy: Store,
    syx: Store,
)
    requires
        s0.pending.len() == 0,
        s0.pending_ds@.len() == 0,
        s0.takes(x),
        x.id.clock == s0.state(x.id.client),
        !s0.takes(y),
        y.len() >= 1,
        y.id.clock >= s0.state(y.id.client),
        sx.takes(y),
        y.id.clock == sx.state(y.id.client),
        one_block(ux, x),
        one_block(uy, y),
        applied(s0, ux, sx),
        applied(sx, uy, sxy),
        applied(s0, uy, sy),
        applied(sy, ux, syx),
    ensures
        same_core(sxy, syx),
        sxy.pending.len() == 0 && syx.pending.len() == 0,
        sxy.pending_ds@.len() == 0 && syx.pending_ds@.len() == 0,
{
    lemma_apply_block(s0, ux, x, sx);
    lemma_apply_block(sx, uy, y, sxy);
    lemma_apply_waits(s0, uy, y, sy);
    let (a, b, m) = choose|a: Store, b: Store, m: IdSetView| #[trigger] came(sy, ux, a, b, m, syx);
    lemma_came_settled(sy, ux, a, b, m, syx);
    lemma_one_flat(ux, x);
    let rest = items_view(syx.pending@);
    assert(items_view(sy.pending@) + flatten(ux.blocks) =~= seq![y, x]);
    lemma_same_start(s0, sy, a);
    lemma_core_names(s0, a);
    lemma_takes_same(s0, a, x);
    lemma_takes_same(s0, a, y);
    lemma_settled_late(a, y, x, b, rest, s0, sx);
    let t = choose|t: Store| #[trigger] took(a, x, t) && took(t, y, b);
    lemma_took_same(s0, a, x, sx, t);
    lemma_took_same(sx, t, y, sxy, b);
    lemma_unmarked(sy, ux, a, b, m, syx);
    lemma_same_on(sxy, b, syx);
}

} // verus!
