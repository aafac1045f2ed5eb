//! Updates whose blocks come in an order in which a store can take each
//! of them in are taken in as a whole, block by block in that order.

use crate::block::{ItemView, TypePtrView};
use crate::converge::{lemma_came_settled, lemma_passed_back, lemma_rounds_back, lemma_rounds_shrink};
use crate::id::{ClientID, ID};
use crate::id_set::IdSetView;
use crate::roundtrip::flatten;
use crate::store::{
    came, lemma_passed_none, lemma_rounds_next, passed, rounds, settled, span_index, step, took,
    Store,
};
use crate::update::{items_view, UpdateView};
use vstd::prelude::*;

verus! {

/// The clock that a store expects of `client` once it has taken in the
/// first `i` of the blocks `w`, one after the other.
pub open spec fn reach(a: Store, w: Seq<ItemView>, i: int, client: ClientID) -> int
    decreases i,
{
    if i <= 0 {
        a.state(client)
    } else if w[i - 1].id.client == client {
        w[i - 1].end()
    } else {
        reach(a, w, i - 1, client)
    }
}

/// Whether the store has the position `id`, or one of the first `i` of
/// the blocks `w` spans it.
pub open spec fn at_hand(a: Store, w: Seq<ItemView>, i: int, id: ID) -> bool {
    a.knows(id) || exists|j: int| 0 <= j < i && (#[trigger] w[j]).spans(id)
}

/// Whether the blocks `w` come in an order in which the store `a` can
/// take each of them in: each is well formed, begins at the clock that
/// the store expects of its client by then, and depends only on positions
/// that the store has or that blocks before it span.
pub open spec fn in_turn(a: Store, w: Seq<ItemView>) -> bool {
    forall|i: int|
        0 <= i < w.len() ==> {
            let o = #[trigger] w[i];
            &&& o.wf()
            &&& o.id.clock == reach(a, w, i, o.id.client)
            &&& o.origin matches Some(x) ==> at_hand(a, w, i, x)
            &&& o.right_origin matches Some(x) ==> at_hand(a, w, i, x)
            &&& !o.has_origin() ==> (o.parent matches TypePtrView::Id(p) ==> at_hand(a, w, i, p))
        }
}

/// What taking in the first `n` of the blocks `w`, one after the other,
/// makes of the store `a`.
pub open spec fn taken(a: Store, w: Seq<ItemView>, n: int, t: Store) -> bool
    decreases n,
{
    if n <= 0 {
        t == a
    } else {
        exists|tm: Store| taken(a, w, n - 1, tm) && #[trigger] took(tm, w[n - 1], t)
    }
}

/// Whether the store `t` is well formed, expects of every client the
/// clock that the first `n` of the blocks `w` lead to, and has every
/// position that the store `a` had or that one of these blocks spans.
pub open spec fn come_to(a: Store, w: Seq<ItemView>, n: int, t: Store) -> bool {
    &&& t.wf()
    &&& forall|c: ClientID| #[trigger] t.state(c) == reach(a, w, n, c)
    &&& forall|id: ID| at_hand(a, w, n, id) ==> #[trigger] t.knows(id)
}

/// A store that has come to a block of blocks that come in turn takes it
/// in.
pub proof fn lemma_turn_step(
    a: Store,
    w: Seq<ItemView>,
    n: int,
    tm: Store,
    rm: Seq<ItemView>,
    t: Store,
    r: Seq<ItemView>,
)
    requires
        in_turn(a, w),
        0 <= n < w.len(),
        come_to(a, w, n, tm),
        step(tm, rm, w[n], t, r),
    ensures
        took(tm, w[n], t),
        r == rm,
        come_to(a, w, n + 1, t),
{
    let o = w[n];
    let c = o.id.client;
    assert(tm.state(c) == reach(a, w, n, c));
    assert(tm.cut(o) == o);
    match o.origin {
        Some(x) => {
            assert(tm.knows(x));
        },
        None => {},
    }
    match o.right_origin {
        Some(x) => {
            assert(tm.knows(x));
        },
        None => {},
    }
    match o.parent {
        TypePtrView::Id(p) => {
            if !o.has_origin() {
                assert(tm.knows(p));
            }
        },
        _ => {},
    }
    assert(tm.ready(o));
    assert(tm.container_for(o) is Some);
    assert(tm.takes(o));
    assert(took(tm, o, t));
    reveal(took);
    let n1 = n + 1;
    assert forall|x: ClientID| #[trigger] t.state(x) == reach(a, w, n1, x) by {
        assert(tm.state(x) == reach(a, w, n, x));
        if x == c {
            crate::store::lemma_chain_end_push(tm.items_of(c), o);
        } else {
            assert(t.items_of(x) == tm.items_of(x));
        }
    }
    assert forall|id: ID| at_hand(a, w, n1, id) implies #[trigger] t.knows(id) by {
        if at_hand(a, w, n, id) {
            assert(tm.knows(id));
            if id.client == c {
                let items = tm.items_of(c);
                let i = span_index(items, id.clock as int);
                assert(items.push(o)[i] == items[i]);
            } else {
                assert(t.items_of(id.client) == tm.items_of(id.client));
            }
        } else {
            let j = choose|j: int| 0 <= j < n1 && (#[trigger] w[j]).spans(id);
            assert(j == n);
            let items = tm.items_of(c);
            assert(items.push(o)[items.len() as int] == o);
        }
    }
}

/// A pass through blocks that come in turn takes each of them in and
/// leaves none waiting.
pub proof fn lemma_turn_pass(a: Store, w: Seq<ItemView>, n: int, t: Store, r: Seq<ItemView>)
    requires
        a.wf(),
        in_turn(a, w),
        0 <= n <= w.len(),
        passed(a, w, n, t, r),
    ensures
        taken(a, w, n, t),
        r.len() == 0,
        come_to(a, w, n, t),
    decreases n,
{
    lemma_passed_back(a, w, n, t, r);
    if n > 0 {
        let (tm, rm) = choose|tm: Store, rm: Seq<ItemView>|
            passed(a, w, n - 1, tm, rm) && #[trigger] step(tm, rm, w[n - 1], t, r);
        lemma_turn_pass(a, w, n - 1, tm, rm);
        lemma_turn_step(a, w, n - 1, tm, rm, t, r);
    }
}

/// Rounds begin with a pass that leaves fewer blocks waiting than it
/// found.
pub proof fn lemma_rounds_first(a: Store, w: Seq<ItemView>, k: int, sm: Store, wm: Seq<ItemView>)
    requires
        k >= 1,
        rounds(a, w, k, sm, wm),
    ensures
        exists|t: Store, v: Seq<ItemView>| #[trigger]
            passed(a, w, w.len() as int, t, v) && v.len() < w.len() && rounds(t, v, k - 1, sm, wm),
    decreases k,
{
    lemma_rounds_back(a, w, k, sm, wm);
    let (p, q) = choose|p: Store, q: Seq<ItemView>|
        rounds(a, w, k - 1, p, q) && #[trigger] passed(p, q, q.len() as int, sm, wm) && wm.len()
            < q.len();
    if k == 1 {
        lemma_rounds_back(a, w, 0, p, q);
        lemma_passed_none(sm, wm, wm);
        assert(passed(a, w, w.len() as int, sm, wm) && wm.len() < w.len() && rounds(
            sm,
            wm,
            k - 1,
            sm,
            wm,
        ));
    } else {
        lemma_rounds_first(a, w, k - 1, p, q);
        let (t, v) = choose|t: Store, v: Seq<ItemView>| #[trigger]
            passed(a, w, w.len() as int, t, v) && v.len() < w.len() && rounds(t, v, k - 2, p, q);
        lemma_rounds_next(t, v, k - 2, p, q, sm, wm);
        assert(passed(a, w, w.len() as int, t, v) && v.len() < w.len() && rounds(
            t,
            v,
            k - 1,
            sm,
            wm,
        ));
    }
}

/// A store comes to rest over blocks that come in turn by taking each of
/// them in, and none waits then.
pub proof fn lemma_turn_settled(a: Store, w: Seq<ItemView>, b: Store, rest: Seq<ItemView>)
    requires
        a.wf(),
        in_turn(a, w),
        settled(a, w, b, rest),
    ensures
        taken(a, w, w.len() as int, b),
        rest.len() == 0,
{
    let n = w.len() as int;
    let (k, sm, wm) = choose|k: int, sm: Store, wm: Seq<ItemView>|
        0 <= k && #[trigger] rounds(a, w, k, sm, wm) && passed(sm, wm, wm.len() as int, b, rest)
            && rest.len() == wm.len();
    if k == 0 {
        lemma_rounds_back(a, w, 0, sm, wm);
        lemma_turn_pass(a, w, n, b, rest);
    } else {
        lemma_rounds_first(a, w, k, sm, wm);
        let (t, v) = choose|t: Store, v: Seq<ItemView>| #[trigger]
            passed(a, w, w.len() as int, t, v) && v.len() < w.len() && rounds(t, v, k - 1, sm, wm);
        lemma_turn_pass(a, w, n, t, v);
        lemma_rounds_shrink(t, v, k - 1, sm, wm);
        lemma_rounds_back(t, v, k - 1, sm, wm);
        lemma_passed_back(sm, wm, 0, b, rest);
    }
}

/// An update whose blocks come in an order in which the store can take
/// each of them in, applied to a store in which no block waits, is taken
/// in as a whole: the store has the blocks of the update, taken in one
/// after the other in the order of the update, before the tombstones are
/// put, and no block waits then.
pub proof fn law_apply_in_turn(s0: Store, u: UpdateView, a: Store, b: Store, m: IdSetView, s1: Store)
    requires
        s0.wf(),
        s0.pending.len() == 0,
        in_turn(s0, flatten(u.blocks)),
        came(s0, u, a, b, m, s1),
    ensures
        taken(a, flatten(u.blocks), flatten(u.blocks).len() as int, b),
        s1.pending.len() == 0,
{
    let w = flatten(u.blocks);
    lemma_came_settled(s0, u, a, b, m, s1);
    assert(items_view(s0.pending@) + w =~= w);
    lemma_turn_start(s0, a, w);
    lemma_turn_settled(a, w, b, items_view(s1.pending@));
}

/// Blocks that come in turn for a store come in turn for a store with
/// the same blocks and containers, and that store is well formed too.
pub proof fn lemma_turn_start(s0: Store, a: Store, w: Seq<ItemView>)
    requires
        s0.wf(),
        in_turn(s0, w),
        a.clients == s0.clients,
        a.types == s0.types,
        a.pending.len() == 0,
        a.pending_ds == s0.pending_ds,
    ensures
        a.wf(),
        in_turn(a, w),
{
    assert forall|i: int| 0 <= i < a.clients.len() implies (#[trigger] a.clients[i]).1.wf(
        a.clients[i].0,
        a.types.len() as int,
    ) by {
        assert(s0.clients[i].1.wf(s0.clients[i].0, s0.types.len() as int));
    }
    assert forall|i: int| 0 <= i < w.len() implies {
        let o = #[trigger] w[i];
        &&& o.wf()
        &&& o.id.clock == reach(a, w, i, o.id.client)
        &&& o.origin matches Some(x) ==> at_hand(a, w, i, x)
        &&& o.right_origin matches Some(x) ==> at_hand(a, w, i, x)
        &&& !o.has_origin() ==> (o.parent matches TypePtrView::Id(p) ==> at_hand(a, w, i, p))
    } by {
        let o = w[i];
        lemma_reach_same(s0, a, w, i, o.id.client);
        match o.origin {
            Some(x) => {
                assert(at_hand(s0, w, i, x));
            },
            None => {},
        }
        match o.right_origin {
            Some(x) => {
                assert(at_hand(s0, w, i, x));
            },
            None => {},
        }
        match o.parent {
            TypePtrView::Id(p) => {
                if !o.has_origin() {
                    assert(at_hand(s0, w, i, p));
                }
            },
            _ => {},
        }
    }
}

/// Stores with the same blocks expect the same clocks after the same
/// blocks.
pub proof fn lemma_reach_same(s0: Store, a: Store, w: Seq<ItemView>, i: int, c: ClientID)
    requires
        a.clients == s0.clients,
    ensures
        reach(a, w, i, c) == reach(s0, w, i, c),
    decreases i,
{
    if i > 0 && w[i - 1].id.client != c {
        lemma_reach_same(s0, a, w, i - 1, c);
    }
}

} // verus!
