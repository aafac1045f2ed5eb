//! What applying an update makes of a store is determined by what the
//! store holds and by the update, and leaves the blocks that the store has
//! where they are.

use crate::block::ItemView;
use crate::id::{ClientID, ID};
use crate::id_set::{ids_contain, ids_wf, lemma_ids_unique, IdSetView};
use crate::ordered::{falling, has_key, index_of, lemma_index_of};
use crate::store::{
    applied, came, erased_by, lemma_takes_same, lemma_yata_same, list_items, passed, rounds,
    same_names, scan_start, scan_stop, settled, step, took, type_place, whole_blocks, ClientList,
    Sequence, Store,
};
use crate::text::opt_text;
use crate::update::{items_view, UpdateView};
use vstd::prelude::*;

verus! {

/// Whether two containers have the same parent and the same key.
pub open spec fn same_name(x: Sequence, y: Sequence) -> bool {
    x.parent@ == y.parent@ && opt_text(x.key) == opt_text(y.key)
}

/// Whether two containers have the same parent, the same key and the same
/// positions in the same order.
pub open spec fn same_type(x: Sequence, y: Sequence) -> bool {
    same_name(x, y) && x.order@ == y.order@
}

/// Whether two stores hold the same blocks, each in the same container,
/// and the same containers.
pub open spec fn same_core(a: Store, b: Store) -> bool {
    &&& forall|c: ClientID| #[trigger] a.items_of(c) == b.items_of(c)
    &&& forall|id: ID| a.knows(id) ==> #[trigger] a.seq_of(id) == b.seq_of(id)
    &&& a.types.len() == b.types.len()
    &&& forall|k: int| 0 <= k < a.types.len() ==> same_type(#[trigger] a.types[k], b.types[k])
}

/// Whether two stores hold the same and have the same blocks and the same
/// deletions waiting.
pub open spec fn alike(a: Store, b: Store) -> bool {
    &&& same_core(a, b)
    &&& items_view(a.pending@) == items_view(b.pending@)
    &&& a.pending_ds@ == b.pending_ds@
}

/// Stores that hold the same blocks have the same positions, each with
/// the same neighbours named, and expect the same clocks.
pub proof fn lemma_core_names(a: Store, b: Store)
    requires
        forall|c: ClientID| #[trigger] a.items_of(c) == b.items_of(c),
    ensures
        same_names(a, b),
        forall|c: ClientID| #[trigger] b.state(c) == a.state(c),
{
    assert forall|id: ID| #[trigger] b.knows(id) == a.knows(id) by {
        assert(a.items_of(id.client) == b.items_of(id.client));
    }
    assert forall|id: ID| a.knows(id) implies #[trigger] b.origin_of(id) == a.origin_of(id) by {
        assert(a.items_of(id.client) == b.items_of(id.client));
    }
    assert forall|id: ID| a.knows(id) implies #[trigger] b.right_origin_of(id) == a.right_origin_of(
        id,
    ) by {
        assert(a.items_of(id.client) == b.items_of(id.client));
    }
    assert forall|c: ClientID| #[trigger] b.state(c) == a.state(c) by {
        assert(a.items_of(c) == b.items_of(c));
    }
}

/// The same containers give a parent and a key the same place.
pub proof fn lemma_same_place(
    x: Seq<Sequence>,
    y: Seq<Sequence>,
    parent: crate::block::TypePtrView,
    key: Option<Seq<char>>,
)
    requires
        x.len() == y.len(),
        forall|k: int| 0 <= k < x.len() ==> same_name(#[trigger] x[k], y[k]),
    ensures
        type_place(x, parent, key) == type_place(y, parent, key),
    decreases x.len(),
{
    if x.len() > 0 {
        assert(same_name(x[0], y[0]));
        let xs = x.drop_first();
        let ys = y.drop_first();
        assert forall|k: int| 0 <= k < xs.len() implies same_name(#[trigger] xs[k], ys[k]) by {
            assert(same_name(x[k + 1], y[k + 1]));
        }
        lemma_same_place(xs, ys, parent, key);
    }
}

/// Stores that hold the same give a block the same container.
pub proof fn lemma_same_container(a: Store, b: Store, it: ItemView)
    requires
        same_core(a, b),
    ensures
        a.container_for(it) == b.container_for(it),
{
    lemma_core_names(a, b);
    assert forall|k: int| 0 <= k < a.types@.len() implies same_name(
        #[trigger] a.types@[k],
        b.types@[k],
    ) by {
        assert(same_type(a.types[k], b.types[k]));
    }
    lemma_same_place(a.types@, b.types@, it.parent, it.parent_sub);
    if it.origin is Some {
        assert(b.knows(it.origin.unwrap()) == a.knows(it.origin.unwrap()));
    }
    if it.right_origin is Some {
        assert(b.knows(it.right_origin.unwrap()) == a.knows(it.right_origin.unwrap()));
    }
}

/// Stores that hold the same give a block the same place in a container.
pub proof fn lemma_same_scan(a: Store, b: Store, seq: int, it: ItemView)
    requires
        same_core(a, b),
        0 <= seq < a.types.len(),
    ensures
        a.place(seq, it) == b.place(seq, it),
        a.order_of(seq) == b.order_of(seq),
{
    lemma_core_names(a, b);
    assert(same_type(a.types[seq], b.types[seq]));
    let order = a.order_of(seq);
    let start = scan_start(order, it.origin);
    lemma_yata_same(a, b, order, it, start, scan_stop(order, it.right_origin), start, start);
}

/// Stores that hold the same hold the same after taking the same block
/// in.
pub proof fn lemma_took_same(a: Store, b: Store, it: ItemView, a1: Store, b1: Store)
    requires
        same_core(a, b),
        took(a, it, a1),
        took(b, it, b1),
    ensures
        same_core(a1, b1),
{
    reveal(took);
    lemma_core_names(a, b);
    lemma_same_container(a, b, it);
    let seq = a.container_for(it).unwrap();
    let n = a.types.len() as int;
    let client = it.id.client;
    assert forall|c: ClientID| #[trigger] a1.items_of(c) == b1.items_of(c) by {
        assert(a.items_of(c) == b.items_of(c));
        if c != client {
            assert(a1.items_of(c) == a.items_of(c));
            assert(b1.items_of(c) == b.items_of(c));
        }
    }
    assert forall|id: ID| a1.knows(id) implies #[trigger] a1.seq_of(id) == b1.seq_of(id) by {
        if a.knows(id) {
            assert(b.knows(id) == a.knows(id));
            assert(a1.seq_of(id) == a.seq_of(id));
            assert(b1.seq_of(id) == b.seq_of(id));
            assert(a.seq_of(id) == b.seq_of(id));
        } else {
            if id.client != client {
                assert(a1.items_of(id.client) == a.items_of(id.client));
            } else {
                let items = a.items_of(client);
                let next = a1.items_of(client);
                assert(next == items.push(it));
                let i = crate::store::span_index(next, id.clock as int);
                assert(0 <= i < next.len() && next[i].id.clock <= id.clock < next[i].end());
                if i < items.len() {
                    assert(next[i] == items[i]);
                    assert(crate::store::spanned(items, id.clock as int));
                }
                assert(next[i] == it);
                assert(it.spans(id));
            }
            assert(it.spans(id));
            assert(a1.seq_of(id) == seq);
            assert(b1.seq_of(id) == seq);
        }
    }
    assert forall|k: int| 0 <= k < a1.types.len() implies same_type(
        #[trigger] a1.types[k],
        b1.types[k],
    ) by {
        if k != seq {
            assert(a1.types[k] == a.types[k]);
            assert(b1.types[k] == b.types[k]);
            assert(same_type(a.types[k], b.types[k]));
        } else if seq < n {
            assert(same_type(a.types[seq], b.types[seq]));
            lemma_same_scan(a, b, seq, it);
        }
    }
}

/// Stores that hold the same hold the same after dealing with the same
/// block, and the same blocks then wait.
pub proof fn lemma_step_same(
    a: Store,
    b: Store,
    r: Seq<ItemView>,
    o: ItemView,
    a1: Store,
    ra: Seq<ItemView>,
    b1: Store,
    rb: Seq<ItemView>,
)
    requires
        same_core(a, b),
        step(a, r, o, a1, ra),
        step(b, r, o, b1, rb),
    ensures
        same_core(a1, b1),
        ra == rb,
{
    lemma_core_names(a, b);
    lemma_takes_same(a, b, o);
    assert(a.state(o.id.client) == b.state(o.id.client));
    assert(a.cut(o) == b.cut(o));
    if o.end() > a.state(o.id.client) && a.takes(o) {
        lemma_took_same(a, b, a.cut(o), a1, b1);
    }
}

/// Stores that hold the same hold the same after a pass through the same
/// blocks, and the same blocks then wait.
pub proof fn lemma_passed_same(
    a: Store,
    b: Store,
    work: Seq<ItemView>,
    n: int,
    a1: Store,
    ra: Seq<ItemView>,
    b1: Store,
    rb: Seq<ItemView>,
)
    requires
        same_core(a, b),
        passed(a, work, n, a1, ra),
        passed(b, work, n, b1, rb),
    ensures
        same_core(a1, b1),
        ra == rb,
    decreases n,
{
    reveal(passed);
    if n > 0 {
        let (sa, qa) = choose|sm: Store, rm: Seq<ItemView>|
            passed(a, work, n - 1, sm, rm) && #[trigger] step(sm, rm, work[n - 1], a1, ra);
        let (sb, qb) = choose|sm: Store, rm: Seq<ItemView>|
            passed(b, work, n - 1, sm, rm) && #[trigger] step(sm, rm, work[n - 1], b1, rb);
        lemma_passed_same(a, b, work, n - 1, sa, qa, sb, qb);
        lemma_step_same(sa, sb, qa, work[n - 1], a1, ra, b1, rb);
    }
}

/// Stores that hold the same hold the same after as many rounds through
/// the same blocks, and the same blocks then wait.
pub proof fn lemma_rounds_same(
    a: Store,
    b: Store,
    w: Seq<ItemView>,
    k: int,
    a1: Store,
    wa: Seq<ItemView>,
    b1: Store,
    wb: Seq<ItemView>,
)
    requires
        same_core(a, b),
        rounds(a, w, k, a1, wa),
        rounds(b, w, k, b1, wb),
    ensures
        same_core(a1, b1),
        wa == wb,
    decreases k,
{
    reveal(rounds);
    if k > 0 {
        let (sa, qa) = choose|sm: Store, wm: Seq<ItemView>|
            rounds(a, w, k - 1, sm, wm) && #[trigger] passed(sm, wm, wm.len() as int, a1, wa)
                && wa.len() < wm.len();
        let (sb, qb) = choose|sm: Store, wm: Seq<ItemView>|
            rounds(b, w, k - 1, sm, wm) && #[trigger] passed(sm, wm, wm.len() as int, b1, wb)
                && wb.len() < wm.len();
        lemma_rounds_same(a, b, w, k - 1, sa, qa, sb, qb);
        lemma_passed_same(sa, sb, qa, qa.len() as int, a1, wa, b1, wb);
    }
}

/// Where one store has come to rest after `k` rounds, a store that holds
/// the same has not made more rounds through the same blocks.
pub proof fn lemma_rounds_end(
    a: Store,
    b: Store,
    w: Seq<ItemView>,
    k: int,
    sa: Store,
    wa: Seq<ItemView>,
    a1: Store,
    ra: Seq<ItemView>,
    j: int,
    b1: Store,
    wb: Seq<ItemView>,
)
    requires
        same_core(a, b),
        0 <= k,
        rounds(a, w, k, sa, wa),
        passed(sa, wa, wa.len() as int, a1, ra),
        ra.len() == wa.len(),
        rounds(b, w, j, b1, wb),
    ensures
        j <= k,
    decreases j,
{
    reveal(rounds);
    if j > k {
        let (sb, qb) = choose|sm: Store, wm: Seq<ItemView>|
            rounds(b, w, j - 1, sm, wm) && #[trigger] passed(sm, wm, wm.len() as int, b1, wb)
                && wb.len() < wm.len();
        if j - 1 == k {
            lemma_rounds_same(a, b, w, k, sa, wa, sb, qb);
            lemma_passed_same(sa, sb, wa, wa.len() as int, a1, ra, b1, wb);
        } else {
            lemma_rounds_end(a, b, w, k, sa, wa, a1, ra, j - 1, sb, qb);
        }
    }
}

/// Stores that hold the same hold the same after coming to rest over the
/// same blocks, and the same blocks then wait.
pub proof fn lemma_settled_same(
    a: Store,
    b: Store,
    w: Seq<ItemView>,
    a1: Store,
    ra: Seq<ItemView>,
    b1: Store,
    rb: Seq<ItemView>,
)
    requires
        same_core(a, b),
        settled(a, w, a1, ra),
        settled(b, w, b1, rb),
    ensures
        same_core(a1, b1),
        ra == rb,
{
    let (ka, sa, wa) = choose|k: int, sm: Store, wm: Seq<ItemView>|
        0 <= k && #[trigger] rounds(a, w, k, sm, wm) && passed(sm, wm, wm.len() as int, a1, ra)
            && ra.len() == wm.len();
    let (kb, sb, wb) = choose|k: int, sm: Store, wm: Seq<ItemView>|
        0 <= k && #[trigger] rounds(b, w, k, sm, wm) && passed(sm, wm, wm.len() as int, b1, rb)
            && rb.len() == wm.len();
    lemma_rounds_end(a, b, w, ka, sa, wa, a1, ra, kb, sb, wb);
    lemma_same_back(a, b);
    lemma_rounds_end(b, a, w, kb, sb, wb, b1, rb, ka, sa, wa);
    lemma_rounds_same(a, b, w, ka, sa, wa, sb, wb);
    lemma_passed_same(sa, sb, wa, wa.len() as int, a1, ra, b1, rb);
}

/// Holding the same goes both ways.
pub proof fn lemma_same_back(a: Store, b: Store)
    requires
        same_core(a, b),
    ensures
        same_core(b, a),
{
    lemma_core_names(a, b);
    assert forall|c: ClientID| #[trigger] b.items_of(c) == a.items_of(c) by {
        assert(a.items_of(c) == b.items_of(c));
    }
    assert forall|id: ID| b.knows(id) implies #[trigger] b.seq_of(id) == a.seq_of(id) by {
        assert(b.knows(id) == a.knows(id));
        assert(a.seq_of(id) == b.seq_of(id));
    }
    assert forall|k: int| 0 <= k < b.types.len() implies same_type(#[trigger] b.types[k], a.types[k]) by {
        assert(same_type(a.types[k], b.types[k]));
    }
}

/// Stores that hold the same as a third one hold the same.
pub proof fn lemma_same_on(a: Store, b: Store, c: Store)
    requires
        same_core(a, b),
        same_core(b, c),
    ensures
        same_core(a, c),
{
    lemma_core_names(a, b);
    assert forall|x: ClientID| #[trigger] a.items_of(x) == c.items_of(x) by {
        assert(a.items_of(x) == b.items_of(x));
        assert(b.items_of(x) == c.items_of(x));
    }
    assert forall|id: ID| a.knows(id) implies #[trigger] a.seq_of(id) == c.seq_of(id) by {
        assert(b.knows(id) == a.knows(id));
        assert(a.seq_of(id) == b.seq_of(id));
        assert(b.seq_of(id) == c.seq_of(id));
    }
    assert forall|k: int| 0 <= k < a.types.len() implies same_type(#[trigger] a.types[k], c.types[k]) by {
        assert(same_type(a.types[k], b.types[k]));
        assert(same_type(b.types[k], c.types[k]));
    }
}

/// What applying an update makes of a store is determined by what the
/// store holds and by the update: two stores that hold the same and have
/// the same waiting hold the same, and have the same waiting, after each
/// has applied the same update.
pub proof fn law_apply_determined(s0: Store, t0: Store, u: UpdateView, s1: Store, t1: Store)
    requires
        alike(s0, t0),
        applied(s0, u, s1),
        applied(t0, u, t1),
    ensures
        alike(s1, t1),
{
    reveal(came);
    let (a, b, m) = choose|a: Store, b: Store, m: IdSetView| #[trigger] came(s0, u, a, b, m, s1);
    let (x, y, n) = choose|a: Store, b: Store, m: IdSetView| #[trigger] came(t0, u, a, b, m, t1);
    assert(same_core(a, x)) by {
        assert forall|c: ClientID| #[trigger] a.items_of(c) == x.items_of(c) by {
            assert(s0.items_of(c) == t0.items_of(c));
        }
        assert forall|id: ID| a.knows(id) implies #[trigger] a.seq_of(id) == x.seq_of(id) by {
            assert(s0.knows(id));
            assert(s0.seq_of(id) == t0.seq_of(id));
        }
        assert forall|k: int| 0 <= k < a.types.len() implies same_type(
            #[trigger] a.types[k],
            x.types[k],
        ) by {
            assert(same_type(s0.types[k], t0.types[k]));
        }
    }
    let work = items_view(s0.pending@) + crate::roundtrip::flatten(u.blocks);
    lemma_settled_same(a, x, work, b, items_view(s1.pending@), y, items_view(t1.pending@));
    lemma_core_names(b, y);
    assert(crate::id_set::same_ids(m, n)) by {
        assert forall|id: ID| #[trigger] ids_contain(m, id) <==> ids_contain(n, id) by {}
    }
    lemma_ids_unique(m, n);
    assert(crate::id_set::same_ids(s1.pending_ds@, t1.pending_ds@)) by {
        assert forall|id: ID| #[trigger]
            ids_contain(s1.pending_ds@, id) <==> ids_contain(t1.pending_ds@, id) by {
            assert(b.knows(id) == y.knows(id));
        }
    }
    lemma_ids_unique(s1.pending_ds@, t1.pending_ds@);
    assert forall|c: ClientID| #[trigger] s1.items_of(c) == t1.items_of(c) by {
        assert(b.items_of(c) == y.items_of(c));
        assert(s1.items_of(c) == erased_by(b.items_of(c), m, c));
        assert(t1.items_of(c) == erased_by(y.items_of(c), n, c));
    }
    assert forall|id: ID| s1.knows(id) implies #[trigger] s1.seq_of(id) == t1.seq_of(id) by {
        assert(s1.knows(id) == b.knows(id));
        assert(b.knows(id) == y.knows(id));
        assert(s1.seq_of(id) == b.seq_of(id));
        assert(t1.seq_of(id) == y.seq_of(id));
        assert(b.seq_of(id) == y.seq_of(id));
    }
    assert forall|k: int| 0 <= k < s1.types.len() implies same_type(
        #[trigger] s1.types[k],
        t1.types[k],
    ) by {
        assert(same_type(b.types[k], y.types[k]));
    }
}

/// Applying an update twice gives what applying it once gives: of two
/// stores that hold the same, the one that has applied an update once and
/// the one that has applied it twice hold the same and have the same
/// waiting.
pub proof fn law_once_or_twice(
    s0: Store,
    t0: Store,
    u: UpdateView,
    s1: Store,
    t1: Store,
    t2: Store,
)
    requires
        u.wf(),
        alike(s0, t0),
        applied(s0, u, s1),
        applied(t0, u, t1),
        applied(t1, u, t2),
    ensures
        alike(s1, t2),
{
    law_apply_determined(s0, t0, u, s1, t1);
    crate::store::law_apply_twice(t0, u, t1, t2);
    lemma_core_names(s1, t1);
    assert forall|c: ClientID| #[trigger] s1.items_of(c) == t2.items_of(c) by {
        assert(s1.items_of(c) == t1.items_of(c));
        assert(t2.items_of(c) == t1.items_of(c));
    }
    lemma_core_names(t2, t1);
    assert forall|id: ID| s1.knows(id) implies #[trigger] s1.seq_of(id) == t2.seq_of(id) by {
        assert(t1.knows(id) == s1.knows(id));
        assert(t1.knows(id) == t2.knows(id));
        assert(s1.seq_of(id) == t1.seq_of(id));
        assert(t2.seq_of(id) == t1.seq_of(id));
    }
    assert forall|k: int| 0 <= k < s1.types.len() implies same_type(
        #[trigger] s1.types[k],
        t2.types[k],
    ) by {
        assert(same_type(s1.types[k], t1.types[k]));
    }
}

/// Two falling tables with the same clients have them at the same places.
pub proof fn lemma_same_keys(x: Seq<(ClientID, ClientList)>, y: Seq<(ClientID, ClientList)>)
    requires
        falling(x),
        falling(y),
        forall|c: ClientID| has_key(x, c) == has_key(y, c),
    ensures
        x.len() == y.len(),
        forall|i: int| 0 <= i < x.len() ==> (#[trigger] x[i]).0 == y[i].0,
    decreases x.len(),
{
    if x.len() == 0 {
        if y.len() > 0 {
            lemma_index_of(y, 0);
            assert(has_key(x, y[0].0));
        }
    } else {
        lemma_index_of(x, 0);
        assert(has_key(y, x[0].0));
        let j = index_of(y, x[0].0);
        lemma_index_of(y, 0);
        assert(has_key(x, y[0].0));
        let i = index_of(x, y[0].0);
        if j > 0 {
            assert(y[0].0 > y[j].0);
        }
        if i > 0 {
            assert(x[0].0 > x[i].0);
        }
        assert(x[0].0 == y[0].0);
        let xs = x.drop_first();
        let ys = y.drop_first();
        assert(falling(xs)) by {
            assert forall|p: int, q: int| 0 <= p < q < xs.len() implies (#[trigger] xs[p]).0 > (
            #[trigger] xs[q]).0 by {
                assert(x[p + 1].0 > x[q + 1].0);
            }
        }
        assert(falling(ys)) by {
            assert forall|p: int, q: int| 0 <= p < q < ys.len() implies (#[trigger] ys[p]).0 > (
            #[trigger] ys[q]).0 by {
                assert(y[p + 1].0 > y[q + 1].0);
            }
        }
        assert forall|c: ClientID| has_key(xs, c) == has_key(ys, c) by {
            if has_key(xs, c) {
                let p = index_of(xs, c);
                assert(x[p + 1].0 == c);
                assert(x[0].0 > x[p + 1].0);
                assert(has_key(x, c));
                let q = index_of(y, c);
                assert(q != 0);
                assert(ys[q - 1].0 == c);
            }
            if has_key(ys, c) {
                let p = index_of(ys, c);
                assert(y[p + 1].0 == c);
                assert(y[0].0 > y[p + 1].0);
                assert(has_key(y, c));
                let q = index_of(x, c);
                assert(q != 0);
                assert(xs[q - 1].0 == c);
            }
        }
        lemma_same_keys(xs, ys);
        assert forall|i: int| 0 <= i < x.len() implies (#[trigger] x[i]).0 == y[i].0 by {
            if i > 0 {
                assert(xs[i - 1].0 == ys[i - 1].0);
            }
        }
    }
}

/// Stores that hold the same blocks write the same: the runs of blocks
/// that stand for the whole of each are the same, and so are the sets of
/// their tombstones.
pub proof fn law_alike_write_same(a: Store, b: Store, da: IdSetView, db: IdSetView)
    requires
        a.wf(),
        b.wf(),
        forall|c: ClientID| #[trigger] a.items_of(c) == b.items_of(c),
        ids_wf(da),
        ids_wf(db),
        forall|id: ID| #[trigger] ids_contain(da, id) <==> a.dead(id),
        forall|id: ID| #[trigger] ids_contain(db, id) <==> b.dead(id),
    ensures
        whole_blocks(a.clients@) == whole_blocks(b.clients@),
        da == db,
{
    let x = a.clients@;
    let y = b.clients@;
    assert forall|c: ClientID| has_key(x, c) == has_key(y, c) by {
        assert(a.items_of(c) == b.items_of(c));
        if has_key(x, c) {
            let i = index_of(x, c);
            assert(x[i].1.wf(x[i].0, a.types.len() as int));
            assert(a.items_of(c).len() >= 1);
        }
        if has_key(y, c) {
            let i = index_of(y, c);
            assert(y[i].1.wf(y[i].0, b.types.len() as int));
            assert(b.items_of(c).len() >= 1);
        }
    }
    lemma_same_keys(x, y);
    assert forall|i: int| 0 <= i < x.len() implies list_items(#[trigger] x[i].1) == list_items(
        y[i].1,
    ) by {
        let c = x[i].0;
        lemma_index_of(x, i);
        lemma_index_of(y, i);
        assert(a.items_of(c) == b.items_of(c));
    }
    assert(whole_blocks(x) =~= whole_blocks(y));
    lemma_core_names(a, b);
    assert(crate::id_set::same_ids(da, db)) by {
        assert forall|id: ID| #[trigger] ids_contain(da, id) <==> ids_contain(db, id) by {
            assert(a.items_of(id.client) == b.items_of(id.client));
            assert(a.dead(id) == b.dead(id));
        }
    }
    lemma_ids_unique(da, db);
}

/// Whether the blocks `q` begin with the blocks `p`.
pub open spec fn begins_with(q: Seq<ItemView>, p: Seq<ItemView>) -> bool {
    p.len() <= q.len() && q.subrange(0, p.len() as int) == p
}

/// Whether the store `s1` has, of every client, the blocks that the store
/// `s0` has, and behind them others or none.
pub open spec fn keeps_blocks(s0: Store, s1: Store) -> bool {
    forall|c: ClientID| begins_with(#[trigger] s1.items_of(c), s0.items_of(c))
}

/// To keep the blocks of a store that keeps the blocks of another is to
/// keep the blocks of that other.
pub proof fn lemma_keeps_on(a: Store, b: Store, c: Store)
    requires
        keeps_blocks(a, b),
        keeps_blocks(b, c),
    ensures
        keeps_blocks(a, c),
{
    assert forall|x: ClientID| begins_with(#[trigger] c.items_of(x), a.items_of(x)) by {
        let p = a.items_of(x);
        let q = b.items_of(x);
        let r = c.items_of(x);
        assert(begins_with(q, p));
        assert(begins_with(r, q));
        assert(r.subrange(0, p.len() as int) =~= r.subrange(0, q.len() as int).subrange(
            0,
            p.len() as int,
        ));
    }
}

/// Dealing with a block leaves the blocks that the store has where they
/// are.
pub proof fn lemma_step_blocks(s0: Store, r0: Seq<ItemView>, o: ItemView, s1: Store, r1: Seq<ItemView>)
    requires
        step(s0, r0, o, s1, r1),
    ensures
        keeps_blocks(s0, s1),
{
    reveal(took);
    assert forall|c: ClientID| begins_with(#[trigger] s1.items_of(c), s0.items_of(c)) by {
        let p = s0.items_of(c);
        assert(p.subrange(0, p.len() as int) =~= p);
        if o.end() > s0.state(o.id.client) && s0.takes(o) {
            let it = s0.cut(o);
            if c == it.id.client {
                assert(p.push(it).subrange(0, p.len() as int) =~= p);
            } else {
                assert(s1.items_of(c) == p);
            }
        }
    }
}

/// A pass leaves the blocks that the store has where they are.
pub proof fn lemma_passed_blocks(s0: Store, work: Seq<ItemView>, n: int, s1: Store, r1: Seq<ItemView>)
    requires
        passed(s0, work, n, s1, r1),
    ensures
        keeps_blocks(s0, s1),
    decreases n,
{
    reveal(passed);
    if n > 0 {
        let (sm, rm) = choose|sm: Store, rm: Seq<ItemView>|
            passed(s0, work, n - 1, sm, rm) && #[trigger] step(sm, rm, work[n - 1], s1, r1);
        lemma_passed_blocks(s0, work, n - 1, sm, rm);
        lemma_step_blocks(sm, rm, work[n - 1], s1, r1);
        lemma_keeps_on(s0, sm, s1);
    } else {
        assert forall|c: ClientID| begins_with(#[trigger] s1.items_of(c), s0.items_of(c)) by {
            let p = s0.items_of(c);
            assert(p.subrange(0, p.len() as int) =~= p);
        }
    }
}

/// Rounds leave the blocks that the store has where they are.
pub proof fn lemma_rounds_blocks(s0: Store, w0: Seq<ItemView>, k: int, s1: Store, w1: Seq<ItemView>)
    requires
        rounds(s0, w0, k, s1, w1),
    ensures
        keeps_blocks(s0, s1),
    decreases k,
{
    reveal(rounds);
    if k > 0 {
        let (sm, wm) = choose|sm: Store, wm: Seq<ItemView>|
            rounds(s0, w0, k - 1, sm, wm) && #[trigger] passed(sm, wm, wm.len() as int, s1, w1)
                && w1.len() < wm.len();
        lemma_rounds_blocks(s0, w0, k - 1, sm, wm);
        lemma_passed_blocks(sm, wm, wm.len() as int, s1, w1);
        lemma_keeps_on(s0, sm, s1);
    } else {
        assert forall|c: ClientID| begins_with(#[trigger] s1.items_of(c), s0.items_of(c)) by {
            let p = s0.items_of(c);
            assert(p.subrange(0, p.len() as int) =~= p);
        }
    }
}

/// Applying an update leaves the blocks that the store has where they
/// are, puts the blocks that it takes in behind them, and then puts the
/// tombstones: of every client the store has afterwards the blocks that
/// it had, and behind them others or none, with tombstones over what the
/// deletions hold of the client.
pub proof fn law_apply_keeps_blocks(
    s0: Store,
    u: UpdateView,
    a: Store,
    b: Store,
    m: IdSetView,
    s1: Store,
)
    requires
        came(s0, u, a, b, m, s1),
    ensures
        keeps_blocks(s0, b),
        forall|c: ClientID| #[trigger] s1.items_of(c) == erased_by(b.items_of(c), m, c),
{
    reveal(came);
    let w = items_view(s0.pending@) + crate::roundtrip::flatten(u.blocks);
    let rest = items_view(s1.pending@);
    let (k, sm, wm) = choose|k: int, sm: Store, wm: Seq<ItemView>|
        0 <= k && #[trigger] rounds(a, w, k, sm, wm) && passed(sm, wm, wm.len() as int, b, rest)
            && rest.len() == wm.len();
    lemma_rounds_blocks(a, w, k, sm, wm);
    lemma_passed_blocks(sm, wm, wm.len() as int, b, rest);
    lemma_keeps_on(a, sm, b);
    assert forall|c: ClientID| begins_with(#[trigger] b.items_of(c), s0.items_of(c)) by {
        assert(begins_with(b.items_of(c), a.items_of(c)));
    }
}

} // verus!
