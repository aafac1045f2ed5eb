//! State vectors: for each client the next clock that a replica expects.

use crate::id::{ClientID, ID};
use crate::ordered::{
    check_falling, falling, find_key, has_key, index_of, lemma_index_of, lemma_insert,
    lemma_remove,
};
use vstd::prelude::*;

verus! {

/// The entries of a state vector, client by client.
pub type StateView = Seq<(ClientID, u32)>;

/// Clients in falling order, none with the clock zero.
pub open spec fn sv_wf(v: StateView) -> bool {
    falling(v) && forall|i: int| 0 <= i < v.len() ==> (#[trigger] v[i]).1 >= 1
}

/// The next clock expected of `client`: zero where the vector does not
/// know the client.
pub open spec fn sv_get(v: StateView, client: ClientID) -> u32 {
    if has_key(v, client) {
        v[index_of(v, client)].1
    } else {
        0
    }
}

/// What a list of pairs says of `client`, where a later pair overrides an
/// earlier one.
pub open spec fn pairs_get(v: StateView, client: ClientID) -> u32
    decreases v.len(),
{
    if v.len() == 0 {
        0
    } else if v.last().0 == client {
        v.last().1
    } else {
        pairs_get(v.drop_last(), client)
    }
}

/// One stretch of clocks of one client: from `from` up to, and without, `to`.
#[derive(Clone, Copy, Debug, PartialEq, Eq, Structural)]
pub struct Gap {
    pub client: ClientID,
    pub from: u32,
    pub to: u32,
}

/// What a replica has of each client.
#[derive(Debug, PartialEq, Eq)]
pub struct StateVector {
    pub entries: Vec<(ClientID, u32)>,
}

impl View for StateVector {
    type V = StateView;

    open spec fn view(&self) -> StateView {
        self.entries@
    }
}

impl Default for StateVector {
    /// The vector of a replica that has seen nothing.
    fn default() -> (r: StateVector)
        ensures
            r@.len() == 0,
            r.wf(),
    {
        StateVector { entries: Vec::new() }
    }
}

/// A falling list of pairs says of every client what the vector reads.
pub proof fn lemma_pairs_get(v: StateView, client: ClientID)
    requires
        falling(v),
    ensures
        pairs_get(v, client) == sv_get(v, client),
    decreases v.len(),
{
    if v.len() == 0 {
    } else {
        let w = v.drop_last();
        assert forall|i: int, j: int| 0 <= i < j < w.len() implies (#[trigger] w[i]).0 > (
        #[trigger] w[j]).0 by {
            assert(v[i].0 > v[j].0);
        }
        lemma_pairs_get(w, client);
        if v.last().0 == client {
            lemma_index_of(v, v.len() - 1);
        } else if has_key(v, client) {
            let i = index_of(v, client);
            assert(w[i].0 == client);
            lemma_index_of(w, i);
        } else {
            if has_key(w, client) {
                let i = index_of(w, client);
                assert(v[i].0 == client);
            }
        }
    }
}

impl StateVector {
    pub open spec fn wf(&self) -> bool {
        sv_wf(self@)
    }

    /// Whether the entries are those of a state vector.
    pub fn check(&self) -> (r: bool)
        ensures
            r == self.wf(),
    {
        if !check_falling(&self.entries) {
            return false;
        }
        let mut i: usize = 0;
        while i < self.entries.len()
            invariant
                i <= self.entries.len(),
                forall|k: int| 0 <= k < i ==> (#[trigger] self@[k]).1 >= 1,
            decreases self.entries.len() - i,
        {
            if self.entries[i].1 == 0 {
                return false;
            }
            i = i + 1;
        }
        true
    }

    /// The next clock expected of `client`; zero for a client never seen.
    pub fn get(&self, client: ClientID) -> (r: u32)
        requires
            self.wf(),
        ensures
            r == sv_get(self@, client),
    {
        let (found, p) = find_key(&self.entries, client);
        if found {
            self.entries[p].1
        } else {
            0
        }
    }

    /// Whether the replica has the position `id`.
    pub fn contains(&self, id: &ID) -> (r: bool)
        requires
            self.wf(),
        ensures
            r == (id.clock < sv_get(self@, id.client)),
    {
        id.clock < self.get(id.client)
    }

    /// Sets the next clock expected of `client`. The clock zero forgets the
    /// client.
    pub fn set(&mut self, client: ClientID, clock: u32)
        requires
            old(self).wf(),
        ensures
            final(self).wf(),
            forall|c: ClientID| #[trigger]
                sv_get(final(self)@, c) == (if c == client {
                    clock
                } else {
                    sv_get(old(self)@, c)
                }),
            clock >= 1 && (old(self)@.len() == 0 || old(self)@.last().0 > client) ==> final(self)@
                == old(self)@.push((client, clock)),
    {
        let ghost v = self@;
        let (found, p) = find_key(&self.entries, client);
        if found {
            self.entries.remove(p);
            proof {
                lemma_remove(v, p as int);
            }
        }
        let ghost v1 = self@;
        proof {
            assert forall|i: int| 0 <= i < v1.len() implies (#[trigger] v1[i]).1 >= 1 by {
                if found && i >= p {
                    assert(v[i + 1].1 >= 1);
                } else {
                    assert(v[i].1 >= 1);
                }
            }
            assert forall|j: int| 0 <= j < p implies (#[trigger] v1[j]).0 > client by {
                assert(v[j].0 > client);
            }
            assert forall|j: int| p <= j < v1.len() implies (#[trigger] v1[j]).0 < client by {
                if found {
                    assert(v[j + 1].0 < client);
                } else {
                    assert(v[j].0 < client);
                }
            }
            assert forall|c: ClientID| #[trigger]
                sv_get(v1, c) == (if c == client {
                    0
                } else {
                    sv_get(v, c)
                }) by {
                if found {
                    assert(c != client ==> has_key(v1, c) == has_key(v, c));
                    if c != client && has_key(v, c) {
                        assert(v1[index_of(v1, c)] == v[index_of(v, c)]);
                    }
                } else if c == client {
                }
            }
        }
        if clock >= 1 {
            self.entries.insert(p, (client, clock));
            proof {
                let v2 = self@;
                lemma_insert(v1, p as int, (client, clock));
                assert forall|i: int| 0 <= i < v2.len() implies (#[trigger] v2[i]).1 >= 1 by {
                    if i < p {
                        assert(v1[i].1 >= 1);
                    } else if i > p {
                        assert(v1[i - 1].1 >= 1);
                    }
                }
                assert forall|c: ClientID| #[trigger]
                    sv_get(v2, c) == (if c == client {
                        clock
                    } else {
                        sv_get(v, c)
                    }) by {
                    assert(sv_get(v1, c) == (if c == client {
                        0
                    } else {
                        sv_get(v, c)
                    }));
                    if c != client {
                        assert(has_key(v2, c) == has_key(v1, c));
                        if has_key(v1, c) {
                            assert(v2[index_of(v2, c)] == v1[index_of(v1, c)]);
                        }
                    }
                }
                if v.len() == 0 || v.last().0 > client {
                    if found {
                        if p < v.len() - 1 {
                            assert(v[p as int].0 > v[v.len() - 1].0);
                        }
                    }
                    if p < v.len() {
                        assert(v[p as int].0 <= client);
                        if p < v.len() - 1 {
                            assert(v[p as int].0 > v[v.len() - 1].0);
                        }
                    }
                    assert(v2 =~= v.push((client, clock)));
                }
            }
        }
    }

    /// Moves the next clock expected of `client` on by `delta`. A clock
    /// that would not fit stays at the largest clock.
    pub fn inc_by(&mut self, client: ClientID, delta: u32)
        requires
            old(self).wf(),
        ensures
            final(self).wf(),
            forall|c: ClientID| #[trigger]
                sv_get(final(self)@, c) == (if c == client {
                    if sv_get(old(self)@, c) + delta <= u32::MAX {
                        (sv_get(old(self)@, c) + delta) as u32
                    } else {
                        u32::MAX
                    }
                } else {
                    sv_get(old(self)@, c)
                }),
    {
        let now: u32 = self.get(client);
        let next: u32 = if delta <= u32::MAX - now {
            now + delta
        } else {
            u32::MAX
        };
        self.set(client, next);
    }

    /// What a replica with this vector has and a replica with the vector
    /// `other` lacks: for every client of which this vector expects a later
    /// clock than `other`, the clocks from what `other` expects up to what
    /// this one expects. The clients come in falling order.
    pub fn diff(&self, other: &StateVector) -> (r: Vec<Gap>)
        requires
            self.wf(),
            other.wf(),
        ensures
            gaps_of(r@, self@, other@),
    {
        let mut out: Vec<Gap> = Vec::new();
        let mut i: usize = 0;
        let ghost v = self@;
        while i < self.entries.len()
            invariant
                i <= self.entries.len(),
                v == self@,
                sv_wf(v),
                other.wf(),
                gaps_of(out@, v.subrange(0, i as int), other@),
            decreases self.entries.len() - i,
        {
            let client: ClientID = self.entries[i].0;
            let to: u32 = self.entries[i].1;
            let from: u32 = other.get(client);
            let ghost done = v.subrange(0, i as int);
            let ghost next = v.subrange(0, i + 1);
            let ghost before = out@;
            if to > from {
                out.push(Gap { client, from, to });
            }
            proof {
                assert(next.drop_last() =~= done);
                assert(next.last() == v[i as int]);
            }
            i = i + 1;
        }
        assert(v.subrange(0, i as int) =~= v);
        out
    }
}

/// The gaps between two vectors: one for every entry of `a` that is ahead
/// of `b`, in the order of `a`.
pub open spec fn gaps(a: StateView, b: StateView) -> Seq<Gap>
    decreases a.len(),
{
    if a.len() == 0 {
        Seq::empty()
    } else {
        let e = a.last();
        let rest = gaps(a.drop_last(), b);
        if e.1 > sv_get(b, e.0) {
            rest.push(Gap { client: e.0, from: sv_get(b, e.0), to: e.1 })
        } else {
            rest
        }
    }
}

/// Whether `g` lists the gaps between `a` and `b`.
pub open spec fn gaps_of(g: Seq<Gap>, a: StateView, b: StateView) -> bool {
    g == gaps(a, b)
}

/// A gap for `client` is listed if and only if `a` is ahead of `b` there,
/// and that gap runs from what `b` expects to what `a` expects.
pub proof fn lemma_gaps(a: StateView, b: StateView, client: ClientID)
    requires
        falling(a),
    ensures
        sv_get(a, client) > sv_get(b, client) <==> exists|i: int|
            0 <= i < gaps(a, b).len() && (#[trigger] gaps(a, b)[i]).client == client,
        forall|i: int|
            0 <= i < gaps(a, b).len() && (#[trigger] gaps(a, b)[i]).client == client ==> gaps(
                a,
                b,
            )[i].from == sv_get(b, client) && gaps(a, b)[i].to == sv_get(a, client),
        forall|i: int|
            0 <= i < gaps(a, b).len() ==> has_key(a, (#[trigger] gaps(a, b)[i]).client),
    decreases a.len(),
{
    let g = gaps(a, b);
    if a.len() == 0 {
    } else {
        let w = a.drop_last();
        let e = a.last();
        let rest = gaps(w, b);
        assert forall|i: int, j: int| 0 <= i < j < w.len() implies (#[trigger] w[i]).0 > (
        #[trigger] w[j]).0 by {
            assert(a[i].0 > a[j].0);
        }
        lemma_gaps(w, b, client);
        lemma_index_of(a, a.len() - 1);
        assert forall|i: int| 0 <= i < rest.len() implies has_key(a, (#[trigger] rest[i]).client)
            && rest[i].client != e.0 by {
            let k = index_of(w, rest[i].client);
            assert(a[k].0 == rest[i].client);
            assert(a[k].0 > a[a.len() - 1].0);
        }
        if e.0 == client {
            assert(!has_key(w, client)) by {
                if has_key(w, client) {
                    let k = index_of(w, client);
                    assert(a[k].0 > a[a.len() - 1].0);
                }
            }
            if e.1 > sv_get(b, e.0) {
                assert(g[g.len() - 1].client == client);
            }
            assert forall|i: int| 0 <= i < g.len() && (#[trigger] g[i]).client == client implies i
                == rest.len() by {
                if i < rest.len() {
                    assert(rest[i].client != e.0);
                }
            }
        } else {
            if has_key(a, client) {
                let k = index_of(a, client);
                assert(w[k].0 == client);
                lemma_index_of(w, k);
            } else if has_key(w, client) {
                let k = index_of(w, client);
                assert(a[k].0 == client);
            }
            if exists|i: int| 0 <= i < rest.len() && (#[trigger] rest[i]).client == client {
                let i = choose|i: int| 0 <= i < rest.len() && (#[trigger] rest[i]).client == client;
                assert(g[i].client == client);
            }
            if exists|i: int| 0 <= i < g.len() && (#[trigger] g[i]).client == client {
                let i = choose|i: int| 0 <= i < g.len() && (#[trigger] g[i]).client == client;
                assert(rest[i].client == client);
            }
        }
        assert forall|i: int| 0 <= i < g.len() implies has_key(a, (#[trigger] g[i]).client) by {
            if i < rest.len() {
                assert(has_key(a, rest[i].client));
            }
        }
    }
}

/// State vectors that say the same of every client are the same: a state
/// vector has one form only.
pub proof fn law_state_vector_form(a: StateView, b: StateView)
    requires
        sv_wf(a),
        sv_wf(b),
        forall|c: ClientID| #[trigger] sv_get(a, c) == sv_get(b, c),
    ensures
        a == b,
    decreases a.len(),
{
    if a.len() == 0 {
        if b.len() > 0 {
            lemma_index_of(b, 0);
            assert(sv_get(b, b[0].0) == b[0].1);
            assert(sv_get(a, b[0].0) == 0);
        }
        assert(a =~= b);
    } else {
        lemma_index_of(a, 0);
        assert(sv_get(a, a[0].0) == a[0].1);
        assert(sv_get(b, a[0].0) == a[0].1);
        assert(has_key(b, a[0].0));
        let kb = index_of(b, a[0].0);
        lemma_index_of(b, 0);
        assert(sv_get(b, b[0].0) == b[0].1);
        assert(sv_get(a, b[0].0) == b[0].1);
        assert(has_key(a, b[0].0));
        let ka = index_of(a, b[0].0);
        if kb > 0 {
            assert(b[0].0 > b[kb].0);
        }
        if ka > 0 {
            assert(a[0].0 > a[ka].0);
        }
        assert(a[0] == b[0]);
        let wa = a.drop_first();
        let wb = b.drop_first();
        lemma_sv_rest(a);
        lemma_sv_rest(b);
        assert forall|c: ClientID| #[trigger] sv_get(wa, c) == sv_get(wb, c) by {
            assert(sv_get(a, c) == sv_get(b, c));
        }
        law_state_vector_form(wa, wb);
        assert(seq![a[0]] + wa =~= a);
        assert(seq![b[0]] + wb =~= b);
    }
}

/// The entries behind the first one form a state vector, which says of
/// every other client what the whole says.
pub proof fn lemma_sv_rest(v: StateView)
    requires
        sv_wf(v),
        v.len() > 0,
    ensures
        sv_wf(v.drop_first()),
        forall|c: ClientID| #[trigger]
            sv_get(v.drop_first(), c) == (if c == v[0].0 {
                0
            } else {
                sv_get(v, c)
            }),
{
    let w = v.drop_first();
    assert forall|i: int, j: int| 0 <= i < j < w.len() implies (#[trigger] w[i]).0 > (
    #[trigger] w[j]).0 by {
        assert(v[i + 1].0 > v[j + 1].0);
    }
    assert forall|i: int| 0 <= i < w.len() implies (#[trigger] w[i]).1 >= 1 by {
        assert(v[i + 1].1 >= 1);
    }
    assert forall|c: ClientID| #[trigger]
        sv_get(w, c) == (if c == v[0].0 {
            0
        } else {
            sv_get(v, c)
        }) by {
        if has_key(w, c) {
            let k = index_of(w, c);
            assert(v[k + 1].0 == c);
            assert(v[0].0 > v[k + 1].0);
            lemma_index_of(v, k + 1);
        }
        if has_key(v, c) && c != v[0].0 {
            let k = index_of(v, c);
            assert(w[k - 1].0 == c);
            lemma_index_of(w, k - 1);
        }
    }
}

} // verus!
