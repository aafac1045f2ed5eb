//! Tables keyed by client, kept in falling order of the client.

use crate::id::ClientID;
use vstd::prelude::*;

verus! {

/// Entries whose clients fall strictly from one to the next.
pub open spec fn falling<T>(v: Seq<(ClientID, T)>) -> bool {
    forall|i: int, j: int| 0 <= i < j < v.len() ==> (#[trigger] v[i]).0 > (#[trigger] v[j]).0
}

/// Whether the table has an entry for `client`.
pub open spec fn has_key<T>(v: Seq<(ClientID, T)>, client: ClientID) -> bool {
    exists|i: int| 0 <= i < v.len() && (#[trigger] v[i]).0 == client
}

/// Where the entry of `client` stands.
pub open spec fn index_of<T>(v: Seq<(ClientID, T)>, client: ClientID) -> int {
    choose|i: int| 0 <= i < v.len() && (#[trigger] v[i]).0 == client
}

/// In a falling table a client has one entry at most.
pub proof fn lemma_index_of<T>(v: Seq<(ClientID, T)>, i: int)
    requires
        falling(v),
        0 <= i < v.len(),
    ensures
        has_key(v, v[i].0),
        index_of(v, v[i].0) == i,
{
    let c = v[i].0;
    let k = index_of(v, c);
    if k < i {
        assert(v[k].0 > v[i].0);
    } else if k > i {
        assert(v[i].0 > v[k].0);
    }
}

/// Whether the clients fall, checked from neighbour to neighbour.
pub fn check_falling<T>(v: &Vec<(ClientID, T)>) -> (r: bool)
    ensures
        r == falling(v@),
{
    let mut i: usize = 0;
    while i < v.len()
        invariant
            i <= v.len(),
            falling(v@.subrange(0, i as int)),
        decreases v.len() - i,
    {
        let ghost done = v@.subrange(0, i as int);
        let ghost next = v@.subrange(0, i + 1);
        if i > 0 {
            if v[i - 1].0 <= v[i].0 {
                assert(!(v@[i - 1].0 > v@[i as int].0));
                return false;
            }
        }
        proof {
            assert forall|k: int, l: int| 0 <= k < l < next.len() implies (#[trigger] next[k]).0 > (
            #[trigger] next[l]).0 by {
                if l < i {
                    assert(done[k].0 > done[l].0);
                } else if k < i - 1 {
                    assert(done[k].0 > done[i - 1].0);
                }
            }
        }
        i = i + 1;
    }
    assert(v@.subrange(0, i as int) =~= v@);
    true
}

/// The place of `client` in the table: whether it is there, and where it
/// stands or would stand. Found by halving.
pub fn find_key<T>(v: &Vec<(ClientID, T)>, client: ClientID) -> (r: (bool, usize))
    requires
        falling(v@),
    ensures
        r.1 <= v.len(),
        r.0 == has_key(v@, client),
        r.0 ==> r.1 < v.len() && v[r.1 as int].0 == client && index_of(v@, client) == r.1,
        forall|j: int| 0 <= j < r.1 ==> (#[trigger] v[j]).0 > client,
        forall|j: int|
            (if r.0 {
                r.1 + 1
            } else {
                r.1 as int
            }) <= j < v.len() ==> (#[trigger] v[j]).0 < client,
{
    let mut lo: usize = 0;
    let mut hi: usize = v.len();
    while lo < hi
        invariant
            lo <= hi <= v.len(),
            falling(v@),
            forall|j: int| 0 <= j < lo ==> (#[trigger] v[j]).0 > client,
            forall|j: int| hi <= j < v.len() ==> (#[trigger] v[j]).0 < client,
        decreases hi - lo,
    {
        let mid: usize = lo + (hi - lo) / 2;
        let c: ClientID = v[mid].0;
        if c == client {
            assert forall|j: int| 0 <= j < mid implies (#[trigger] v[j]).0 > client by {
                assert(v[j].0 > v[mid as int].0);
            }
            assert forall|j: int| mid + 1 <= j < v.len() implies (#[trigger] v[j]).0 < client by {
                assert(v[mid as int].0 > v[j].0);
            }
            proof {
                lemma_index_of(v@, mid as int);
            }
            return (true, mid);
        } else if c > client {
            assert forall|j: int| 0 <= j < mid + 1 implies (#[trigger] v[j]).0 > client by {
                if j < mid {
                    assert(v[j].0 > v[mid as int].0);
                }
            }
            lo = mid + 1;
        } else {
            assert forall|j: int| mid <= j < v.len() implies (#[trigger] v[j]).0 < client by {
                if j > mid {
                    assert(v[mid as int].0 > v[j].0);
                }
            }
            hi = mid;
        }
    }
    assert(!has_key(v@, client)) by {
        if has_key(v@, client) {
            let i = index_of(v@, client);
            if i < lo {
                assert(v[i].0 > client);
            } else {
                assert(v[i].0 < client);
            }
        }
    }
    (false, lo)
}

/// A falling table in which one entry gives way to another of the same
/// client keeps its clients where they are.
pub proof fn lemma_replace<T>(v: Seq<(ClientID, T)>, p: int, e: (ClientID, T))
    requires
        falling(v),
        0 <= p < v.len(),
        e.0 == v[p].0,
    ensures
        falling(v.update(p, e)),
        forall|c: ClientID| #[trigger] has_key(v.update(p, e), c) == has_key(v, c),
        forall|c: ClientID|
            has_key(v, c) ==> #[trigger] index_of(v.update(p, e), c) == index_of(v, c),
{
    let w = v.update(p, e);
    assert forall|i: int, j: int| 0 <= i < j < w.len() implies (#[trigger] w[i]).0 > (
    #[trigger] w[j]).0 by {
        assert(v[i].0 > v[j].0);
    }
    assert forall|c: ClientID| #[trigger] has_key(w, c) == has_key(v, c) by {
        if has_key(w, c) {
            let i = index_of(w, c);
            assert(v[i].0 == c);
        }
        if has_key(v, c) {
            let i = index_of(v, c);
            assert(w[i].0 == c);
        }
    }
    assert forall|c: ClientID| has_key(v, c) implies #[trigger] index_of(w, c) == index_of(
        v,
        c,
    ) by {
        let i = index_of(v, c);
        assert(w[i].0 == c);
        lemma_index_of(w, i);
    }
}

/// A falling table that takes a new client at its place stays falling, and
/// every other client keeps its entry.
pub proof fn lemma_insert<T>(v: Seq<(ClientID, T)>, p: int, e: (ClientID, T))
    requires
        falling(v),
        0 <= p <= v.len(),
        forall|j: int| 0 <= j < p ==> (#[trigger] v[j]).0 > e.0,
        forall|j: int| p <= j < v.len() ==> (#[trigger] v[j]).0 < e.0,
    ensures
        falling(v.insert(p, e)),
        has_key(v.insert(p, e), e.0),
        index_of(v.insert(p, e), e.0) == p,
        !has_key(v, e.0),
        forall|c: ClientID| c != e.0 ==> #[trigger] has_key(v.insert(p, e), c) == has_key(v, c),
        forall|c: ClientID|
            c != e.0 && has_key(v, c) ==> (#[trigger] v.insert(p, e)[index_of(v.insert(p, e), c)])
                == v[index_of(v, c)],
{
    let w = v.insert(p, e);
    assert forall|i: int, j: int| 0 <= i < j < w.len() implies (#[trigger] w[i]).0 > (
    #[trigger] w[j]).0 by {
        let a = if i < p {
            i
        } else {
            i - 1
        };
        let b = if j < p {
            j
        } else {
            j - 1
        };
        if i != p && j != p {
            assert(v[a].0 > v[b].0);
        } else if i == p {
            assert(v[b].0 < e.0);
        } else {
            assert(v[a].0 > e.0);
        }
    }
    assert(w[p].0 == e.0);
    lemma_index_of(w, p);
    if has_key(v, e.0) {
        let i = index_of(v, e.0);
        if i < p {
            assert(v[i].0 > e.0);
        } else {
            assert(v[i].0 < e.0);
        }
    }
    assert forall|c: ClientID| c != e.0 implies #[trigger] has_key(w, c) == has_key(v, c) by {
        if has_key(w, c) {
            let i = index_of(w, c);
            let a = if i < p {
                i
            } else {
                i - 1
            };
            assert(v[a].0 == c);
        }
        if has_key(v, c) {
            let i = index_of(v, c);
            let a = if i < p {
                i
            } else {
                i + 1
            };
            assert(w[a].0 == c);
        }
    }
    assert forall|c: ClientID| c != e.0 && has_key(v, c) implies (#[trigger] w[index_of(w, c)])
        == v[index_of(v, c)] by {
        let i = index_of(v, c);
        let a = if i < p {
            i
        } else {
            i + 1
        };
        assert(w[a] == v[i]);
        lemma_index_of(w, a);
    }
}

/// A falling table that loses an entry stays falling, and every other
/// client keeps its entry.
pub proof fn lemma_remove<T>(v: Seq<(ClientID, T)>, p: int)
    requires
        falling(v),
        0 <= p < v.len(),
    ensures
        falling(v.remove(p)),
        !has_key(v.remove(p), v[p].0),
        forall|c: ClientID| c != v[p].0 ==> #[trigger] has_key(v.remove(p), c) == has_key(v, c),
        forall|c: ClientID|
            c != v[p].0 && has_key(v, c) ==> (#[trigger] v.remove(p)[index_of(v.remove(p), c)])
                == v[index_of(v, c)],
{
    let w = v.remove(p);
    let gone = v[p].0;
    assert forall|i: int, j: int| 0 <= i < j < w.len() implies (#[trigger] w[i]).0 > (
    #[trigger] w[j]).0 by {
        let a = if i < p {
            i
        } else {
            i + 1
        };
        let b = if j < p {
            j
        } else {
            j + 1
        };
        assert(v[a].0 > v[b].0);
    }
    if has_key(w, gone) {
        let i = index_of(w, gone);
        let a = if i < p {
            i
        } else {
            i + 1
        };
        assert(v[a].0 == gone);
        if a < p {
            assert(v[a].0 > v[p].0);
        } else {
            assert(v[p].0 > v[a].0);
        }
    }
    assert forall|c: ClientID| c != gone implies #[trigger] has_key(w, c) == has_key(v, c) by {
        if has_key(w, c) {
            let i = index_of(w, c);
            let a = if i < p {
                i
            } else {
                i + 1
            };
            assert(v[a].0 == c);
        }
        if has_key(v, c) {
            let i = index_of(v, c);
            let a = if i < p {
                i
            } else {
                i - 1
            };
            assert(w[a].0 == c);
        }
    }
    assert forall|c: ClientID| c != gone && has_key(v, c) implies (#[trigger] w[index_of(w, c)])
        == v[index_of(v, c)] by {
        let i = index_of(v, c);
        let a = if i < p {
            i
        } else {
            i - 1
        };
        assert(w[a] == v[i]);
        lemma_index_of(w, a);
    }
}

} // verus!
