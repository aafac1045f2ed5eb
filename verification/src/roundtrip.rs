//! Reading a payload and writing it again.

use crate::block::{Item, ItemView};
use crate::id_set::ids_wf;
use crate::update::{blocks_view, items_view, ClientBlocksView, Update};
use crate::codec_v2::update_at_v2;
use crate::encode_v2::{key_room, update_bytes_v2, update_cols};
use crate::law_v2::law_update_round_trip_v2;
use crate::update_v1::{law_update_round_trip_v1, update_at, update_bytes};
use vstd::prelude::*;

verus! {

/// The blocks of all runs, in the order of the runs.
pub open spec fn flatten(blocks: Seq<ClientBlocksView>) -> Seq<ItemView>
    decreases blocks.len(),
{
    if blocks.len() == 0 {
        Seq::empty()
    } else {
        flatten(blocks.drop_last()) + blocks.last().items
    }
}

/// Two rows of blocks of one length that agree block by block, scalar
/// values compared as `lib0` compares them.
pub open spec fn items_agree(a: Seq<ItemView>, b: Seq<ItemView>) -> bool {
    a.len() == b.len() && forall|i: int| 0 <= i < a.len() ==> (#[trigger] a[i]).agrees(b[i])
}

/// Whether every block is well formed.
pub open spec fn all_wf(v: Seq<ItemView>) -> bool {
    forall|i: int| 0 <= i < v.len() ==> (#[trigger] v[i]).wf()
}

/// Whether two runs of bytes are the same.
pub fn same_bytes(a: &[u8], b: &[u8]) -> (r: bool)
    ensures
        r == (a@ == b@),
{
    if a.len() != b.len() {
        return false;
    }
    let mut i: usize = 0;
    while i < a.len()
        invariant
            i <= a.len(),
            a.len() == b.len(),
            forall|j: int| 0 <= j < i ==> a[j] == b[j],
        decreases a.len() - i,
    {
        if a[i] != b[i] {
            return false;
        }
        i = i + 1;
    }
    assert(a@ =~= b@);
    true
}

/// Whether every block is well formed.
pub fn check_items(v: &Vec<Item>) -> (r: bool)
    ensures
        r == all_wf(items_view(v@)),
{
    let ghost w = items_view(v@);
    let mut i: usize = 0;
    while i < v.len()
        invariant
            i <= v.len(),
            w == items_view(v@),
            forall|j: int| 0 <= j < i ==> (#[trigger] w[j]).wf(),
        decreases v.len() - i,
    {
        if !v[i].check() {
            assert(!w[i as int].wf());
            return false;
        }
        i = i + 1;
    }
    true
}

/// Copies of the blocks of all runs of an update, in the order of the
/// runs.
pub fn all_items(u: &Update) -> (r: Vec<Item>)
    ensures
        items_view(r@) == flatten(u@.blocks),
{
    let ghost b = u@.blocks;
    let mut out: Vec<Item> = Vec::new();
    let mut i: usize = 0;
    assert(items_view(out@) =~= flatten(b.subrange(0, 0)));
    while i < u.blocks.len()
        invariant
            i <= u.blocks.len(),
            b == u@.blocks,
            items_view(out@) == flatten(b.subrange(0, i as int)),
        decreases u.blocks.len() - i,
    {
        let section = &u.blocks[i];
        let ghost done = flatten(b.subrange(0, i as int));
        let ghost sv = section@;
        let mut j: usize = 0;
        assert(items_view(out@) =~= done + sv.items.subrange(0, 0));
        while j < section.items.len()
            invariant
                j <= section.items.len(),
                sv == section@,
                items_view(out@) == done + sv.items.subrange(0, j as int),
            decreases section.items.len() - j,
        {
            let ghost before = items_view(out@);
            let it = section.items[j].duplicate();
            let ghost v = it@;
            out.push(it);
            proof {
                assert(items_view(out@) =~= before.push(v));
                assert(sv.items[j as int] == section.items[j as int]@);
                assert(before.push(v) =~= done + sv.items.subrange(0, j + 1));
            }
            j = j + 1;
        }
        proof {
            let next = b.subrange(0, i + 1);
            assert(next.drop_last() =~= b.subrange(0, i as int));
            assert(next.last() == sv);
            assert(sv.items.subrange(0, j as int) =~= sv.items);
        }
        i = i + 1;
    }
    assert(b.subrange(0, i as int) =~= b);
    out
}

/// Whether two rows of blocks agree block by block.
pub fn items_same(a: &Vec<Item>, b: &Vec<Item>) -> (r: bool)
    requires
        all_wf(items_view(a@)),
        all_wf(items_view(b@)),
    ensures
        r == items_agree(items_view(a@), items_view(b@)),
{
    if a.len() != b.len() {
        return false;
    }
    let ghost va = items_view(a@);
    let ghost vb = items_view(b@);
    let mut i: usize = 0;
    while i < a.len()
        invariant
            i <= a.len(),
            a.len() == b.len(),
            va == items_view(a@),
            vb == items_view(b@),
            all_wf(va),
            all_wf(vb),
            forall|j: int| 0 <= j < i ==> (#[trigger] va[j]).agrees(vb[j]),
        decreases a.len() - i,
    {
        assert(va[i as int].wf() && vb[i as int].wf());
        assert(va[i as int] == a[i as int]@ && vb[i as int] == b[i as int]@);
        if !a[i].same(&b[i]) {
            return false;
        }
        i = i + 1;
    }
    true
}

/// The blocks of a well-formed update are well formed.
pub proof fn lemma_flatten_wf(blocks: Seq<ClientBlocksView>)
    requires
        crate::update::blocks_wf(blocks),
    ensures
        all_wf(flatten(blocks)),
    decreases blocks.len(),
{
    if blocks.len() > 0 {
        let w = blocks.drop_last();
        let l = blocks.last();
        assert forall|i: int| 0 <= i < w.len() implies (#[trigger] w[i]).wf() by {
            assert(blocks[i].wf());
        }
        lemma_flatten_wf(w);
        assert(l.wf());
        let f = flatten(blocks);
        assert forall|i: int| 0 <= i < f.len() implies (#[trigger] f[i]).wf() by {
            if i < flatten(w).len() {
                assert(flatten(w)[i].wf());
            } else {
                crate::update::lemma_chain_at(
                    l.items,
                    l.client,
                    l.clock as int,
                    i - flatten(w).len(),
                );
            }
        }
    }
}

/// Reads a payload in the first format, holds its blocks against
/// `expected`, writes what was read and holds the bytes against the
/// payload.
///
/// The answer is yes where the payload holds one update, whose blocks
/// agree with the blocks expected, which are well formed, whose delete set
/// is in order, and whose bytes are the payload.
pub fn roundtrip_v1(payload: &[u8], expected: &Vec<Item>) -> (r: bool)
    ensures
        r == (all_wf(items_view(expected@)) && (update_at(payload@) matches Some(w) && items_agree(
            flatten(w.blocks),
            items_view(expected@),
        ) && ids_wf(w.delete_set) && update_bytes(w) == payload@)),
{
    if !check_items(expected) {
        return false;
    }
    let u = match Update::decode_v1(payload) {
        Some(u) => u,
        None => {
            return false;
        },
    };
    let ghost w = update_at(payload@).unwrap();
    let got = all_items(&u);
    proof {
        lemma_flatten_wf(u@.blocks);
    }
    if !items_same(&got, expected) {
        return false;
    }
    let bytes = u.encode_v1();
    proof {
        law_update_round_trip_v1(u@);
    }
    same_bytes(bytes.as_slice(), payload)
}

/// Reads a payload in the second format, holds its blocks against
/// `expected`, writes what was read and holds the bytes against the
/// payload.
///
/// The answer is yes where the payload holds one update, whose blocks
/// agree with the blocks expected, which are well formed, whose delete set
/// is in order, for whose keys the format has room, and whose bytes are
/// the payload.
pub fn roundtrip_v2(payload: &[u8], expected: &Vec<Item>) -> (r: bool)
    ensures
        r == (all_wf(items_view(expected@)) && (update_at_v2(payload@) matches Some(w)
            && items_agree(flatten(w.blocks), items_view(expected@)) && ids_wf(w.delete_set)
            && update_cols(w).st.key_clock.len() <= key_room() && update_bytes_v2(w) == payload@)),
{
    if !check_items(expected) {
        return false;
    }
    let u = match Update::decode_v2(payload) {
        Some(u) => u,
        None => {
            return false;
        },
    };
    let got = all_items(&u);
    proof {
        lemma_flatten_wf(u@.blocks);
    }
    if !items_same(&got, expected) {
        return false;
    }
    match u.encode_v2() {
        Some(bytes) => {
            proof {
                law_update_round_trip_v2(u@);
            }
            same_bytes(bytes.as_slice(), payload)
        },
        None => false,
    }
}

} // verus!
