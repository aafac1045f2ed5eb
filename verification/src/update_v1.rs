//! Whole updates, delete sets and state vectors in the first binary format.

use crate::block::{Item, ItemView};
use crate::codec_v1::{
    item_at, item_bytes, lemma_item_round_trip, lemma_prepend, prepend, read_item, write_item,
};
use crate::id::{ClientID, ID};
use crate::id_set::{
    ids_contain, ids_ranges_ok, ids_wf, same_ids, ClientRanges, IdSet, IdSetView, Range,
};
use crate::state_vector::{lemma_pairs_get, pairs_get, sv_get, sv_wf, StateVector, StateView};
use crate::update::{
    all_wire_form, blocks_view, blocks_wf, chain, chain_end, ids_sized, items_view,
    lemma_chain_push, ClientBlocks, ClientBlocksView, Update, UpdateView,
};
use crate::varint::{
    lemma_u32_round_trip, lemma_u64_round_trip, read_u32, read_u64, u32_at, u64_at, uvar_bytes,
    write_uvar,
};
use vstd::prelude::*;

verus! {

/// `n` blocks of `client` in a row, the first with the clock `clock`, each
/// of the others with the clock behind the one before it.
#[verifier::opaque]
pub open spec fn items_at(s: Seq<u8>, pos: int, n: nat, client: ClientID, clock: u32) -> Option<
    (Seq<ItemView>, int),
>
    decreases n,
{
    if n == 0 {
        Some((Seq::empty(), pos))
    } else {
        match item_at(s, pos, ID { client, clock }) {
            Some((it, q)) => prepend(
                seq![it],
                items_at(s, q, (n - 1) as nat, client, it.end() as u32),
            ),
            None => None,
        }
    }
}

#[verifier::opaque]
pub open spec fn items_bytes(items: Seq<ItemView>) -> Seq<u8>
    decreases items.len(),
{
    if items.len() == 0 {
        Seq::empty()
    } else {
        item_bytes(items[0]) + items_bytes(items.drop_first())
    }
}

/// One run of blocks: the number of blocks, the client, the first clock,
/// the blocks.
pub open spec fn section_at(s: Seq<u8>, pos: int) -> Option<(ClientBlocksView, int)> {
    match u64_at(s, pos) {
        Some((n, q1)) => match u64_at(s, q1) {
            Some((client, q2)) => match u32_at(s, q2) {
                Some((clock, q3)) => match items_at(s, q3, n as nat, client, clock) {
                    Some((items, q4)) => Some((ClientBlocksView { client, clock, items }, q4)),
                    None => None,
                },
                None => None,
            },
            None => None,
        },
        None => None,
    }
}

pub open spec fn section_bytes(b: ClientBlocksView) -> Seq<u8> {
    uvar_bytes(b.items.len()) + uvar_bytes(b.client as nat) + uvar_bytes(b.clock as nat)
        + items_bytes(b.items)
}

#[verifier::opaque]
pub open spec fn sections_at(s: Seq<u8>, pos: int, n: nat) -> Option<(Seq<ClientBlocksView>, int)>
    decreases n,
{
    if n == 0 {
        Some((Seq::empty(), pos))
    } else {
        match section_at(s, pos) {
            Some((b, q)) => prepend(seq![b], sections_at(s, q, (n - 1) as nat)),
            None => None,
        }
    }
}

#[verifier::opaque]
pub open spec fn sections_bytes(v: Seq<ClientBlocksView>) -> Seq<u8>
    decreases v.len(),
{
    if v.len() == 0 {
        Seq::empty()
    } else {
        section_bytes(v[0]) + sections_bytes(v.drop_first())
    }
}

/// A range of a delete set: the first clock, then the number of clocks,
/// which is at least one.
pub open spec fn range_at(s: Seq<u8>, pos: int) -> Option<(Range, int)> {
    match u32_at(s, pos) {
        Some((start, q1)) => match u32_at(s, q1) {
            Some((len, q2)) => if len >= 1 && start + len <= u32::MAX {
                Some((Range { start, len }, q2))
            } else {
                None
            },
            None => None,
        },
        None => None,
    }
}

pub open spec fn range_bytes(r: Range) -> Seq<u8> {
    uvar_bytes(r.start as nat) + uvar_bytes(r.len as nat)
}

#[verifier::opaque]
pub open spec fn ranges_at(s: Seq<u8>, pos: int, n: nat) -> Option<(Seq<Range>, int)>
    decreases n,
{
    if n == 0 {
        Some((Seq::empty(), pos))
    } else {
        match range_at(s, pos) {
            Some((r, q)) => prepend(seq![r], ranges_at(s, q, (n - 1) as nat)),
            None => None,
        }
    }
}

#[verifier::opaque]
pub open spec fn ranges_bytes(v: Seq<Range>) -> Seq<u8>
    decreases v.len(),
{
    if v.len() == 0 {
        Seq::empty()
    } else {
        range_bytes(v[0]) + ranges_bytes(v.drop_first())
    }
}

/// The ranges of one client: the client, the number of ranges, the ranges.
pub open spec fn entry_at(s: Seq<u8>, pos: int) -> Option<((ClientID, Seq<Range>), int)> {
    match u64_at(s, pos) {
        Some((client, q1)) => match u64_at(s, q1) {
            Some((n, q2)) => match ranges_at(s, q2, n as nat) {
                Some((rs, q3)) => Some(((client, rs), q3)),
                None => None,
            },
            None => None,
        },
        None => None,
    }
}

pub open spec fn entry_bytes(e: (ClientID, Seq<Range>)) -> Seq<u8> {
    uvar_bytes(e.0 as nat) + uvar_bytes(e.1.len()) + ranges_bytes(e.1)
}

#[verifier::opaque]
pub open spec fn entries_at(s: Seq<u8>, pos: int, n: nat) -> Option<(IdSetView, int)>
    decreases n,
{
    if n == 0 {
        Some((Seq::empty(), pos))
    } else {
        match entry_at(s, pos) {
            Some((e, q)) => prepend(seq![e], entries_at(s, q, (n - 1) as nat)),
            None => None,
        }
    }
}

#[verifier::opaque]
pub open spec fn entries_bytes(v: IdSetView) -> Seq<u8>
    decreases v.len(),
{
    if v.len() == 0 {
        Seq::empty()
    } else {
        entry_bytes(v[0]) + entries_bytes(v.drop_first())
    }
}

/// A delete set: the number of clients, then the ranges of each.
pub open spec fn ds_at(s: Seq<u8>, pos: int) -> Option<(IdSetView, int)> {
    match u64_at(s, pos) {
        Some((n, q)) => entries_at(s, q, n as nat),
        None => None,
    }
}

pub open spec fn ds_bytes(v: IdSetView) -> Seq<u8> {
    uvar_bytes(v.len()) + entries_bytes(v)
}

/// The runs of blocks of an update: their number, then the runs.
pub open spec fn blocks_at(s: Seq<u8>, pos: int) -> Option<(Seq<ClientBlocksView>, int)> {
    match u64_at(s, pos) {
        Some((n, q)) => sections_at(s, q, n as nat),
        None => None,
    }
}

pub open spec fn blocks_bytes(v: Seq<ClientBlocksView>) -> Seq<u8> {
    uvar_bytes(v.len()) + sections_bytes(v)
}

/// The update that the bytes hold: the runs of blocks and the ranges of
/// the delete set as they are written. Bytes that hold more than one update
/// hold none.
pub open spec fn update_at(s: Seq<u8>) -> Option<UpdateView> {
    match blocks_at(s, 0) {
        Some((blocks, q)) => match ds_at(s, q) {
            Some((delete_set, q2)) => if q2 == s.len() {
                Some(UpdateView { blocks, delete_set })
            } else {
                None
            },
            None => None,
        },
        None => None,
    }
}

/// The bytes of an update.
pub open spec fn update_bytes(u: UpdateView) -> Seq<u8> {
    blocks_bytes(u.blocks) + ds_bytes(u.delete_set)
}

/// A state vector as it is written: the number of clients, then client and
/// clock of each.
pub open spec fn pair_at(s: Seq<u8>, pos: int) -> Option<((ClientID, u32), int)> {
    match u64_at(s, pos) {
        Some((client, q1)) => match u32_at(s, q1) {
            Some((clock, q2)) => Some(((client, clock), q2)),
            None => None,
        },
        None => None,
    }
}

pub open spec fn pair_bytes(e: (ClientID, u32)) -> Seq<u8> {
    uvar_bytes(e.0 as nat) + uvar_bytes(e.1 as nat)
}

#[verifier::opaque]
pub open spec fn pairs_at(s: Seq<u8>, pos: int, n: nat) -> Option<(StateView, int)>
    decreases n,
{
    if n == 0 {
        Some((Seq::empty(), pos))
    } else {
        match pair_at(s, pos) {
            Some((e, q)) => prepend(seq![e], pairs_at(s, q, (n - 1) as nat)),
            None => None,
        }
    }
}

#[verifier::opaque]
pub open spec fn pairs_bytes(v: StateView) -> Seq<u8>
    decreases v.len(),
{
    if v.len() == 0 {
        Seq::empty()
    } else {
        pair_bytes(v[0]) + pairs_bytes(v.drop_first())
    }
}

/// The pairs that the bytes hold, where they hold a state vector and
/// nothing else.
pub open spec fn sv_at(s: Seq<u8>) -> Option<StateView> {
    match u64_at(s, 0) {
        Some((n, q)) => match pairs_at(s, q, n as nat) {
            Some((v, q2)) => if q2 == s.len() {
                Some(v)
            } else {
                None
            },
            None => None,
        },
        None => None,
    }
}

pub open spec fn sv_bytes(v: StateView) -> Seq<u8> {
    uvar_bytes(v.len()) + pairs_bytes(v)
}

/// Reads `n` blocks of `client` from the clock `clock` on.
pub fn read_items(buf: &[u8], pos: usize, n: u64, client: ClientID, clock: u32) -> (r: Option<
    (Vec<Item>, usize),
>)
    requires
        pos <= buf.len(),
    ensures
        match r {
            Some((v, q)) => items_at(buf@, pos as int, n as nat, client, clock) == Some(
                (items_view(v@), q as int),
            ) && pos <= q <= buf.len() && chain(items_view(v@), client, clock as int)
                && all_wire_form(items_view(v@)) && v.len() == n,
            None => items_at(buf@, pos as int, n as nat, client, clock) is None,
        },
{
    let mut out: Vec<Item> = Vec::new();
    let mut at: usize = pos;
    let mut left: u64 = n;
    let mut now: u32 = clock;
    let ghost s = buf@;
    while left > 0
        invariant
            s == buf@,
            pos <= at <= buf.len(),
            left <= n,
            out.len() == n - left,
            chain(items_view(out@), client, clock as int),
            chain_end(items_view(out@), clock as int) == now,
            all_wire_form(items_view(out@)),
            items_at(s, pos as int, n as nat, client, clock) == prepend(
                items_view(out@),
                items_at(s, at as int, left as nat, client, now),
            ),
        decreases left,
    {
        assert(items_at(s, at as int, left as nat, client, now) == (match item_at(
            s,
            at as int,
            ID { client, clock: now },
        ) {
            Some((it, q)) => prepend(
                seq![it],
                items_at(s, q, (left - 1) as nat, client, it.end() as u32),
            ),
            None => None,
        })) by {
            reveal(items_at);
        }
        match read_item(buf, at, ID { client, clock: now }) {
            Some((it, q)) => {
                let ghost before = items_view(out@);
                let ghost v = it@;
                let n_it: usize = it.len();
                proof {
                    lemma_prepend(
                        before,
                        v,
                        items_at(s, q as int, (left - 1) as nat, client, v.end() as u32),
                    );
                    lemma_chain_push(before, client, clock as int, v);
                }
                out.push(it);
                proof {
                    let after = items_view(out@);
                    assert(after =~= before.push(v));
                    assert forall|i: int| 0 <= i < after.len() implies (
                    #[trigger] after[i]).wire_form() by {
                        if i < before.len() {
                            assert(before[i].wire_form());
                        }
                    }
                }
                now = now + n_it as u32;
                at = q;
                left = left - 1;
            },
            None => {
                return None;
            },
        }
    }
    proof {
        assert(items_at(s, at as int, 0, client, now) == Some(
            (Seq::<ItemView>::empty(), at as int),
        )) by {
            reveal(items_at);
        }
        assert(items_view(out@) + Seq::<ItemView>::empty() =~= items_view(out@));
    }
    Some((out, at))
}

/// Appends the blocks, one behind the other.
pub fn write_items(out: &mut Vec<u8>, items: &Vec<Item>)
    ensures
        final(out)@ == old(out)@ + items_bytes(items_view(items@)),
{
    let ghost before = out@;
    let ghost all = items_view(items@);
    let mut i: usize = 0;
    assert(all.subrange(0, all.len() as int) =~= all);
    while i < items.len()
        invariant
            i <= items.len(),
            all == items_view(items@),
            before + items_bytes(all) == out@ + items_bytes(all.subrange(i as int, all.len() as int)),
        decreases items.len() - i,
    {
        let ghost rest = all.subrange(i as int, all.len() as int);
        let ghost cur = out@;
        write_item(out, &items[i]);
        proof {
            assert(rest.drop_first() =~= all.subrange(i + 1, all.len() as int));
            assert(rest[0] == items[i as int]@);
            assert(items_bytes(rest) == item_bytes(rest[0]) + items_bytes(rest.drop_first())) by {
                reveal(items_bytes);
            }
            assert(out@ + items_bytes(rest.drop_first()) =~= cur + items_bytes(rest));
        }
        i = i + 1;
    }
    proof {
        let rest = all.subrange(i as int, all.len() as int);
        assert(items_bytes(rest) == Seq::<u8>::empty()) by {
            reveal(items_bytes);
        }
        assert(out@ + items_bytes(rest) =~= out@);
    }
}

/// Reads one run of blocks.
pub fn read_section(buf: &[u8], pos: usize) -> (r: Option<(ClientBlocks, usize)>)
    ensures
        match r {
            Some((v, q)) => section_at(buf@, pos as int) == Some((v@, q as int)) && pos < q
                <= buf.len() && v@.wf() && all_wire_form(v@.items),
            None => section_at(buf@, pos as int) is None,
        },
{
    let (n, q1) = match read_u64(buf, pos) {
        Some(x) => x,
        None => {
            return None;
        },
    };
    let (client, q2) = match read_u64(buf, q1) {
        Some(x) => x,
        None => {
            return None;
        },
    };
    let (clock, q3) = match read_u32(buf, q2) {
        Some(x) => x,
        None => {
            return None;
        },
    };
    match read_items(buf, q3, n, client, clock) {
        Some((items, q4)) => Some((ClientBlocks { client, clock, items }, q4)),
        None => None,
    }
}

/// Appends one run of blocks.
pub fn write_section(out: &mut Vec<u8>, b: &ClientBlocks)
    ensures
        final(out)@ == old(out)@ + section_bytes(b@),
{
    let ghost before = out@;
    write_uvar(out, b.items.len() as u64);
    write_uvar(out, b.client);
    write_uvar(out, b.clock as u64);
    write_items(out, &b.items);
    assert(out@ =~= before + section_bytes(b@));
}

/// Reads the runs of blocks of an update.
pub fn read_blocks(buf: &[u8], pos: usize) -> (r: Option<(Vec<ClientBlocks>, usize)>)
    ensures
        match r {
            Some((v, q)) => blocks_at(buf@, pos as int) == Some((blocks_view(v@), q as int)) && pos
                < q <= buf.len() && blocks_wf(blocks_view(v@)) && crate::update::blocks_wire_form(
                blocks_view(v@),
            ),
            None => blocks_at(buf@, pos as int) is None,
        },
{
    let (n, start) = match read_u64(buf, pos) {
        Some(x) => x,
        None => {
            return None;
        },
    };
    let mut out: Vec<ClientBlocks> = Vec::new();
    let mut at: usize = start;
    let mut left: u64 = n;
    let ghost s = buf@;
    while left > 0
        invariant
            s == buf@,
            start <= at <= buf.len(),
            blocks_wf(blocks_view(out@)),
            crate::update::blocks_wire_form(blocks_view(out@)),
            blocks_at(s, pos as int) == sections_at(s, start as int, n as nat),
            sections_at(s, start as int, n as nat) == prepend(
                blocks_view(out@),
                sections_at(s, at as int, left as nat),
            ),
        decreases left,
    {
        assert(sections_at(s, at as int, left as nat) == (match section_at(s, at as int) {
            Some((b, q)) => prepend(seq![b], sections_at(s, q, (left - 1) as nat)),
            None => None,
        })) by {
            reveal(sections_at);
        }
        match read_section(buf, at) {
            Some((b, q)) => {
                let ghost before = blocks_view(out@);
                let ghost v = b@;
                proof {
                    lemma_prepend(before, v, sections_at(s, q as int, (left - 1) as nat));
                }
                out.push(b);
                proof {
                    let after = blocks_view(out@);
                    assert(after =~= before.push(v));
                    assert forall|i: int| 0 <= i < after.len() implies (#[trigger] after[i]).wf()
                        && all_wire_form(after[i].items) by {
                        if i < before.len() {
                            assert(before[i].wf());
                            assert(all_wire_form(before[i].items));
                        }
                    }
                }
                at = q;
                left = left - 1;
            },
            None => {
                return None;
            },
        }
    }
    proof {
        assert(sections_at(s, at as int, 0) == Some(
            (Seq::<ClientBlocksView>::empty(), at as int),
        )) by {
            reveal(sections_at);
        }
        assert(blocks_view(out@) + Seq::<ClientBlocksView>::empty() =~= blocks_view(out@));
    }
    Some((out, at))
}

/// Appends the runs of blocks of an update.
pub fn write_blocks(out: &mut Vec<u8>, blocks: &Vec<ClientBlocks>)
    ensures
        final(out)@ == old(out)@ + blocks_bytes(blocks_view(blocks@)),
{
    let ghost before = out@;
    let ghost all = blocks_view(blocks@);
    write_uvar(out, blocks.len() as u64);
    let ghost base = out@;
    let mut i: usize = 0;
    assert(all.subrange(0, all.len() as int) =~= all);
    while i < blocks.len()
        invariant
            i <= blocks.len(),
            all == blocks_view(blocks@),
            base + sections_bytes(all) == out@ + sections_bytes(
                all.subrange(i as int, all.len() as int),
            ),
        decreases blocks.len() - i,
    {
        let ghost rest = all.subrange(i as int, all.len() as int);
        let ghost cur = out@;
        write_section(out, &blocks[i]);
        proof {
            assert(rest.drop_first() =~= all.subrange(i + 1, all.len() as int));
            assert(rest[0] == blocks[i as int]@);
            assert(sections_bytes(rest) == section_bytes(rest[0]) + sections_bytes(
                rest.drop_first(),
            )) by {
                reveal(sections_bytes);
            }
            assert(out@ + sections_bytes(rest.drop_first()) =~= cur + sections_bytes(rest));
        }
        i = i + 1;
    }
    proof {
        let rest = all.subrange(i as int, all.len() as int);
        assert(sections_bytes(rest) == Seq::<u8>::empty()) by {
            reveal(sections_bytes);
        }
        assert(out@ =~= before + blocks_bytes(all));
    }
}

/// Reads `n` ranges.
fn read_ranges(buf: &[u8], pos: usize, n: u64) -> (r: Option<(Vec<Range>, usize)>)
    requires
        pos <= buf.len(),
    ensures
        match r {
            Some((v, q)) => ranges_at(buf@, pos as int, n as nat) == Some((v@, q as int)) && pos
                <= q <= buf.len() && forall|i: int| 0 <= i < v.len() ==> (#[trigger] v[i]).wf(),
            None => ranges_at(buf@, pos as int, n as nat) is None,
        },
{
    let mut out: Vec<Range> = Vec::new();
    let mut at: usize = pos;
    let mut left: u64 = n;
    let ghost s = buf@;
    while left > 0
        invariant
            s == buf@,
            pos <= at <= buf.len(),
            forall|i: int| 0 <= i < out.len() ==> (#[trigger] out[i]).wf(),
            ranges_at(s, pos as int, n as nat) == prepend(
                out@,
                ranges_at(s, at as int, left as nat),
            ),
        decreases left,
    {
        assert(ranges_at(s, at as int, left as nat) == (match range_at(s, at as int) {
            Some((r, q)) => prepend(seq![r], ranges_at(s, q, (left - 1) as nat)),
            None => None,
        })) by {
            reveal(ranges_at);
        }
        let (start, q1) = match read_u32(buf, at) {
            Some(x) => x,
            None => {
                return None;
            },
        };
        let (len, q2) = match read_u32(buf, q1) {
            Some(x) => x,
            None => {
                return None;
            },
        };
        if len < 1 || len > u32::MAX - start {
            return None;
        }
        let r = Range { start, len };
        proof {
            lemma_prepend(out@, r, ranges_at(s, q2 as int, (left - 1) as nat));
        }
        out.push(r);
        at = q2;
        left = left - 1;
    }
    proof {
        assert(ranges_at(s, at as int, 0) == Some((Seq::<Range>::empty(), at as int))) by {
            reveal(ranges_at);
        }
        assert(out@ + Seq::<Range>::empty() =~= out@);
    }
    Some((out, at))
}

fn write_ranges(out: &mut Vec<u8>, rs: &Vec<Range>)
    ensures
        final(out)@ == old(out)@ + ranges_bytes(rs@),
{
    let ghost before = out@;
    let ghost all = rs@;
    let mut i: usize = 0;
    assert(all.subrange(0, all.len() as int) =~= all);
    while i < rs.len()
        invariant
            i <= rs.len(),
            all == rs@,
            before + ranges_bytes(all) == out@ + ranges_bytes(
                all.subrange(i as int, all.len() as int),
            ),
        decreases rs.len() - i,
    {
        let ghost rest = all.subrange(i as int, all.len() as int);
        let ghost cur = out@;
        let r: Range = rs[i];
        write_uvar(out, r.start as u64);
        write_uvar(out, r.len as u64);
        proof {
            assert(rest.drop_first() =~= all.subrange(i + 1, all.len() as int));
            assert(rest[0] == r);
            assert(ranges_bytes(rest) == range_bytes(rest[0]) + ranges_bytes(rest.drop_first()))
                by {
                reveal(ranges_bytes);
            }
            assert(out@ + ranges_bytes(rest.drop_first()) =~= cur + ranges_bytes(rest));
        }
        i = i + 1;
    }
    proof {
        let rest = all.subrange(i as int, all.len() as int);
        assert(ranges_bytes(rest) == Seq::<u8>::empty()) by {
            reveal(ranges_bytes);
        }
        assert(out@ + ranges_bytes(rest) =~= out@);
    }
}

/// Reads a delete set, as the ranges stand in the buffer.
fn read_entries(buf: &[u8], pos: usize) -> (r: Option<(IdSet, usize)>)
    ensures
        match r {
            Some((v, q)) => ds_at(buf@, pos as int) == Some((v@, q as int)) && pos < q <= buf.len()
                && ids_ranges_ok(v@) && ids_sized(v@),
            None => ds_at(buf@, pos as int) is None,
        },
{
    let (n, start) = match read_u64(buf, pos) {
        Some(x) => x,
        None => {
            return None;
        },
    };
    let mut out: Vec<ClientRanges> = Vec::new();
    let mut at: usize = start;
    let mut left: u64 = n;
    let ghost s = buf@;
    while left > 0
        invariant
            s == buf@,
            start <= at <= buf.len(),
            ids_ranges_ok((IdSet { clients: out })@),
            ids_sized((IdSet { clients: out })@),
            ds_at(s, pos as int) == entries_at(s, start as int, n as nat),
            entries_at(s, start as int, n as nat) == prepend(
                (IdSet { clients: out })@,
                entries_at(s, at as int, left as nat),
            ),
        decreases left,
    {
        assert(entries_at(s, at as int, left as nat) == (match entry_at(s, at as int) {
            Some((e, q)) => prepend(seq![e], entries_at(s, q, (left - 1) as nat)),
            None => None,
        })) by {
            reveal(entries_at);
        }
        let (client, q1) = match read_u64(buf, at) {
            Some(x) => x,
            None => {
                return None;
            },
        };
        let (m, q2) = match read_u64(buf, q1) {
            Some(x) => x,
            None => {
                return None;
            },
        };
        let (ranges, q3) = match read_ranges(buf, q2, m) {
            Some(x) => x,
            None => {
                return None;
            },
        };
        let ghost before = (IdSet { clients: out })@;
        let ghost e = (client, ranges@);
        let count: usize = ranges.len();
        proof {
            lemma_prepend(before, e, entries_at(s, q3 as int, (left - 1) as nat));
        }
        out.push(ClientRanges { client, ranges });
        proof {
            let after = (IdSet { clients: out })@;
            assert(after =~= before.push(e));
            assert forall|i: int, j: int|
                0 <= i < after.len() && 0 <= j < after[i].1.len() implies (
            #[trigger] after[i].1[j]).wf() by {
                if i < before.len() {
                    assert(before[i].1[j].wf());
                }
            }
            assert forall|i: int| 0 <= i < after.len() implies (#[trigger] after[i]).1.len()
                <= u64::MAX by {
                if i < before.len() {
                    assert(before[i].1.len() <= u64::MAX);
                }
            }
        }
        at = q3;
        left = left - 1;
    }
    proof {
        assert(entries_at(s, at as int, 0) == Some(
            (Seq::<(ClientID, Seq<Range>)>::empty(), at as int),
        )) by {
            reveal(entries_at);
        }
        let v = (IdSet { clients: out })@;
        assert(v + Seq::<(ClientID, Seq<Range>)>::empty() =~= v);
    }
    Some((IdSet { clients: out }, at))
}

/// Appends a delete set.
pub fn write_ds(out: &mut Vec<u8>, ds: &IdSet)
    ensures
        final(out)@ == old(out)@ + ds_bytes(ds@),
{
    let ghost before = out@;
    let ghost all = ds@;
    write_uvar(out, ds.clients.len() as u64);
    let ghost base = out@;
    let mut i: usize = 0;
    assert(all.subrange(0, all.len() as int) =~= all);
    while i < ds.clients.len()
        invariant
            i <= ds.clients.len(),
            all == ds@,
            base + entries_bytes(all) == out@ + entries_bytes(
                all.subrange(i as int, all.len() as int),
            ),
        decreases ds.clients.len() - i,
    {
        let ghost rest = all.subrange(i as int, all.len() as int);
        let ghost cur = out@;
        write_uvar(out, ds.clients[i].client);
        write_uvar(out, ds.clients[i].ranges.len() as u64);
        write_ranges(out, &ds.clients[i].ranges);
        proof {
            assert(rest.drop_first() =~= all.subrange(i + 1, all.len() as int));
            assert(rest[0] == ds.clients[i as int]@);
            assert(entries_bytes(rest) == entry_bytes(rest[0]) + entries_bytes(rest.drop_first()))
                by {
                reveal(entries_bytes);
            }
            assert(out@ =~= cur + entry_bytes(rest[0]));
            assert(out@ + entries_bytes(rest.drop_first()) =~= cur + entries_bytes(rest));
        }
        i = i + 1;
    }
    proof {
        let rest = all.subrange(i as int, all.len() as int);
        assert(entries_bytes(rest) == Seq::<u8>::empty()) by {
            reveal(entries_bytes);
        }
        assert(out@ =~= before + ds_bytes(all));
    }
}

impl Update {
    pub open spec fn wf(&self) -> bool {
        self@.wf()
    }

    /// Whether the runs of blocks are chains and the delete set is in
    /// order.
    pub fn check(&self) -> (r: bool)
        ensures
            r == self.wf(),
    {
        let ghost all = blocks_view(self.blocks@);
        let mut i: usize = 0;
        while i < self.blocks.len()
            invariant
                i <= self.blocks.len(),
                all == blocks_view(self.blocks@),
                forall|k: int| 0 <= k < i ==> (#[trigger] all[k]).wf(),
            decreases self.blocks.len() - i,
        {
            assert(all[i as int] == self.blocks[i as int]@);
            if !self.blocks[i].check() {
                return false;
            }
            i = i + 1;
        }
        proof {
            lemma_sized(&self.delete_set);
            assert(self.blocks.len() == self.blocks@.len());
        }
        self.delete_set.check()
    }

    /// Reads an update. The blocks come out as they are written. The delete
    /// set holds the identifiers that are written; its ranges are as written
    /// where those are in order, and put in order where they are not.
    pub fn decode_v1(buf: &[u8]) -> (r: Option<Update>)
        ensures
            match r {
                Some(u) => update_at(buf@) matches Some(w) && u@.blocks == w.blocks && same_ids(
                    u@.delete_set,
                    w.delete_set,
                ) && (ids_wf(w.delete_set) ==> u@.delete_set == w.delete_set) && u.wf()
                    && u@.wire_form(),
                None => update_at(buf@) is None,
            },
    {
        let (blocks, q) = match read_blocks(buf, 0) {
            Some(x) => x,
            None => {
                return None;
            },
        };
        let (raw, q2) = match read_entries(buf, q) {
            Some(x) => x,
            None => {
                return None;
            },
        };
        if q2 != buf.len() {
            return None;
        }
        let ghost w = raw@;
        let IdSet { clients } = raw;
        let delete_set = IdSet::from_entries(clients);
        let n: usize = blocks.len();
        let u = Update { blocks, delete_set };
        proof {
            assert(u@.blocks.len() <= u64::MAX);
            lemma_sized(&u.delete_set);
        }
        Some(u)
    }

    /// Writes the update.
    pub fn encode_v1(&self) -> (r: Vec<u8>)
        ensures
            r@ == update_bytes(self@),
    {
        let mut out: Vec<u8> = Vec::new();
        write_blocks(&mut out, &self.blocks);
        write_ds(&mut out, &self.delete_set);
        assert(out@ =~= update_bytes(self@));
        out
    }
}

/// The numbers of clients and ranges of a set in memory can be written.
pub proof fn lemma_sized(ds: &IdSet)
    ensures
        ids_sized(ds@),
{
    let v = ds@;
    assert(ds.clients.len() == ds.clients@.len());
    assert forall|i: int| 0 <= i < v.len() implies (#[trigger] v[i]).1.len() <= u64::MAX by {
        assert(ds.clients@[i].ranges.len() == ds.clients@[i].ranges@.len());
    }
}

pub proof fn lemma_items_round_trip(
    a: Seq<u8>,
    items: Seq<ItemView>,
    b: Seq<u8>,
    client: ClientID,
    clock: u32,
)
    requires
        chain(items, client, clock as int),
        all_wire_form(items),
    ensures
        items_at(a + items_bytes(items) + b, a.len() as int, items.len(), client, clock) == Some(
            (items, (a.len() + items_bytes(items).len()) as int),
        ),
    decreases items.len(),
{
    let s = a + items_bytes(items) + b;
    reveal(items_at);
    reveal(items_bytes);
    if items.len() == 0 {
        assert(items =~= Seq::<ItemView>::empty());
    } else {
        let it = items[0];
        let rest = items.drop_first();
        let x = item_bytes(it);
        assert(it.wire_form());
        assert(item_at(s, a.len() as int, ID { client, clock }) == Some(
            (it, (a.len() + x.len()) as int),
        )) by {
            assert(s =~= a + x + (items_bytes(rest) + b));
            lemma_item_round_trip(a, it, items_bytes(rest) + b);
        }
        assert forall|i: int| 0 <= i < rest.len() implies (#[trigger] rest[i]).wire_form() by {
            assert(items[i + 1].wire_form());
        }
        assert(s =~= (a + x) + items_bytes(rest) + b);
        lemma_items_round_trip(a + x, rest, b, client, it.end() as u32);
        assert(seq![it] + rest =~= items);
    }
}

pub proof fn lemma_section_round_trip(a: Seq<u8>, v: ClientBlocksView, b: Seq<u8>)
    requires
        v.wf(),
        all_wire_form(v.items),
    ensures
        section_at(a + section_bytes(v) + b, a.len() as int) == Some(
            (v, (a.len() + section_bytes(v).len()) as int),
        ),
{
    let s = a + section_bytes(v) + b;
    let x1 = uvar_bytes(v.items.len());
    let x2 = uvar_bytes(v.client as nat);
    let x3 = uvar_bytes(v.clock as nat);
    let x4 = items_bytes(v.items);
    let a2 = a + x1;
    let a3 = a2 + x2;
    let a4 = a3 + x3;
    assert(u64_at(s, a.len() as int) == Some((v.items.len() as u64, a2.len() as int))) by {
        assert(s =~= a + x1 + (x2 + x3 + x4 + b));
        lemma_u64_round_trip(a, v.items.len() as u64, x2 + x3 + x4 + b);
    }
    assert(u64_at(s, a2.len() as int) == Some((v.client, a3.len() as int))) by {
        assert(s =~= a2 + x2 + (x3 + x4 + b));
        lemma_u64_round_trip(a2, v.client, x3 + x4 + b);
    }
    assert(u32_at(s, a3.len() as int) == Some((v.clock, a4.len() as int))) by {
        assert(s =~= a3 + x3 + (x4 + b));
        lemma_u32_round_trip(a3, v.clock, x4 + b);
    }
    assert(items_at(s, a4.len() as int, v.items.len(), v.client, v.clock) == Some(
        (v.items, (a4.len() + x4.len()) as int),
    )) by {
        assert(s =~= a4 + x4 + b);
        lemma_items_round_trip(a4, v.items, b, v.client, v.clock);
    }
}

pub proof fn lemma_sections_round_trip(a: Seq<u8>, v: Seq<ClientBlocksView>, b: Seq<u8>)
    requires
        blocks_wf(v),
        crate::update::blocks_wire_form(v),
    ensures
        sections_at(a + sections_bytes(v) + b, a.len() as int, v.len()) == Some(
            (v, (a.len() + sections_bytes(v).len()) as int),
        ),
    decreases v.len(),
{
    let s = a + sections_bytes(v) + b;
    reveal(sections_at);
    reveal(sections_bytes);
    if v.len() == 0 {
        assert(v =~= Seq::<ClientBlocksView>::empty());
    } else {
        let e = v[0];
        let rest = v.drop_first();
        let x = section_bytes(e);
        assert(e.wf() && all_wire_form(e.items));
        assert(section_at(s, a.len() as int) == Some((e, (a.len() + x.len()) as int))) by {
            assert(s =~= a + x + (sections_bytes(rest) + b));
            lemma_section_round_trip(a, e, sections_bytes(rest) + b);
        }
        assert forall|i: int| 0 <= i < rest.len() implies (#[trigger] rest[i]).wf()
            && all_wire_form(rest[i].items) by {
            assert(v[i + 1].wf() && all_wire_form(v[i + 1].items));
        }
        assert(s =~= (a + x) + sections_bytes(rest) + b);
        lemma_sections_round_trip(a + x, rest, b);
        assert(seq![e] + rest =~= v);
    }
}

pub proof fn lemma_ranges_round_trip(a: Seq<u8>, v: Seq<Range>, b: Seq<u8>)
    requires
        forall|i: int| 0 <= i < v.len() ==> (#[trigger] v[i]).wf(),
    ensures
        ranges_at(a + ranges_bytes(v) + b, a.len() as int, v.len()) == Some(
            (v, (a.len() + ranges_bytes(v).len()) as int),
        ),
    decreases v.len(),
{
    let s = a + ranges_bytes(v) + b;
    reveal(ranges_at);
    reveal(ranges_bytes);
    if v.len() == 0 {
        assert(v =~= Seq::<Range>::empty());
    } else {
        let e = v[0];
        let rest = v.drop_first();
        let x1 = uvar_bytes(e.start as nat);
        let x2 = uvar_bytes(e.len as nat);
        let x = range_bytes(e);
        assert(e.wf());
        assert(range_at(s, a.len() as int) == Some((e, (a.len() + x.len()) as int))) by {
            assert(s =~= a + x1 + (x2 + ranges_bytes(rest) + b));
            lemma_u32_round_trip(a, e.start, x2 + ranges_bytes(rest) + b);
            assert(s =~= (a + x1) + x2 + (ranges_bytes(rest) + b));
            lemma_u32_round_trip(a + x1, e.len, ranges_bytes(rest) + b);
        }
        assert forall|i: int| 0 <= i < rest.len() implies (#[trigger] rest[i]).wf() by {
            assert(v[i + 1].wf());
        }
        assert(s =~= (a + x) + ranges_bytes(rest) + b);
        lemma_ranges_round_trip(a + x, rest, b);
        assert(seq![e] + rest =~= v);
    }
}

pub proof fn lemma_entry_round_trip(a: Seq<u8>, e: (ClientID, Seq<Range>), b: Seq<u8>)
    requires
        forall|i: int| 0 <= i < e.1.len() ==> (#[trigger] e.1[i]).wf(),
        e.1.len() <= u64::MAX,
    ensures
        entry_at(a + entry_bytes(e) + b, a.len() as int) == Some(
            (e, (a.len() + entry_bytes(e).len()) as int),
        ),
{
    let s = a + entry_bytes(e) + b;
    let x1 = uvar_bytes(e.0 as nat);
    let x2 = uvar_bytes(e.1.len());
    let x3 = ranges_bytes(e.1);
    let a2 = a + x1;
    let a3 = a2 + x2;
    assert(u64_at(s, a.len() as int) == Some((e.0, a2.len() as int))) by {
        assert(s =~= a + x1 + (x2 + x3 + b));
        lemma_u64_round_trip(a, e.0, x2 + x3 + b);
    }
    assert(u64_at(s, a2.len() as int) == Some((e.1.len() as u64, a3.len() as int))) by {
        assert(s =~= a2 + x2 + (x3 + b));
        lemma_u64_round_trip(a2, e.1.len() as u64, x3 + b);
    }
    assert(ranges_at(s, a3.len() as int, e.1.len()) == Some(
        (e.1, (a3.len() + x3.len()) as int),
    )) by {
        assert(s =~= a3 + x3 + b);
        lemma_ranges_round_trip(a3, e.1, b);
    }
}

pub proof fn lemma_entries_round_trip(a: Seq<u8>, v: IdSetView, b: Seq<u8>)
    requires
        ids_ranges_ok(v),
        ids_sized(v),
    ensures
        entries_at(a + entries_bytes(v) + b, a.len() as int, v.len()) == Some(
            (v, (a.len() + entries_bytes(v).len()) as int),
        ),
    decreases v.len(),
{
    let s = a + entries_bytes(v) + b;
    reveal(entries_at);
    reveal(entries_bytes);
    if v.len() == 0 {
        assert(v =~= Seq::<(ClientID, Seq<Range>)>::empty());
    } else {
        let e = v[0];
        let rest = v.drop_first();
        let x = entry_bytes(e);
        assert(e.1.len() <= u64::MAX);
        assert forall|i: int| 0 <= i < e.1.len() implies (#[trigger] e.1[i]).wf() by {
            assert(v[0].1[i].wf());
        }
        assert(entry_at(s, a.len() as int) == Some((e, (a.len() + x.len()) as int))) by {
            assert(s =~= a + x + (entries_bytes(rest) + b));
            lemma_entry_round_trip(a, e, entries_bytes(rest) + b);
        }
        assert forall|i: int, j: int| 0 <= i < rest.len() && 0 <= j < rest[i].1.len() implies (
        #[trigger] rest[i].1[j]).wf() by {
            assert(v[i + 1].1[j].wf());
        }
        assert forall|i: int| 0 <= i < rest.len() implies (#[trigger] rest[i]).1.len()
            <= u64::MAX by {
            assert(v[i + 1].1.len() <= u64::MAX);
        }
        assert(s =~= (a + x) + entries_bytes(rest) + b);
        lemma_entries_round_trip(a + x, rest, b);
        assert(seq![e] + rest =~= v);
    }
}

pub proof fn lemma_pairs_round_trip(a: Seq<u8>, v: StateView, b: Seq<u8>)
    ensures
        pairs_at(a + pairs_bytes(v) + b, a.len() as int, v.len()) == Some(
            (v, (a.len() + pairs_bytes(v).len()) as int),
        ),
    decreases v.len(),
{
    let s = a + pairs_bytes(v) + b;
    reveal(pairs_at);
    reveal(pairs_bytes);
    if v.len() == 0 {
        assert(v =~= Seq::<(ClientID, u32)>::empty());
    } else {
        let e = v[0];
        let rest = v.drop_first();
        let x1 = uvar_bytes(e.0 as nat);
        let x2 = uvar_bytes(e.1 as nat);
        let x = pair_bytes(e);
        assert(pair_at(s, a.len() as int) == Some((e, (a.len() + x.len()) as int))) by {
            assert(s =~= a + x1 + (x2 + pairs_bytes(rest) + b));
            lemma_u64_round_trip(a, e.0, x2 + pairs_bytes(rest) + b);
            assert(s =~= (a + x1) + x2 + (pairs_bytes(rest) + b));
            lemma_u32_round_trip(a + x1, e.1, pairs_bytes(rest) + b);
        }
        assert(s =~= (a + x) + pairs_bytes(rest) + b);
        lemma_pairs_round_trip(a + x, rest, b);
        assert(seq![e] + rest =~= v);
    }
}

/// An update that is written and read again is the update it was: the same
/// runs of blocks, block by block and field by field, and the same ranges
/// in the delete set.
pub proof fn law_update_round_trip_v1(u: UpdateView)
    requires
        u.wf(),
    ensures
        update_at(update_bytes(u)) == Some(u),
{
    crate::update::lemma_wf_wire_form(u);
    let s = update_bytes(u);
    let e = Seq::<u8>::empty();
    let x1 = uvar_bytes(u.blocks.len());
    let x2 = sections_bytes(u.blocks);
    let x3 = uvar_bytes(u.delete_set.len());
    let x4 = entries_bytes(u.delete_set);
    crate::id_set::lemma_ids_ranges_ok(u.delete_set);
    let a2 = e + x1;
    let a3 = a2 + x2;
    let a4 = a3 + x3;
    assert(u64_at(s, 0) == Some((u.blocks.len() as u64, a2.len() as int))) by {
        assert(s =~= e + x1 + (x2 + x3 + x4));
        lemma_u64_round_trip(e, u.blocks.len() as u64, x2 + x3 + x4);
    }
    assert(sections_at(s, a2.len() as int, u.blocks.len()) == Some((u.blocks, a3.len() as int)))
        by {
        assert(s =~= a2 + x2 + (x3 + x4));
        lemma_sections_round_trip(a2, u.blocks, x3 + x4);
    }
    assert(u64_at(s, a3.len() as int) == Some((u.delete_set.len() as u64, a4.len() as int))) by {
        assert(s =~= a3 + x3 + (x4 + e));
        lemma_u64_round_trip(a3, u.delete_set.len() as u64, x4 + e);
    }
    assert(entries_at(s, a4.len() as int, u.delete_set.len()) == Some(
        (u.delete_set, (a4.len() + x4.len()) as int),
    )) by {
        assert(s =~= a4 + x4 + e);
        lemma_entries_round_trip(a4, u.delete_set, e);
    }
    assert(a4.len() + x4.len() == s.len());
}

/// A state vector that is written and read again is the vector it was.
pub proof fn law_state_vector_round_trip(v: StateView)
    requires
        v.len() <= u64::MAX,
    ensures
        sv_at(sv_bytes(v)) == Some(v),
{
    let s = sv_bytes(v);
    let e = Seq::<u8>::empty();
    let x1 = uvar_bytes(v.len());
    let x2 = pairs_bytes(v);
    let a2 = e + x1;
    assert(u64_at(s, 0) == Some((v.len() as u64, a2.len() as int))) by {
        assert(s =~= e + x1 + (x2 + e));
        lemma_u64_round_trip(e, v.len() as u64, x2 + e);
    }
    assert(pairs_at(s, a2.len() as int, v.len()) == Some((v, (a2.len() + x2.len()) as int))) by {
        assert(s =~= a2 + x2 + e);
        lemma_pairs_round_trip(a2, v, e);
    }
    assert(a2.len() + x2.len() == s.len());
}

/// Reads the pairs of a state vector as they stand in the buffer.
fn read_pairs(buf: &[u8]) -> (r: Option<Vec<(ClientID, u32)>>)
    ensures
        match r {
            Some(v) => sv_at(buf@) == Some(v@),
            None => sv_at(buf@) is None,
        },
{
    let (n, start) = match read_u64(buf, 0) {
        Some(x) => x,
        None => {
            return None;
        },
    };
    let mut out: Vec<(ClientID, u32)> = Vec::new();
    let mut at: usize = start;
    let mut left: u64 = n;
    let ghost s = buf@;
    while left > 0
        invariant
            s == buf@,
            start <= at <= buf.len(),
            u64_at(s, 0) == Some((n, start as int)),
            pairs_at(s, start as int, n as nat) == prepend(
                out@,
                pairs_at(s, at as int, left as nat),
            ),
        decreases left,
    {
        assert(pairs_at(s, at as int, left as nat) == (match pair_at(s, at as int) {
            Some((e, q)) => prepend(seq![e], pairs_at(s, q, (left - 1) as nat)),
            None => None,
        })) by {
            reveal(pairs_at);
        }
        let (client, q1) = match read_u64(buf, at) {
            Some(x) => x,
            None => {
                return None;
            },
        };
        let (clock, q2) = match read_u32(buf, q1) {
            Some(x) => x,
            None => {
                return None;
            },
        };
        proof {
            lemma_prepend(out@, (client, clock), pairs_at(s, q2 as int, (left - 1) as nat));
        }
        out.push((client, clock));
        at = q2;
        left = left - 1;
    }
    proof {
        assert(pairs_at(s, at as int, 0) == Some((Seq::<(ClientID, u32)>::empty(), at as int)))
            by {
            reveal(pairs_at);
        }
        assert(out@ + Seq::<(ClientID, u32)>::empty() =~= out@);
    }
    if at != buf.len() {
        return None;
    }
    Some(out)
}

impl StateVector {
    /// Reads a state vector. Of every client it says what the last pair
    /// written for that client says. Pairs that are in order already are
    /// kept as they are.
    pub fn decode_v1(buf: &[u8]) -> (r: Option<StateVector>)
        ensures
            match r {
                Some(v) => sv_at(buf@) matches Some(w) && v.wf() && (forall|c: ClientID| #[trigger]
                    sv_get(v@, c) == pairs_get(w, c)) && (sv_wf(w) ==> v@ == w),
                None => sv_at(buf@) is None,
            },
    {
        let entries = match read_pairs(buf) {
            Some(x) => x,
            None => {
                return None;
            },
        };
        let ghost w = entries@;
        let raw = StateVector { entries };
        if raw.check() {
            proof {
                assert forall|c: ClientID| #[trigger] sv_get(w, c) == pairs_get(w, c) by {
                    lemma_pairs_get(w, c);
                }
            }
            return Some(raw);
        }
        let mut out = StateVector::default();
        let mut i: usize = 0;
        while i < raw.entries.len()
            invariant
                i <= raw.entries.len(),
                w == raw.entries@,
                out.wf(),
                forall|c: ClientID| #[trigger]
                    sv_get(out@, c) == pairs_get(w.subrange(0, i as int), c),
            decreases raw.entries.len() - i,
        {
            let client: ClientID = raw.entries[i].0;
            let clock: u32 = raw.entries[i].1;
            let ghost prev = out@;
            out.set(client, clock);
            proof {
                let done = w.subrange(0, i as int);
                let next = w.subrange(0, i + 1);
                assert(next.drop_last() =~= done);
                assert(next.last() == w[i as int]);
                assert forall|c: ClientID| #[trigger] sv_get(out@, c) == pairs_get(next, c) by {
                    assert(sv_get(prev, c) == pairs_get(done, c));
                }
            }
            i = i + 1;
        }
        assert(w.subrange(0, i as int) =~= w);
        Some(out)
    }

    /// Writes the state vector: the clients in falling order.
    pub fn encode_v1(&self) -> (r: Vec<u8>)
        ensures
            r@ == sv_bytes(self@),
    {
        let mut out: Vec<u8> = Vec::new();
        let ghost all = self@;
        write_uvar(&mut out, self.entries.len() as u64);
        let ghost base = out@;
        let mut i: usize = 0;
        assert(all.subrange(0, all.len() as int) =~= all);
        while i < self.entries.len()
            invariant
                i <= self.entries.len(),
                all == self@,
                base + pairs_bytes(all) == out@ + pairs_bytes(
                    all.subrange(i as int, all.len() as int),
                ),
            decreases self.entries.len() - i,
        {
            let ghost rest = all.subrange(i as int, all.len() as int);
            let ghost cur = out@;
            write_uvar(&mut out, self.entries[i].0);
            write_uvar(&mut out, self.entries[i].1 as u64);
            proof {
                assert(rest.drop_first() =~= all.subrange(i + 1, all.len() as int));
                assert(rest[0] == self.entries[i as int]);
                assert(pairs_bytes(rest) == pair_bytes(rest[0]) + pairs_bytes(rest.drop_first()))
                    by {
                    reveal(pairs_bytes);
                }
                assert(out@ + pairs_bytes(rest.drop_first()) =~= cur + pairs_bytes(rest));
            }
            i = i + 1;
        }
        proof {
            let rest = all.subrange(i as int, all.len() as int);
            assert(pairs_bytes(rest) == Seq::<u8>::empty()) by {
                reveal(pairs_bytes);
            }
            assert(out@ =~= sv_bytes(all));
        }
        out
    }
}

} // verus!
