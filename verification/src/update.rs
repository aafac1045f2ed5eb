//! Updates: blocks grouped by client, and the identifiers that they delete.

use crate::block::{Item, ItemView};
use crate::id::ClientID;
use crate::id_set::{ids_wf, DeleteSet, IdSetView};
use vstd::prelude::*;

verus! {

/// A run of blocks of one client, one behind the other from `clock` on.
#[derive(Debug, PartialEq, Eq)]
pub struct ClientBlocks {
    pub client: ClientID,
    pub clock: u32,
    pub items: Vec<Item>,
}

pub struct ClientBlocksView {
    pub client: ClientID,
    pub clock: u32,
    pub items: Seq<ItemView>,
}

/// The views of a row of blocks.
pub open spec fn items_view(v: Seq<Item>) -> Seq<ItemView> {
    Seq::new(v.len(), |i: int| v[i]@)
}

impl View for ClientBlocks {
    type V = ClientBlocksView;

    open spec fn view(&self) -> ClientBlocksView {
        ClientBlocksView { client: self.client, clock: self.clock, items: items_view(self.items@) }
    }
}

/// Blocks of `client` that stand one behind the other from `clock` on, each
/// of them well formed.
pub open spec fn chain(items: Seq<ItemView>, client: ClientID, clock: int) -> bool
    decreases items.len(),
{
    if items.len() == 0 {
        true
    } else {
        &&& items[0].id.client == client
        &&& items[0].id.clock == clock
        &&& items[0].wf()
        &&& chain(items.drop_first(), client, items[0].end())
    }
}

/// The clock behind the last of the blocks.
pub open spec fn chain_end(items: Seq<ItemView>, clock: int) -> int {
    if items.len() == 0 {
        clock
    } else {
        items.last().end()
    }
}

/// Whether every block is in the form it has on the wire.
pub open spec fn all_wire_form(items: Seq<ItemView>) -> bool {
    forall|i: int| 0 <= i < items.len() ==> (#[trigger] items[i]).wire_form()
}

impl ClientBlocksView {
    pub open spec fn wf(self) -> bool {
        chain(self.items, self.client, self.clock as int) && self.items.len() <= u64::MAX
    }

    /// The clock behind the last block.
    pub open spec fn end(self) -> int {
        chain_end(self.items, self.clock as int)
    }
}

/// The views of a row of runs.
pub open spec fn blocks_view(v: Seq<ClientBlocks>) -> Seq<ClientBlocksView> {
    Seq::new(v.len(), |i: int| v[i]@)
}

/// Whether every run is a chain.
pub open spec fn blocks_wf(v: Seq<ClientBlocksView>) -> bool {
    forall|i: int| 0 <= i < v.len() ==> (#[trigger] v[i]).wf()
}

/// Whether every block of every run is in the form it has on the wire.
pub open spec fn blocks_wire_form(v: Seq<ClientBlocksView>) -> bool {
    forall|i: int| 0 <= i < v.len() ==> all_wire_form((#[trigger] v[i]).items)
}

/// Whether the numbers of clients and of ranges can be written.
pub open spec fn ids_sized(v: IdSetView) -> bool {
    v.len() <= u64::MAX && forall|i: int| 0 <= i < v.len() ==> (#[trigger] v[i]).1.len() <= u64::MAX
}

/// A set of blocks with the identifiers that it deletes.
#[derive(Debug, PartialEq, Eq)]
pub struct Update {
    pub blocks: Vec<ClientBlocks>,
    pub delete_set: DeleteSet,
}

pub struct UpdateView {
    pub blocks: Seq<ClientBlocksView>,
    pub delete_set: IdSetView,
}

impl View for Update {
    type V = UpdateView;

    open spec fn view(&self) -> UpdateView {
        UpdateView { blocks: blocks_view(self.blocks@), delete_set: self.delete_set@ }
    }
}

impl UpdateView {
    /// An update whose runs are chains and whose delete set is in order.
    pub open spec fn wf(self) -> bool {
        &&& blocks_wf(self.blocks)
        &&& self.blocks.len() <= u64::MAX
        &&& ids_wf(self.delete_set)
        &&& ids_sized(self.delete_set)
    }

    /// Whether every block is in the form it has on the wire.
    pub open spec fn wire_form(self) -> bool {
        blocks_wire_form(self.blocks)
    }
}

/// A chain with one more block at its end is a chain.
pub proof fn lemma_chain_push(items: Seq<ItemView>, client: ClientID, clock: int, it: ItemView)
    requires
        chain(items, client, clock),
        it.wf(),
        it.id.client == client,
        it.id.clock == chain_end(items, clock),
    ensures
        chain(items.push(it), client, clock),
        chain_end(items.push(it), clock) == it.end(),
    decreases items.len(),
{
    let next = items.push(it);
    if items.len() == 0 {
        assert(next.drop_first() =~= Seq::<ItemView>::empty());
        assert(chain(next.drop_first(), client, it.end()));
        assert(next[0] == it);
    } else {
        assert(next[0] == items[0]);
        assert(next.drop_first() =~= items.drop_first().push(it));
        if items.len() == 1 {
            assert(items.drop_first().len() == 0);
        } else {
            assert(items.drop_first().last() == items.last());
        }
        lemma_chain_push(items.drop_first(), client, items[0].end(), it);
        assert(chain(next.drop_first(), client, next[0].end()));
    }
}

/// In a chain every block is well formed, belongs to the client, and starts
/// where the block before it ends.
pub proof fn lemma_chain_at(items: Seq<ItemView>, client: ClientID, clock: int, i: int)
    requires
        chain(items, client, clock),
        0 <= i < items.len(),
    ensures
        items[i].wf(),
        items[i].id.client == client,
        items[i].id.clock == (if i == 0 {
            clock
        } else {
            items[i - 1].end()
        }),
        clock <= items[i].id.clock,
    decreases i,
{
    if i > 0 {
        lemma_chain_at(items.drop_first(), client, items[0].end(), i - 1);
    }
}

/// Whether the blocks are well formed, belong to the client and stand one
/// behind the other from `clock` on.
pub fn check_chain(items: &Vec<Item>, client: ClientID, clock: u32) -> (r: bool)
    ensures
        r == chain(items_view(items@), client, clock as int),
{
    let ghost all = items_view(items@);
    let mut now: u32 = clock;
    let mut j: usize = 0;
    assert(all.subrange(0, 0) =~= Seq::<ItemView>::empty());
    while j < items.len()
        invariant
            j <= items.len(),
            all == items_view(items@),
            chain(all.subrange(0, j as int), client, clock as int),
            now == chain_end(all.subrange(0, j as int), clock as int),
        decreases items.len() - j,
    {
        let it = &items[j];
        let ghost done = all.subrange(0, j as int);
        assert(all[j as int] == it@);
        if !it.check() || it.id.client != client || it.id.clock != now {
            proof {
                if chain(all, client, clock as int) {
                    lemma_chain_at(all, client, clock as int, j as int);
                    if j > 0 {
                        assert(done.last() == all[j - 1]);
                    }
                }
            }
            return false;
        }
        proof {
            lemma_chain_push(done, client, clock as int, it@);
            assert(done.push(it@) =~= all.subrange(0, j + 1));
        }
        now = now + it.len() as u32;
        j = j + 1;
    }
    assert(all.subrange(0, j as int) =~= all);
    true
}

impl ClientBlocks {
    /// Whether the blocks are well formed, belong to the client and stand
    /// one behind the other from the first clock on.
    pub fn check(&self) -> (r: bool)
        ensures
            r == self@.wf(),
    {
        assert(self@.items.len() == self.items.len());
        check_chain(&self.items, self.client, self.clock)
    }
}

/// The blocks of a well-formed update are in the form that they have on
/// the wire.
pub proof fn lemma_wf_wire_form(u: UpdateView)
    requires
        u.wf(),
    ensures
        u.wire_form(),
{
    assert forall|i: int| 0 <= i < u.blocks.len() implies all_wire_form(
        (#[trigger] u.blocks[i]).items,
    ) by {
        let b = u.blocks[i];
        assert(b.wf());
        assert forall|j: int| 0 <= j < b.items.len() implies (#[trigger] b.items[j]).wire_form() by {
            lemma_chain_at(b.items, b.client, b.clock as int, j);
        }
    }
}

} // verus!
