//! The store of a document: the blocks of every client, one behind the
//! other from the clock zero on, and for every container the order of the
//! positions in it.

use crate::block::{
    lemma_item_split, ContentView, Item, ItemContent, ItemView, TypePtr, TypePtrView,
};
use crate::id::{same_opt_id, ClientID, ID};
use crate::id_set::{covers, ids_contain, lemma_ids_ranges_ok, IdSet, Range};
use crate::ordered::{
    falling, find_key, has_key, index_of, lemma_index_of, lemma_insert, lemma_replace,
};
use crate::roundtrip::flatten;
use crate::state_vector::{gaps, sv_get, StateVector, StateView};
use crate::text::{opt_text, same_opt_text};
use crate::update::{
    blocks_view, chain, chain_end, check_chain, items_view, lemma_chain_at, lemma_chain_push,
    ClientBlocks, ClientBlocksView, Update, UpdateView,
};
use vstd::prelude::*;
use vstd::string::StrSliceExecFns;

verus! {

/// The blocks of one client, and for each the container that it stands in.
#[derive(Debug, PartialEq, Eq)]
pub struct ClientList {
    pub items: Vec<Item>,
    pub seqs: Vec<usize>,
}

/// One container: a root with a name or the container that a block opens,
/// as a whole or under one key, with the positions in it in document order.
#[derive(Debug, PartialEq, Eq)]
pub struct Sequence {
    pub parent: TypePtr,
    pub key: Option<String>,
    pub order: Vec<ID>,
}

/// The state of a document.
#[derive(Debug, PartialEq, Eq)]
pub struct Store {
    /// The clients in falling order, each with its blocks.
    pub clients: Vec<(ClientID, ClientList)>,
    /// The containers, in the order in which they came up.
    pub types: Vec<Sequence>,
    /// Blocks that wait for blocks they depend on.
    pub pending: Vec<Item>,
    /// Deletions that wait for the blocks they delete.
    pub pending_ds: IdSet,
}

/// The blocks of a list, as values.
pub open spec fn list_items(l: ClientList) -> Seq<ItemView> {
    items_view(l.items@)
}

/// The blocks that the table holds of `client`.
pub open spec fn items_for(clients: Seq<(ClientID, ClientList)>, client: ClientID) -> Seq<
    ItemView,
> {
    if has_key(clients, client) {
        list_items(clients[index_of(clients, client)].1)
    } else {
        Seq::empty()
    }
}

/// The next clock expected of `client`.
pub open spec fn state_for(clients: Seq<(ClientID, ClientList)>, client: ClientID) -> int {
    chain_end(items_for(clients, client), 0)
}

/// Whether one of the blocks spans the clock.
pub open spec fn spanned(items: Seq<ItemView>, clock: int) -> bool {
    exists|i: int| 0 <= i < items.len() && (#[trigger] items[i]).id.clock <= clock < items[i].end()
}

/// The place of the block that spans the clock.
pub open spec fn span_index(items: Seq<ItemView>, clock: int) -> int {
    choose|i: int| 0 <= i < items.len() && (#[trigger] items[i]).id.clock <= clock < items[i].end()
}

/// In a chain the blocks stand in rising order and do not overlap.
pub proof fn lemma_chain_sorted(
    items: Seq<ItemView>,
    client: ClientID,
    clock: int,
    i: int,
    j: int,
)
    requires
        chain(items, client, clock),
        0 <= i < j < items.len(),
    ensures
        items[i].end() <= items[j].id.clock,
        items[i].id.clock < items[i].end(),
    decreases j - i,
{
    lemma_chain_at(items, client, clock, i);
    lemma_chain_at(items, client, clock, j);
    if j - 1 > i {
        lemma_chain_sorted(items, client, clock, i, j - 1);
        lemma_chain_at(items, client, clock, j - 1);
    }
}

/// In a chain one block at most spans a clock, and the clocks spanned are
/// those from the first clock up to the end of the chain.
pub proof fn lemma_chain_span(items: Seq<ItemView>, client: ClientID, clock: int, i: int, c: int)
    requires
        chain(items, client, clock),
        0 <= i < items.len(),
        items[i].id.clock <= c < items[i].end(),
    ensures
        spanned(items, c),
        span_index(items, c) == i,
        clock <= c < chain_end(items, clock),
{
    let k = span_index(items, c);
    if k < i {
        lemma_chain_sorted(items, client, clock, k, i);
    } else if k > i {
        lemma_chain_sorted(items, client, clock, i, k);
    }
    lemma_chain_at(items, client, clock, i);
    if i < items.len() - 1 {
        lemma_chain_sorted(items, client, clock, i, items.len() - 1);
        lemma_chain_at(items, client, clock, items.len() - 1);
    }
}

/// The place of the block that spans `clock`, found by halving.
pub fn find_block(items: &Vec<Item>, clock: u32, client: ClientID) -> (r: Option<usize>)
    requires
        chain(items_view(items@), client, 0),
    ensures
        match r {
            Some(i) => i < items.len() && items[i as int]@.id.clock <= clock < items[i as int]@.end()
                && spanned(items_view(items@), clock as int) && span_index(
                items_view(items@),
                clock as int,
            ) == i,
            None => !spanned(items_view(items@), clock as int) && clock >= chain_end(
                items_view(items@),
                0,
            ),
        },
{
    let ghost v = items_view(items@);
    let mut lo: usize = 0;
    let mut hi: usize = items.len();
    while lo < hi
        invariant
            lo <= hi <= items.len(),
            v == items_view(items@),
            chain(v, client, 0),
            forall|k: int| 0 <= k < lo ==> (#[trigger] v[k]).end() <= clock,
            forall|k: int| hi <= k < v.len() ==> clock < (#[trigger] v[k]).id.clock,
        decreases hi - lo,
    {
        let mid: usize = lo + (hi - lo) / 2;
        let first: u32 = items[mid].id.clock;
        let n: usize = items[mid].len();
        proof {
            lemma_chain_at(v, client, 0, mid as int);
            assert(v[mid as int] == items[mid as int]@);
        }
        if clock < first {
            assert forall|k: int| mid <= k < v.len() implies clock < (#[trigger] v[k]).id.clock by {
                if k > mid {
                    lemma_chain_sorted(v, client, 0, mid as int, k);
                }
            }
            hi = mid;
        } else if ((clock - first) as usize) < n {
            proof {
                lemma_chain_span(v, client, 0, mid as int, clock as int);
            }
            return Some(mid);
        } else {
            assert forall|k: int| 0 <= k < mid + 1 implies (#[trigger] v[k]).end() <= clock by {
                if k < mid {
                    lemma_chain_sorted(v, client, 0, k, mid as int);
                }
            }
            lo = mid + 1;
        }
    }
    proof {
        if spanned(v, clock as int) {
            let k = span_index(v, clock as int);
            if k < lo {
                assert(v[k].end() <= clock);
            } else {
                assert(clock < v[k].id.clock);
            }
        }
        if lo < v.len() {
            lemma_chain_at(v, client, 0, lo as int);
            assert(clock < v[lo as int].id.clock);
            if lo > 0 {
                assert(v[lo - 1].end() <= clock);
            }
        } else if v.len() > 0 {
            assert(v[v.len() - 1].end() <= clock);
        }
    }
    None
}

/// The first place from `from` on and before `to` at which `id` stands.
pub open spec fn first_index(order: Seq<ID>, id: ID, from: int, to: int) -> Option<int>
    decreases to - from,
{
    if from >= to || from < 0 || from >= order.len() {
        None
    } else if order[from] == id {
        Some(from)
    } else {
        first_index(order, id, from + 1, to)
    }
}

/// Finds where `id` stands between `from` and `to`.
pub fn index_between(order: &Vec<ID>, id: &ID, from: usize, to: usize) -> (r: Option<usize>)
    ensures
        match r {
            Some(k) => first_index(order@, *id, from as int, to as int) == Some(k as int) && from
                <= k < to && k < order.len() && order[k as int] == *id,
            None => first_index(order@, *id, from as int, to as int) is None,
        },
{
    let mut k: usize = from;
    while k < to && k < order.len()
        invariant
            from <= k,
            first_index(order@, *id, from as int, to as int) == first_index(
                order@,
                *id,
                k as int,
                to as int,
            ),
        decreases order.len() - k,
    {
        if order[k].client == id.client && order[k].clock == id.clock {
            return Some(k);
        }
        k = k + 1;
    }
    None
}

/// The positions of a block: its identifier and those that follow it.
pub open spec fn run(first: ID, len: nat) -> Seq<ID> {
    Seq::new(len, |j: int| ID { client: first.client, clock: (first.clock + j) as u32 })
}

/// Puts the `len` positions from `first` on into the order at the place
/// `at`.
pub fn insert_run(order: &mut Vec<ID>, at: usize, first: ID, len: usize)
    requires
        at <= old(order).len(),
        first.clock + len <= u32::MAX,
    ensures
        final(order)@ == old(order)@.subrange(0, at as int) + run(first, len as nat) + old(
            order,
        )@.subrange(at as int, old(order).len() as int),
{
    let ghost before = order@;
    let mut tail: Vec<ID> = order.split_off(at);
    let mut j: usize = 0;
    while j < len
        invariant
            j <= len,
            first.clock + len <= u32::MAX,
            order@ == before.subrange(0, at as int) + run(first, j as nat),
        decreases len - j,
    {
        let ghost cur = order@;
        order.push(ID { client: first.client, clock: first.clock + j as u32 });
        assert(order@ =~= before.subrange(0, at as int) + run(first, (j + 1) as nat));
        j = j + 1;
    }
    order.append(&mut tail);
}

impl Sequence {
    /// Whether this is the container that `parent` names under `key`.
    pub fn is(&self, parent: &TypePtr, key: &Option<String>) -> (r: bool)
        ensures
            r == (self.parent@ == parent@ && opt_text(self.key) == opt_text(*key)),
    {
        self.parent.same(parent) && same_opt_text(&self.key, key)
    }
}

impl ClientList {
    pub open spec fn wf(&self, client: ClientID, types: int) -> bool {
        &&& chain(list_items(*self), client, 0)
        &&& self.items.len() >= 1
        &&& self.seqs.len() == self.items.len()
        &&& forall|j: int| 0 <= j < self.seqs.len() ==> (#[trigger] self.seqs[j]) < types
    }
}

impl ClientList {
    /// Whether the blocks of `client` stand one behind the other from the
    /// clock zero on, at least one of them, each in one of the `types`
    /// containers.
    pub fn check(&self, client: ClientID, types: usize) -> (r: bool)
        ensures
            r == self.wf(client, types as int),
    {
        if self.items.len() < 1 || self.seqs.len() != self.items.len() {
            return false;
        }
        if !check_chain(&self.items, client, 0) {
            return false;
        }
        let mut j: usize = 0;
        while j < self.seqs.len()
            invariant
                j <= self.seqs.len(),
                forall|k: int| 0 <= k < j ==> (#[trigger] self.seqs[k]) < types,
            decreases self.seqs.len() - j,
        {
            if self.seqs[j] >= types {
                return false;
            }
            j = j + 1;
        }
        true
    }
}

impl Store {
    /// Whether the store is well formed.
    pub fn check(&self) -> (r: bool)
        ensures
            r == self.wf(),
    {
        let types: usize = self.types.len();
        let mut i: usize = 0;
        while i < self.clients.len()
            invariant
                i <= self.clients.len(),
                types == self.types.len(),
                forall|a: int, b: int|
                    0 <= a < b < i ==> (#[trigger] self.clients[a]).0 > (#[trigger] self.clients[b]).0,
                forall|k: int|
                    0 <= k < i ==> (#[trigger] self.clients[k]).1.wf(
                        self.clients[k].0,
                        self.types.len() as int,
                    ),
            decreases self.clients.len() - i,
        {
            if i > 0 && self.clients[i - 1].0 <= self.clients[i].0 {
                assert(!(self.clients[i - 1].0 > self.clients[i as int].0));
                return false;
            }
            if !self.clients[i].1.check(self.clients[i].0, types) {
                assert(!self.clients[i as int].1.wf(self.clients[i as int].0, types as int));
                return false;
            }
            proof {
                assert forall|a: int, b: int| 0 <= a < b < i + 1 implies (
                #[trigger] self.clients[a]).0 > (#[trigger] self.clients[b]).0 by {
                    if b == i && a < i - 1 {
                        assert(self.clients[a].0 > self.clients[i - 1].0);
                    }
                }
            }
            i = i + 1;
        }
        let mut k: usize = 0;
        while k < self.pending.len()
            invariant
                k <= self.pending.len(),
                forall|j: int| 0 <= j < k ==> (#[trigger] self.pending[j]).wf(),
            decreases self.pending.len() - k,
        {
            if !self.pending[k].check() {
                return false;
            }
            k = k + 1;
        }
        self.pending_ds.check()
    }

    /// The store of a document in which nothing has happened.
    pub fn new() -> (r: Store)
        ensures
            r.wf(),
            r.clients.len() == 0,
            r.types.len() == 0,
            r.pending.len() == 0,
            r.pending_ds@.len() == 0,
    {
        Store {
            clients: Vec::new(),
            types: Vec::new(),
            pending: Vec::new(),
            pending_ds: IdSet::new(),
        }
    }

    /// The clients fall, the blocks of each stand one behind the other
    /// from the clock zero on, every block stands in a container that is
    /// there, and what waits is well formed.
    pub open spec fn wf(&self) -> bool {
        &&& falling(self.clients@)
        &&& forall|i: int|
            0 <= i < self.clients.len() ==> (#[trigger] self.clients[i]).1.wf(
                self.clients[i].0,
                self.types.len() as int,
            )
        &&& forall|i: int| 0 <= i < self.pending.len() ==> (#[trigger] self.pending[i]).wf()
        &&& self.pending_ds.wf()
    }

    /// The blocks of `client`.
    pub open spec fn items_of(&self, client: ClientID) -> Seq<ItemView> {
        items_for(self.clients@, client)
    }

    /// The next clock expected of `client`.
    pub open spec fn state(&self, client: ClientID) -> int {
        state_for(self.clients@, client)
    }

    /// Whether the store has the position `id`.
    pub open spec fn knows(&self, id: ID) -> bool {
        spanned(self.items_of(id.client), id.clock as int)
    }

    /// The block that spans the position `id`.
    pub open spec fn block_of(&self, id: ID) -> ItemView {
        self.items_of(id.client)[span_index(self.items_of(id.client), id.clock as int)]
    }

    /// The left neighbour that the position `id` names: that of its block
    /// at the first position of the block, and the position before it at
    /// every other.
    pub open spec fn origin_of(&self, id: ID) -> Option<ID> {
        let b = self.block_of(id);
        if id.clock == b.id.clock {
            b.origin
        } else {
            Some(ID { client: id.client, clock: (id.clock - 1) as u32 })
        }
    }

    /// The right neighbour that the position `id` names: that of its block.
    pub open spec fn right_origin_of(&self, id: ID) -> Option<ID> {
        self.block_of(id).right_origin
    }

    /// The order of the positions in the container `seq`.
    pub open spec fn order_of(&self, seq: int) -> Seq<ID> {
        self.types[seq].order@
    }

    /// The next clock expected of `client`: zero for a client never seen.
    pub fn get_state(&self, client: ClientID) -> (r: u32)
        requires
            self.wf(),
        ensures
            r == self.state(client),
    {
        let (found, p) = find_key(&self.clients, client);
        if found {
            let list = &self.clients[p].1;
            let n: usize = list.items.len();
            let last = &list.items[n - 1];
            proof {
                let v = list_items(*list);
                assert(self.clients[p as int].1.wf(client, self.types.len() as int));
                lemma_chain_at(v, client, 0, n - 1);
                assert(v[n - 1] == last@);
            }
            last.id.clock + last.len() as u32
        } else {
            0
        }
    }

    /// Where the block that spans `id` stands: the place of its client
    /// and its place among the client's blocks.
    pub fn find(&self, id: &ID) -> (r: Option<(usize, usize)>)
        requires
            self.wf(),
        ensures
            match r {
                Some((p, i)) => self.knows(*id) && p < self.clients.len() && self.clients[p as int].0
                    == id.client && i < self.clients[p as int].1.items.len()
                    && self.clients[p as int].1.items[i as int]@ == self.block_of(*id)
                    && self.block_of(*id).spans(*id) && p == index_of(self.clients@, id.client)
                    && i == span_index(self.items_of(id.client), id.clock as int),
                None => !self.knows(*id) && id.clock >= self.state(id.client),
            },
    {
        let (found, p) = find_key(&self.clients, id.client);
        if !found {
            return None;
        }
        let list = &self.clients[p].1;
        assert(self.clients[p as int].1.wf(id.client, self.types.len() as int));
        match find_block(&list.items, id.clock, id.client) {
            Some(i) => {
                proof {
                    lemma_chain_at(list_items(*list), id.client, 0, i as int);
                }
                Some((p, i))
            },
            None => None,
        }
    }

    /// The block that holds the position at the place `index` of the
    /// container `seq`: the place of its client, its place among the
    /// client's blocks, and how far into the block the position lies.
    pub fn locate(&self, seq: usize, index: usize) -> (r: Option<(usize, usize, usize)>)
        requires
            self.wf(),
        ensures
            match r {
                Some((p, i, k)) => seq < self.types.len() && index < self.order_of(seq as int).len()
                    && self.knows(self.order_of(seq as int)[index as int]) && p == index_of(
                    self.clients@,
                    self.order_of(seq as int)[index as int].client,
                ) && i == span_index(
                    self.items_of(self.order_of(seq as int)[index as int].client),
                    self.order_of(seq as int)[index as int].clock as int,
                ) && k == self.order_of(seq as int)[index as int].clock - self.block_of(
                    self.order_of(seq as int)[index as int],
                ).id.clock,
                None => seq >= self.types.len() || index >= self.order_of(seq as int).len()
                    || !self.knows(self.order_of(seq as int)[index as int]),
            },
    {
        if seq >= self.types.len() {
            return None;
        }
        let order = &self.types[seq].order;
        if index >= order.len() {
            return None;
        }
        let id: ID = order[index];
        match self.find(&id) {
            Some((p, i)) => {
                let first: u32 = self.clients[p].1.items[i].id.clock;
                Some((p, i, (id.clock - first) as usize))
            },
            None => None,
        }
    }

    /// Whether the block clashes with a block of the store: the two have
    /// positions in common, neither is a tombstone, and at these positions
    /// they do not hold the same. Then a client has used a clock twice.
    pub open spec fn clashes(&self, it: ItemView) -> bool {
        exists|j: int|
            0 <= j < self.items_of(it.id.client).len() && at_odds(
                #[trigger] self.items_of(it.id.client)[j],
                it,
            )
    }

    /// Whether the block clashes with a block of the store.
    pub fn is_clash(&self, it: &Item) -> (r: bool)
        requires
            self.wf(),
        ensures
            r == self.clashes(it@),
    {
        let n: usize = it.len();
        let (found, p) = find_key(&self.clients, it.id.client);
        if !found || n == 0 || it.is_deleted() {
            return false;
        }
        let list = &self.clients[p].1;
        let ghost items = self.items_of(it.id.client);
        assert(items == list_items(*list));
        assert(self.clients[p as int].1.wf(it.id.client, self.types.len() as int));
        let first: u32 = it.id.clock;
        let mut j: usize = 0;
        while j < list.items.len()
            invariant
                j <= list.items.len(),
                items == list_items(*list),
                items == self.items_of(it.id.client),
                chain(items, it.id.client, 0),
                n == it@.len(),
                n >= 1,
                first == it.id.clock,
                !(it@.content is Deleted),
                forall|k: int| 0 <= k < j ==> !at_odds(#[trigger] items[k], it@),
            decreases list.items.len() - j,
        {
            let b = &list.items[j];
            proof {
                lemma_chain_at(items, it.id.client, 0, j as int);
                assert(items[j as int] == b@);
            }
            let b_first: u32 = b.id.clock;
            let b_end: u32 = b.id.clock + b.len() as u32;
            if !b.is_deleted() && first < b_end && (b_first <= first || ((b_first - first) as usize)
                < n) {
                let lo: u32 = if b_first < first {
                    first
                } else {
                    b_first
                };
                let hi: u32 = if n >= (b_end - first) as usize {
                    b_end
                } else {
                    first + n as u32
                };
                let mine = it.content.part((lo - first) as usize, (hi - lo) as usize);
                let theirs = b.content.part((lo - b_first) as usize, (hi - lo) as usize);
                if !theirs.equals(&mine) {
                    assert(at_odds(items[j as int], it@));
                    return true;
                }
            }
            assert(!at_odds(items[j as int], it@));
            j = j + 1;
        }
        false
    }

    /// The first block of the update that clashes with a block of the
    /// store, where one does.
    pub fn first_clash(&self, update: &Update) -> (r: Option<ID>)
        requires
            self.wf(),
        ensures
            match r {
                Some(id) => exists|a: int, b: int|
                    0 <= a < update@.blocks.len() && 0 <= b < update@.blocks[a].items.len()
                        && (#[trigger] update@.blocks[a].items[b]).id == id && self.clashes(
                        update@.blocks[a].items[b],
                    ),
                None => forall|a: int, b: int|
                    0 <= a < update@.blocks.len() && 0 <= b < update@.blocks[a].items.len()
                        ==> !self.clashes(#[trigger] update@.blocks[a].items[b]),
            },
    {
        let ghost u = update@;
        let mut i: usize = 0;
        while i < update.blocks.len()
            invariant
                i <= update.blocks.len(),
                u == update@,
                self.wf(),
                forall|a: int, b: int|
                    0 <= a < i && 0 <= b < u.blocks[a].items.len() ==> !self.clashes(
                        #[trigger] u.blocks[a].items[b],
                    ),
            decreases update.blocks.len() - i,
        {
            let section = &update.blocks[i];
            assert(u.blocks[i as int] == section@);
            let mut j: usize = 0;
            while j < section.items.len()
                invariant
                    i < update.blocks.len(),
                    j <= section.items.len(),
                    u == update@,
                    u.blocks[i as int] == section@,
                    self.wf(),
                    forall|b: int| 0 <= b < j ==> !self.clashes(#[trigger] section@.items[b]),
                decreases section.items.len() - j,
            {
                assert(section@.items[j as int] == section.items[j as int]@);
                if self.is_clash(&section.items[j]) {
                    assert(u.blocks[i as int].items[j as int].id == section.items[j as int].id);
                    return Some(section.items[j].id);
                }
                j = j + 1;
            }
            i = i + 1;
        }
        None
    }

    /// The neighbours that the position `id` names.
    pub fn slot(&self, id: &ID) -> (r: Option<(Option<ID>, Option<ID>)>)
        requires
            self.wf(),
        ensures
            match r {
                Some((o, ro)) => self.knows(*id) && o == self.origin_of(*id) && ro
                    == self.right_origin_of(*id),
                None => !self.knows(*id),
            },
    {
        match self.find(id) {
            Some((p, i)) => {
                let it = &self.clients[p].1.items[i];
                let o: Option<ID> = if id.clock == it.id.clock {
                    it.origin
                } else {
                    Some(ID { client: id.client, clock: id.clock - 1 })
                };
                Some((o, it.right_origin))
            },
            None => None,
        }
    }

    /// The place of the container that `parent` names under `key`, where
    /// there is one.
    pub fn find_type(&self, parent: &TypePtr, key: &Option<String>) -> (r: Option<usize>)
        ensures
            match r {
                Some(k) => k < self.types.len() && self.types[k as int].parent@ == parent@
                    && opt_text(self.types[k as int].key) == opt_text(*key) && forall|j: int|
                    0 <= j < k ==> !(#[trigger] self.types[j].parent@ == parent@ && opt_text(
                        self.types[j].key,
                    ) == opt_text(*key)),
                None => forall|j: int|
                    0 <= j < self.types.len() ==> !(#[trigger] self.types[j].parent@ == parent@
                        && opt_text(self.types[j].key) == opt_text(*key)),
            },
    {
        let mut k: usize = 0;
        while k < self.types.len()
            invariant
                k <= self.types.len(),
                forall|j: int|
                    0 <= j < k ==> !(#[trigger] self.types[j].parent@ == parent@ && opt_text(
                        self.types[j].key,
                    ) == opt_text(*key)),
            decreases self.types.len() - k,
        {
            if self.types[k].is(parent, key) {
                return Some(k);
            }
            k = k + 1;
        }
        None
    }
}

/// Whether the block `b` and the block `it` have positions in common,
/// neither is a tombstone, and at these positions they do not hold the
/// same.
pub open spec fn at_odds(b: ItemView, it: ItemView) -> bool {
    let lo = if b.id.clock < it.id.clock {
        it.id.clock as int
    } else {
        b.id.clock as int
    };
    let hi = if b.end() < it.end() {
        b.end()
    } else {
        it.end()
    };
    &&& lo < hi
    &&& !(b.content is Deleted)
    &&& !(it.content is Deleted)
    &&& b.content.part(lo - b.id.clock, hi - lo) != it.content.part(lo - it.id.clock, hi - lo)
}

/// Where the scan for the place of a block begins: behind the position
/// that the block names as its left neighbour, or at the start.
pub open spec fn scan_start(order: Seq<ID>, origin: Option<ID>) -> int {
    match origin {
        Some(o) => match first_index(order, o, 0, order.len() as int) {
            Some(k) => k + 1,
            None => 0,
        },
        None => 0,
    }
}

/// Where the scan ends at the latest: at the position that the block names
/// as its right neighbour, or at the end.
pub open spec fn scan_stop(order: Seq<ID>, right_origin: Option<ID>) -> int {
    match right_origin {
        Some(r) => match first_index(order, r, 0, order.len() as int) {
            Some(k) => k,
            None => order.len() as int,
        },
        None => order.len() as int,
    }
}

/// `core::string::String::push`: the string with the character at its end.
#[verifier::external_body]
fn push_char(s: &mut String, c: char)
    ensures
        final(s)@ == old(s)@.push(c),
{
    s.push(c)
}

impl Store {
    /// The place that the block `me` takes among the positions `order`,
    /// found by going from `cur` on while the scan has come as far as
    /// `cur` and would put the block at `dest`.
    ///
    /// The scan passes a position that names the same left neighbour as the
    /// block where its client is the smaller one, and ends where such a
    /// position has the greater client and names the same right neighbour.
    /// It passes a position whose left neighbour lies in the stretch
    /// scanned, behind it where the block has already passed that
    /// neighbour. It ends at every other position, at the right neighbour
    /// of the block, and at the end.
    pub open spec fn yata(
        &self,
        order: Seq<ID>,
        me: ItemView,
        start: int,
        stop: int,
        cur: int,
        dest: int,
    ) -> int
        decreases order.len() - cur,
    {
        if cur < 0 || cur >= order.len() || cur == stop {
            dest
        } else {
            let o = order[cur];
            if !self.knows(o) {
                dest
            } else if self.origin_of(o) == me.origin {
                if o.client < me.id.client {
                    self.yata(order, me, start, stop, cur + 1, cur + 1)
                } else if self.right_origin_of(o) == me.right_origin {
                    dest
                } else {
                    self.yata(order, me, start, stop, cur + 1, dest)
                }
            } else {
                match self.origin_of(o) {
                    Some(oo) => match first_index(order, oo, start, cur) {
                        Some(k) => self.yata(
                            order,
                            me,
                            start,
                            stop,
                            cur + 1,
                            if k < dest {
                                cur + 1
                            } else {
                                dest
                            },
                        ),
                        None => dest,
                    },
                    None => dest,
                }
            }
        }
    }

    /// The place that the block `me` takes in the container `seq`.
    pub open spec fn place(&self, seq: int, me: ItemView) -> int {
        let order = self.order_of(seq);
        let start = scan_start(order, me.origin);
        self.yata(order, me, start, scan_stop(order, me.right_origin), start, start)
    }

    /// The scan never leaves the order.
    pub proof fn lemma_yata_bounds(
        &self,
        order: Seq<ID>,
        me: ItemView,
        start: int,
        stop: int,
        cur: int,
        dest: int,
    )
        requires
            0 <= dest <= cur <= order.len(),
        ensures
            dest <= self.yata(order, me, start, stop, cur, dest) <= order.len(),
        decreases order.len() - cur,
    {
        if cur < 0 || cur >= order.len() || cur == stop {
        } else {
            self.lemma_yata_bounds(order, me, start, stop, cur + 1, cur + 1);
            self.lemma_yata_bounds(order, me, start, stop, cur + 1, dest);
        }
    }

    /// Scans the positions from `start` on for the place of the block
    /// `me`.
    pub fn conflict_scan(&self, order: &Vec<ID>, me: &Item, start: usize, stop: usize) -> (dest:
        usize)
        requires
            self.wf(),
            start <= order.len(),
        ensures
            dest == self.yata(order@, me@, start as int, stop as int, start as int, start as int),
            start <= dest <= order.len(),
    {
        let mut cur: usize = start;
        let mut dest: usize = start;
        let mut done: bool = false;
        let ghost goal = self.yata(
            order@,
            me@,
            start as int,
            stop as int,
            start as int,
            start as int,
        );
        while !done && cur < order.len() && cur != stop
            invariant
                self.wf(),
                start <= dest <= cur <= order.len(),
                goal == (if done {
                    dest as int
                } else {
                    self.yata(order@, me@, start as int, stop as int, cur as int, dest as int)
                }),
            decreases order.len() - cur, (if done { 0int } else { 1int }),
        {
            let o: ID = order[cur];
            match self.slot(&o) {
                None => {
                    done = true;
                },
                Some((oo, oro)) => {
                    if same_opt_id(&oo, &me.origin) {
                        if o.client < me.id.client {
                            dest = cur + 1;
                            cur = cur + 1;
                        } else if same_opt_id(&oro, &me.right_origin) {
                            done = true;
                        } else {
                            cur = cur + 1;
                        }
                    } else {
                        match oo {
                            Some(x) => match index_between(order, &x, start, cur) {
                                Some(k) => {
                                    if k < dest {
                                        dest = cur + 1;
                                    }
                                    cur = cur + 1;
                                },
                                None => {
                                    done = true;
                                },
                            },
                            None => {
                                done = true;
                            },
                        }
                    }
                },
            }
        }
        dest
    }
}

/// The order `order` with the `len` positions from `first` on put in at
/// the place `dest`.
pub open spec fn placed(order: Seq<ID>, dest: int, first: ID, len: nat) -> Seq<ID> {
    order.subrange(0, dest) + run(first, len) + order.subrange(dest, order.len() as int)
}

impl Store {
    /// The place of the container that `parent` names under `key`. Where
    /// the store has no such container yet, it gets one, empty and behind
    /// the others.
    pub fn type_index(&mut self, parent: &TypePtr, key: &Option<String>) -> (k: usize)
        requires
            old(self).wf(),
        ensures
            final(self).wf(),
            k < final(self).types.len(),
            k == type_place(old(self).types@, parent@, opt_text(*key)),
            final(self).types[k as int].parent@ == parent@,
            opt_text(final(self).types[k as int].key) == opt_text(*key),
            final(self).clients == old(self).clients,
            final(self).pending == old(self).pending,
            final(self).pending_ds == old(self).pending_ds,
            k < old(self).types.len() ==> final(self).types == old(self).types,
            k >= old(self).types.len() ==> k == old(self).types.len() && final(self).types.len()
                == k + 1 && final(self).types[k as int].order@.len() == 0
                && final(self).types@.subrange(0, k as int) == old(self).types@,
    {
        match self.find_type(parent, key) {
            Some(k) => {
                proof {
                    lemma_type_place(self.types@, parent@, opt_text(*key), k as int);
                }
                k
            },
            None => {
                let k: usize = self.types.len();
                proof {
                    lemma_type_place(self.types@, parent@, opt_text(*key), k as int);
                }
                let ghost before = self.types@;
                let name: Option<String> = match key {
                    Some(s) => Some(s.clone()),
                    None => None,
                };
                self.types.push(Sequence { parent: parent.duplicate(), key: name, order: Vec::new() });
                proof {
                    assert(self.types@.subrange(0, k as int) =~= before);
                    assert forall|i: int| 0 <= i < self.clients.len() implies (
                    #[trigger] self.clients[i]).1.wf(
                        self.clients[i].0,
                        self.types.len() as int,
                    ) by {
                        assert(old(self).clients[i].1.wf(old(self).clients[i].0, k as int));
                    }
                }
                k
            },
        }
    }

    /// Takes a block that is next for its client into the store, at the
    /// end of the blocks of its client, and its positions into the
    /// container `seq`, at the place that the scan gives.
    pub fn integrate(&mut self, item: Item, seq: usize)
        requires
            old(self).wf(),
            item.wf(),
            item.id.clock == old(self).state(item.id.client),
            seq < old(self).types.len(),
        ensures
            final(self).wf(),
            final(self).items_of(item.id.client) == old(self).items_of(item.id.client).push(item@),
            forall|c: ClientID|
                c != item.id.client ==> #[trigger] final(self).items_of(c) == old(self).items_of(c),
            final(self).types.len() == old(self).types.len(),
            final(self).order_of(seq as int) == placed(
                old(self).order_of(seq as int),
                old(self).place(seq as int, item@),
                item.id,
                item@.len(),
            ),
            final(self).types[seq as int].parent == old(self).types[seq as int].parent,
            final(self).types[seq as int].key == old(self).types[seq as int].key,
            forall|k: int|
                0 <= k < old(self).types.len() && k != seq ==> #[trigger] final(self).types[k]
                    == old(self).types[k],
            final(self).pending == old(self).pending,
            final(self).pending_ds == old(self).pending_ds,
            crate::converge::integrated(*old(self), item@, seq as int, *final(self)),
            forall|id: ID| old(self).knows(id) ==> #[trigger] final(self).seq_of(id) == old(
                self,
            ).seq_of(id),
            forall|id: ID| item@.spans(id) ==> #[trigger] final(self).seq_of(id) == seq,
    {
        let ghost types0 = self.types@;
        let order = &self.types[seq].order;
        let total: usize = order.len();
        let start: usize = match &item.origin {
            Some(o) => match index_between(order, o, 0, total) {
                Some(k) => k + 1,
                None => 0,
            },
            None => 0,
        };
        let stop: usize = match &item.right_origin {
            Some(r) => match index_between(order, r, 0, total) {
                Some(k) => k,
                None => total,
            },
            None => total,
        };
        let dest: usize = self.conflict_scan(order, &item, start, stop);
        let n: usize = item.len();
        let mut sq: Sequence = self.types.remove(seq);
        insert_run(&mut sq.order, dest, item.id, n);
        self.types.insert(seq, sq);
        proof {
            assert(self.types@.len() == types0.len());
            assert forall|k: int| 0 <= k < types0.len() && k != seq implies #[trigger] self.types[k]
                == types0[k] by {}
        }
        let ghost mid = *self;
        self.append_block(item, seq);
        proof {
            assert forall|id: ID| old(self).knows(id) implies #[trigger] self.seq_of(id) == old(
                self,
            ).seq_of(id) by {
                old(self).lemma_knows(id);
                assert(mid.clients == old(self).clients);
            }
        }
    }

    /// Puts a block that is next for its client at the end of the blocks
    /// of its client.
    fn append_block(&mut self, item: Item, seq: usize)
        requires
            falling(old(self).clients@),
            forall|i: int|
                0 <= i < old(self).clients.len() ==> (#[trigger] old(self).clients[i]).1.wf(
                    old(self).clients[i].0,
                    old(self).types.len() as int,
                ),
            forall|i: int|
                0 <= i < old(self).pending.len() ==> (#[trigger] old(self).pending[i]).wf(),
            old(self).pending_ds.wf(),
            item.wf(),
            item.id.clock == old(self).state(item.id.client),
            seq < old(self).types.len(),
        ensures
            final(self).wf(),
            final(self).items_of(item.id.client) == old(self).items_of(item.id.client).push(item@),
            forall|c: ClientID|
                c != item.id.client ==> #[trigger] final(self).items_of(c) == old(self).items_of(c),
            final(self).types == old(self).types,
            final(self).pending == old(self).pending,
            final(self).pending_ds == old(self).pending_ds,
            forall|id: ID| state_for(old(self).clients@, id.client) > id.clock
                ==> #[trigger] final(self).seq_of(id) == old(self).seq_of(id),
            forall|id: ID| item@.spans(id) ==> #[trigger] final(self).seq_of(id) == seq,
    {
        let client: ClientID = item.id.client;
        let ghost v = self.clients@;
        let ghost me = item@;
        let ghost types = self.types.len() as int;
        let (found, p) = find_key(&self.clients, client);
        if found {
            let mut entry: (ClientID, ClientList) = self.clients.remove(p);
            let ghost l0 = entry.1;
            let ghost old_items = list_items(l0);
            assert(l0 == v[p as int].1);
            assert(v[p as int].1.wf(v[p as int].0, types));
            entry.1.items.push(item);
            entry.1.seqs.push(seq);
            let ghost e = entry;
            self.clients.insert(p, entry);
            proof {
                let w = self.clients@;
                assert(w =~= v.update(p as int, e));
                lemma_replace(v, p as int, e);
                assert(list_items(e.1) =~= old_items.push(me));
                lemma_chain_push(old_items, client, 0, me);
                assert(e.1.wf(client, types));
                assert forall|i: int| 0 <= i < w.len() implies (#[trigger] w[i]).1.wf(
                    w[i].0,
                    types,
                ) by {
                    if i != p {
                        assert(v[i].1.wf(v[i].0, types));
                    }
                }
                assert(has_key(w, client) == has_key(v, client));
                assert(index_of(w, client) == index_of(v, client));
                assert(items_for(w, client) == items_for(v, client).push(me));
                assert forall|c: ClientID| c != client implies #[trigger] items_for(w, c)
                    == items_for(v, c) by {
                    assert(has_key(w, c) == has_key(v, c));
                    if has_key(v, c) {
                        assert(index_of(w, c) == index_of(v, c));
                        assert(index_of(v, c) != p);
                    }
                }
                assert forall|id: ID| state_for(v, id.client) > id.clock implies #[trigger] self.seq_of(
                    id,
                ) == old(self).seq_of(id) by {
                    let c = id.client;
                    assert(has_key(v, c)) by {
                        if !has_key(v, c) {
                            assert(items_for(v, c) =~= Seq::<ItemView>::empty());
                        }
                    }
                    assert(index_of(w, c) == index_of(v, c));
                    let q = index_of(v, c);
                    assert(v[q].1.wf(v[q].0, types));
                    lemma_chain_covers(items_for(v, c), c, id.clock as int);
                    if c == client {
                        lemma_push_keeps(old_items, client, me, id.clock as int);
                    }
                }
                assert forall|id: ID| me.spans(id) implies #[trigger] self.seq_of(id) == seq by {
                    lemma_chain_span(
                        items_for(w, client),
                        client,
                        0,
                        old_items.len() as int,
                        id.clock as int,
                    );
                }
            }
        } else {
            let mut items: Vec<Item> = Vec::new();
            items.push(item);
            let mut seqs: Vec<usize> = Vec::new();
            seqs.push(seq);
            let entry: (ClientID, ClientList) = (client, ClientList { items, seqs });
            let ghost e = entry;
            self.clients.insert(p, entry);
            proof {
                let w = self.clients@;
                assert(w =~= v.insert(p as int, e));
                lemma_insert(v, p as int, e);
                assert(list_items(e.1) =~= Seq::<ItemView>::empty().push(me));
                lemma_chain_push(Seq::<ItemView>::empty(), client, 0, me);
                assert(e.1.wf(client, types));
                assert forall|i: int| 0 <= i < w.len() implies (#[trigger] w[i]).1.wf(
                    w[i].0,
                    types,
                ) by {
                    if i < p {
                        assert(v[i].1.wf(v[i].0, types));
                    } else if i > p {
                        assert(v[i - 1].1.wf(v[i - 1].0, types));
                    }
                }
                assert(items_for(v, client) =~= Seq::<ItemView>::empty());
                assert(items_for(w, client) == items_for(v, client).push(me));
                assert forall|c: ClientID| c != client implies #[trigger] items_for(w, c)
                    == items_for(v, c) by {
                    assert(has_key(w, c) == has_key(v, c));
                    if has_key(v, c) {
                        assert(w[index_of(w, c)] == v[index_of(v, c)]);
                    }
                }
                assert forall|id: ID| state_for(v, id.client) > id.clock implies #[trigger] self.seq_of(
                    id,
                ) == old(self).seq_of(id) by {
                    let c = id.client;
                    assert(has_key(v, c)) by {
                        if !has_key(v, c) {
                            assert(items_for(v, c) =~= Seq::<ItemView>::empty());
                        }
                    }
                    assert(c != client);
                    assert(w[index_of(w, c)] == v[index_of(v, c)]);
                }
                assert forall|id: ID| me.spans(id) implies #[trigger] self.seq_of(id) == seq by {
                    lemma_chain_span(items_for(w, client), client, 0, 0, id.clock as int);
                }
            }
        }
    }

    /// The character at the position `id`, where the position holds one.
    pub open spec fn char_at(&self, id: ID) -> Seq<char> {
        if self.knows(id) {
            match self.block_of(id).content {
                ContentView::String(s) => seq![s[id.clock - self.block_of(id).id.clock]],
                _ => Seq::empty(),
            }
        } else {
            Seq::empty()
        }
    }

    /// The characters at the positions `order`, in that order. Tombstones
    /// and positions that hold no character give none.
    pub open spec fn text_of(&self, order: Seq<ID>) -> Seq<char>
        decreases order.len(),
    {
        if order.len() == 0 {
            Seq::empty()
        } else {
            self.text_of(order.drop_last()) + self.char_at(order.last())
        }
    }

    /// The text of the container `seq`.
    pub fn text(&self, seq: usize) -> (r: String)
        requires
            self.wf(),
            seq < self.types.len(),
        ensures
            r@ == self.text_of(self.order_of(seq as int)),
    {
        let order = &self.types[seq].order;
        let mut out: String = String::new();
        let mut i: usize = 0;
        while i < order.len()
            invariant
                i <= order.len(),
                self.wf(),
                out@ == self.text_of(order@.subrange(0, i as int)),
            decreases order.len() - i,
        {
            let id: ID = order[i];
            proof {
                let next = order@.subrange(0, i + 1);
                assert(next.drop_last() =~= order@.subrange(0, i as int));
                assert(next.last() == id);
            }
            match self.find(&id) {
                Some((p, b)) => {
                    let it = &self.clients[p].1.items[b];
                    match &it.content {
                        ItemContent::String(s) => {
                            let c: char = s.as_str().get_char((id.clock - it.id.clock) as usize);
                            push_char(&mut out, c);
                            assert(out@ =~= self.text_of(order@.subrange(0, i as int)) + seq![c]);
                        },
                        _ => {
                            assert(self.char_at(id) =~= Seq::<char>::empty());
                            assert(out@ + self.char_at(id) =~= out@);
                        },
                    }
                },
                None => {
                    assert(out@ + self.char_at(id) =~= out@);
                },
            }
            i = i + 1;
        }
        assert(order@.subrange(0, i as int) =~= order@);
        out
    }
}

/// Puts a block at the end of a list that is built up anew.
fn push_block(items: &mut Vec<Item>, seqs: &mut Vec<usize>, it: Item, seq: usize, client: ClientID)
    requires
        chain(items_view(old(items)@), client, 0),
        old(seqs).len() == old(items).len(),
        it.wf(),
        it.id.client == client,
        it.id.clock == chain_end(items_view(old(items)@), 0),
    ensures
        chain(items_view(final(items)@), client, 0),
        chain_end(items_view(final(items)@), 0) == it@.end(),
        final(seqs)@ == old(seqs)@.push(seq),
        final(items)@ == old(items)@.push(it),
        items_view(final(items)@) == items_view(old(items)@).push(it@),
{
    proof {
        lemma_chain_push(items_view(items@), client, 0, it@);
        assert(items_view(items@.push(it)) =~= items_view(items@).push(it@));
    }
    items.push(it);
    seqs.push(seq);
}

/// What becomes of a block when tombstones are put over the clocks from
/// `start` up to, and without, `end`: a tombstone and a block that the
/// range does not reach stay as they are; of any other block the part in
/// the range becomes a tombstone, and what stands before or behind it is
/// cut off and stays.
pub open spec fn pieces(it: ItemView, start: int, end: int) -> Seq<ItemView> {
    let first = it.id.clock as int;
    let last = it.end();
    if start >= end || it.content is Deleted || last <= start || first >= end {
        seq![it]
    } else if first < start {
        let tail = it.tail(start - first);
        if last > end {
            seq![it.head(start - first), tail.head(end - start).erased(), tail.tail(end - start)]
        } else {
            seq![it.head(start - first), tail.erased()]
        }
    } else {
        if last > end {
            seq![it.head(end - first).erased(), it.tail(end - first)]
        } else {
            seq![it.erased()]
        }
    }
}

/// The blocks of one client with tombstones over the clocks from `start`
/// up to, and without, `end`.
pub open spec fn erased_blocks(items: Seq<ItemView>, start: int, end: int) -> Seq<ItemView>
    decreases items.len(),
{
    if items.len() == 0 {
        Seq::empty()
    } else {
        erased_blocks(items.drop_last(), start, end) + pieces(items.last(), start, end)
    }
}

/// The blocks of one client, of which the store has the clocks below
/// `st`, with tombstones over the clocks of the first `n` of the ranges
/// `rs`, as far as the store has them.
pub open spec fn erased_ranges(items: Seq<ItemView>, rs: Seq<Range>, n: int, st: int) -> Seq<
    ItemView,
>
    decreases n,
{
    if n <= 0 {
        items
    } else {
        erased_blocks(
            erased_ranges(items, rs, n - 1, st),
            rs[n - 1].start as int,
            if rs[n - 1].end() < st {
                rs[n - 1].end()
            } else {
                st
            },
        )
    }
}

/// The ranges that the set holds of `client`.
pub open spec fn ranges_of(v: crate::id_set::IdSetView, client: ClientID) -> Seq<Range> {
    if has_key(v, client) {
        v[index_of(v, client)].1
    } else {
        Seq::empty()
    }
}

/// The blocks of one client with tombstones over all that the set holds
/// of the client, as far as the store has it.
pub open spec fn erased_by(items: Seq<ItemView>, v: crate::id_set::IdSetView, client: ClientID) -> Seq<
    ItemView,
> {
    erased_ranges(
        items,
        ranges_of(v, client),
        ranges_of(v, client).len() as int,
        chain_end(items, 0),
    )
}

/// The containers of the blocks that `erased_blocks` gives: every piece
/// stands where its block stood.
pub open spec fn erase_seqs(items: Seq<ItemView>, seqs: Seq<usize>, start: int, end: int) -> Seq<
    usize,
>
    decreases items.len(),
{
    if items.len() == 0 || seqs.len() != items.len() {
        Seq::empty()
    } else {
        erase_seqs(items.drop_last(), seqs.drop_last(), start, end) + Seq::new(
            pieces(items.last(), start, end).len(),
            |j: int| seqs.last(),
        )
    }
}

/// Puts the pieces of a block at the end of a list that is built up anew.
fn push_pieces(
    items: &mut Vec<Item>,
    seqs: &mut Vec<usize>,
    it: Item,
    seq: usize,
    client: ClientID,
    start: u32,
    end: u32,
)
    requires
        chain(items_view(old(items)@), client, 0),
        old(seqs).len() == old(items).len(),
        it.wf(),
        it.id.client == client,
        it.id.clock == chain_end(items_view(old(items)@), 0),
        start < end,
    ensures
        chain(items_view(final(items)@), client, 0),
        chain_end(items_view(final(items)@), 0) == it@.end(),
        final(seqs).len() == final(items).len(),
        final(items).len() > old(items).len(),
        items_view(final(items)@) == items_view(old(items)@) + pieces(
            it@,
            start as int,
            end as int,
        ),
        final(seqs)@ == old(seqs)@ + Seq::new(
            pieces(it@, start as int, end as int).len(),
            |j: int| seq,
        ),
{
    let ghost done = items_view(items@);
    let ghost done_seqs = seqs@;
    let ghost whole = it@;
    let ghost parts = pieces(whole, start as int, end as int);
    let first: u32 = it.id.clock;
    let n: usize = it.len();
    let last: u32 = first + n as u32;
    if it.is_deleted() || last <= start || first >= end {
        push_block(items, seqs, it, seq, client);
    } else if first < start {
        proof {
            lemma_item_split(whole, (start - first) as int);
        }
        let (head, tail) = it.split((start - first) as usize);
        push_block(items, seqs, head, seq, client);
        if last > end {
            proof {
                lemma_item_split(tail@, (end - start) as int);
            }
            let (mut mid, rest) = tail.split((end - start) as usize);
            mid.erase();
            push_block(items, seqs, mid, seq, client);
            push_block(items, seqs, rest, seq, client);
        } else {
            let mut mid = tail;
            mid.erase();
            push_block(items, seqs, mid, seq, client);
        }
    } else {
        if last > end {
            proof {
                lemma_item_split(whole, (end - first) as int);
            }
            let (mut mid, rest) = it.split((end - first) as usize);
            mid.erase();
            push_block(items, seqs, mid, seq, client);
            push_block(items, seqs, rest, seq, client);
        } else {
            let mut mid = it;
            mid.erase();
            push_block(items, seqs, mid, seq, client);
        }
    }
    assert(items_view(items@) =~= done + parts);
    assert(seqs@ =~= done_seqs + Seq::new(parts.len(), |j: int| seq));
}

/// The blocks of one client with tombstones over the clocks from `start`
/// up to, and without, `end`.
fn erase_in(list: ClientList, client: ClientID, start: u32, end: u32, Ghost(types): Ghost<int>) -> (r:
    ClientList)
    requires
        list.wf(client, types),
        start < end,
    ensures
        r.wf(client, types),
        chain_end(list_items(r), 0) == chain_end(list_items(list), 0),
        list_items(r) == erased_blocks(list_items(list), start as int, end as int),
        r.seqs@ == erase_seqs(list_items(list), list.seqs@, start as int, end as int),
{
    let ClientList { items, seqs } = list;
    let ghost old_items = items_view(items@);
    let ghost old_seqs = seqs@;
    let total: usize = items.len();
    let mut out_items: Vec<Item> = Vec::new();
    let mut out_seqs: Vec<usize> = Vec::new();
    let mut i: usize = 0;
    assert(items_view(out_items@) =~= erased_blocks(old_items.subrange(0, 0), start as int, end as int));
    assert(out_seqs@ =~= erase_seqs(
        old_items.subrange(0, 0),
        old_seqs.subrange(0, 0),
        start as int,
        end as int,
    ));
    for it in iter: items
        invariant
            i == iter.index(),
            iter.seq() == items@,
            total == items.len(),
            old_items == items_view(items@),
            old_seqs == seqs@,
            old_seqs.len() == total,
            chain(old_items, client, 0),
            forall|j: int| 0 <= j < old_seqs.len() ==> (#[trigger] old_seqs[j]) < types,
            start < end,
            chain(items_view(out_items@), client, 0),
            out_seqs.len() == out_items.len(),
            out_items.len() >= i,
            forall|j: int| 0 <= j < out_seqs.len() ==> (#[trigger] out_seqs[j]) < types,
            chain_end(items_view(out_items@), 0) == (if i == 0 {
                0
            } else {
                old_items[i - 1].end()
            }),
            items_view(out_items@) == erased_blocks(
                old_items.subrange(0, i as int),
                start as int,
                end as int,
            ),
            out_seqs@ == erase_seqs(
                old_items.subrange(0, i as int),
                old_seqs.subrange(0, i as int),
                start as int,
                end as int,
            ),
    {
        proof {
            lemma_chain_at(old_items, client, 0, i as int);
            assert(old_items[i as int] == it@);
        }
        let ghost done_seqs = out_seqs@;
        let ghost whole = it@;
        let ghost parts = pieces(whole, start as int, end as int);
        let sq: usize = seqs[i];
        push_pieces(&mut out_items, &mut out_seqs, it, sq, client, start, end);
        proof {
            let next = old_items.subrange(0, i + 1);
            let next_seqs = old_seqs.subrange(0, i + 1);
            assert(next.drop_last() =~= old_items.subrange(0, i as int));
            assert(next_seqs.drop_last() =~= old_seqs.subrange(0, i as int));
            assert(next.last() == whole);
            assert(next_seqs.last() == sq);
            assert forall|j: int| 0 <= j < out_seqs.len() implies (#[trigger] out_seqs[j])
                < types by {
                if j < done_seqs.len() {
                    assert(done_seqs[j] < types);
                } else {
                    assert(old_seqs[i as int] < types);
                }
            }
        }
        i = i + 1;
    }
    proof {
        if total > 0 {
            assert(old_items.last() == old_items[total - 1]);
        }
        assert(old_items.subrange(0, total as int) =~= old_items);
        assert(old_seqs.subrange(0, total as int) =~= old_seqs);
    }
    ClientList { items: out_items, seqs: out_seqs }
}

impl Store {
    /// Puts tombstones over the `len` positions of `client` from the clock
    /// `start` on, as far as the store has them. Blocks are cut where the
    /// range begins or ends inside them; tombstones stay as they are.
    pub fn delete(&mut self, client: ClientID, start: u32, len: u32)
        requires
            old(self).wf(),
            start + len <= u32::MAX,
        ensures
            final(self).wf(),
            forall|c: ClientID| #[trigger] final(self).state(c) == old(self).state(c),
            final(self).types == old(self).types,
            final(self).pending == old(self).pending,
            final(self).pending_ds == old(self).pending_ds,
            forall|c: ClientID|
                c != client ==> #[trigger] final(self).items_of(c) == old(self).items_of(c),
            final(self).items_of(client) == erased_blocks(
                old(self).items_of(client),
                start as int,
                start + len,
            ),
            forall|id: ID| #[trigger] final(self).knows(id) == old(self).knows(id),
            forall|id: ID| old(self).dead(id) ==> #[trigger] final(self).dead(id),
            forall|id: ID|
                id.client == client && start <= id.clock < start + len && old(self).knows(id)
                    ==> #[trigger] final(self).dead(id),
            (forall|c: int|
                start <= c < start + len && spanned(old(self).items_of(client), c) ==> dead_in(
                    old(self).items_of(client),
                    c,
                )) ==> final(self).items_of(client) == old(self).items_of(client),
            forall|id: ID| old(self).knows(id) ==> #[trigger] final(self).seq_of(id) == old(
                self,
            ).seq_of(id),
    {
        proof {
            lemma_erase_nothing(self.items_of(client), start as int);
            lemma_delete_facts(*old(self), client, start as int, start + len);
        }
        if len == 0 {
            return;
        }
        let ghost v = self.clients@;
        let ghost types = self.types.len() as int;
        let (found, p) = find_key(&self.clients, client);
        if !found {
            return;
        }
        let entry: (ClientID, ClientList) = self.clients.remove(p);
        assert(entry == v[p as int]);
        let ghost before_items = list_items(entry.1);
        let ghost before_seqs = entry.1.seqs@;
        assert(v[p as int].1.wf(v[p as int].0, types));
        let list = erase_in(entry.1, client, start, start + len, Ghost(types));
        let ghost e = (client, list);
        self.clients.insert(p, (client, list));
        proof {
            let w = self.clients@;
            assert(w =~= v.update(p as int, e));
            lemma_replace(v, p as int, e);
            assert forall|i: int| 0 <= i < w.len() implies (#[trigger] w[i]).1.wf(w[i].0, types) by {
                if i != p {
                    assert(v[i].1.wf(v[i].0, types));
                }
            }
            assert forall|c: ClientID| #[trigger] state_for(w, c) == state_for(v, c) by {
                assert(has_key(w, c) == has_key(v, c));
                if has_key(v, c) {
                    assert(index_of(w, c) == index_of(v, c));
                }
            }
            assert forall|c: ClientID| c != client implies #[trigger] items_for(w, c) == items_for(
                v,
                c,
            ) by {
                assert(has_key(w, c) == has_key(v, c));
                if has_key(v, c) {
                    assert(index_of(w, c) == index_of(v, c));
                    assert(index_of(v, c) != p);
                }
            }
            assert(has_key(w, client) == has_key(v, client));
            assert(index_of(w, client) == index_of(v, client));
            assert(items_for(v, client) == before_items);
            assert forall|id: ID| #[trigger] self.knows(id) == old(self).knows(id) by {
                assert(spanned(self.items_of(id.client), id.clock as int) == spanned(
                    old(self).items_of(id.client),
                    id.clock as int,
                ));
            }
            assert forall|id: ID| old(self).dead(id) implies #[trigger] self.dead(id) by {
                assert(dead_in(self.items_of(id.client), id.clock as int));
            }
            assert forall|id: ID|
                id.client == client && start <= id.clock < start + len && old(self).knows(
                    id,
                ) implies #[trigger] self.dead(id) by {
                assert(dead_in(self.items_of(id.client), id.clock as int));
            }
            assert forall|id: ID| old(self).knows(id) implies #[trigger] self.seq_of(id) == old(
                self,
            ).seq_of(id) by {
                let c = id.client;
                assert(has_key(v, c)) by {
                    if !has_key(v, c) {
                        assert(items_for(v, c) =~= Seq::<ItemView>::empty());
                    }
                }
                assert(index_of(w, c) == index_of(v, c));
                if c == client {
                    lemma_erase_seq(
                        before_items,
                        before_seqs,
                        client,
                        start as int,
                        start + len,
                        id.clock as int,
                    );
                } else {
                    assert(index_of(v, c) != p);
                }
            }
        }
    }

    /// Whether the store has every position that the block depends on:
    /// the neighbours that it names, and the block that opens its
    /// container where it names one.
    pub open spec fn ready(&self, it: ItemView) -> bool {
        &&& it.origin matches Some(o) ==> self.knows(o)
        &&& it.right_origin matches Some(r) ==> self.knows(r)
        &&& !it.has_origin() ==> (it.parent matches TypePtrView::Id(p) ==> self.knows(p))
    }

    /// Whether the store can take the block in: the block reaches beyond
    /// what the store has of its client and begins no later, the store has
    /// what the part that it lacks depends on, and that part names a
    /// neighbour that the store has, or a container.
    pub open spec fn takes(&self, it: ItemView) -> bool {
        let st = self.state(it.id.client);
        let part = if it.id.clock < st {
            it.tail(st - it.id.clock)
        } else {
            it
        };
        &&& it.id.clock <= st < it.end()
        &&& self.ready(part)
        &&& self.container_for(part) is Some
    }

    /// Whether the store has every position that the block depends on.
    pub fn is_ready(&self, it: &Item) -> (r: bool)
        requires
            self.wf(),
        ensures
            r == self.ready(it@),
    {
        let left: bool = match &it.origin {
            Some(o) => self.find(o).is_some(),
            None => true,
        };
        let right: bool = match &it.right_origin {
            Some(o) => self.find(o).is_some(),
            None => true,
        };
        let held: bool = if it.origin.is_none() && it.right_origin.is_none() {
            match &it.parent {
                TypePtr::Id(p) => self.find(p).is_some(),
                _ => true,
            }
        } else {
            true
        };
        left && right && held
    }

    /// The container in which the position `id` stands.
    pub open spec fn seq_of(&self, id: ID) -> int {
        self.clients[index_of(self.clients@, id.client)].1.seqs[span_index(
            self.items_of(id.client),
            id.clock as int,
        )] as int
    }

    /// The place of the container that the block `it` belongs to: that of
    /// its left neighbour where the store has it, else that of its right
    /// neighbour, else that of the container that it names, which stands
    /// behind all where the store does not have it yet. A block that names
    /// nothing that the store has belongs nowhere.
    pub open spec fn container_for(&self, it: ItemView) -> Option<int> {
        if it.origin is Some && self.knows(it.origin.unwrap()) {
            Some(self.seq_of(it.origin.unwrap()))
        } else if it.right_origin is Some && self.knows(it.right_origin.unwrap()) {
            Some(self.seq_of(it.right_origin.unwrap()))
        } else if it.has_origin() || it.parent is Unknown {
            None
        } else {
            Some(type_place(self.types@, it.parent, it.parent_sub))
        }
    }

    /// The container that a block belongs to: that of its left neighbour,
    /// else that of its right neighbour, else the one that it names, which
    /// is made where the store does not have it yet.
    pub fn seq_for(&mut self, it: &Item) -> (r: Option<usize>)
        requires
            old(self).wf(),
        ensures
            final(self).wf(),
            match r {
                Some(k) => old(self).container_for(it@) == Some(k as int),
                None => old(self).container_for(it@) is None,
            },
            match r {
                Some(k) => if k < old(self).types.len() {
                    final(self).types == old(self).types
                } else {
                    final(self).types@.subrange(0, k as int) == old(self).types@
                        && final(self).types.len() == k + 1 && final(self).types[k as int].parent@
                        == it@.parent && opt_text(final(self).types[k as int].key)
                        == it@.parent_sub && final(self).types[k as int].order@.len() == 0
                },
                None => true,
            },
            final(self).clients == old(self).clients,
            final(self).pending == old(self).pending,
            final(self).pending_ds == old(self).pending_ds,
            old(self).types.len() <= final(self).types.len(),
            r matches Some(k) ==> k < final(self).types.len(),
            r is None ==> final(self).types == old(self).types,
            old(self).ready(it@) && it.wf() ==> r is Some,
    {
        match &it.origin {
            Some(o) => {
                match self.find(o) {
                    Some((p, i)) => {
                        assert(self.clients[p as int].1.wf(
                            self.clients[p as int].0,
                            self.types.len() as int,
                        ));
                        return Some(self.clients[p].1.seqs[i]);
                    },
                    None => {},
                }
            },
            None => {},
        }
        match &it.right_origin {
            Some(o) => {
                match self.find(o) {
                    Some((p, i)) => {
                        assert(self.clients[p as int].1.wf(
                            self.clients[p as int].0,
                            self.types.len() as int,
                        ));
                        return Some(self.clients[p].1.seqs[i]);
                    },
                    None => {},
                }
            },
            None => {},
        }
        if it.origin.is_some() || it.right_origin.is_some() {
            return None;
        }
        match &it.parent {
            TypePtr::Unknown => None,
            _ => Some(self.type_index(&it.parent, &it.parent_sub)),
        }
    }

    /// Keeps a block waiting, unless the same block waits already.
    fn keep(rest: &mut Vec<Item>, it: Item)
        requires
            forall|k: int| 0 <= k < old(rest).len() ==> (#[trigger] old(rest)[k]).wf(),
            it.wf(),
            distinct(items_view(old(rest)@)),
        ensures
            forall|k: int| 0 <= k < final(rest).len() ==> (#[trigger] final(rest)[k]).wf(),
            distinct(items_view(final(rest)@)),
            waits(final(rest)@, it.id.client, it@.end()),
            items_view(old(rest)@).contains(it@) ==> final(rest)@ == old(rest)@,
            !items_view(old(rest)@).contains(it@) ==> final(rest)@ == old(rest)@.push(it),
            !items_view(old(rest)@).contains(it@) ==> items_view(final(rest)@) == items_view(
                old(rest)@,
            ).push(it@),
    {
        let ghost v = items_view(rest@);
        let mut k: usize = 0;
        while k < rest.len()
            invariant
                k <= rest.len(),
                rest@ == old(rest)@,
                v == items_view(rest@),
                distinct(v),
                forall|j: int| 0 <= j < rest.len() ==> (#[trigger] rest[j]).wf(),
                forall|j: int| 0 <= j < k ==> #[trigger] v[j] != it@,
            decreases rest.len() - k,
        {
            if rest[k].equals(&it) {
                assert(v[k as int] == it@);
                assert(v.contains(it@));
                assert(rest@[k as int]@.end() == it@.end());
                return;
            }
            assert(v[k as int] == rest@[k as int]@);
            k = k + 1;
        }
        proof {
            let w = items_view(rest@.push(it));
            assert(w =~= v.push(it@));
            assert forall|i: int, j: int| 0 <= i < j < w.len() implies #[trigger] w[i]
                != #[trigger] w[j] by {
                if j < v.len() {
                    assert(v[i] != v[j]);
                }
            }
        }
        rest.push(it);
        assert(rest@[rest.len() - 1]@.end() == it@.end());
    }

    /// Deals with one block that waits. A block that the store has already
    /// is dropped; one that the store can take in is taken in, cut down to
    /// what the store lacks; any other block is kept waiting, cut down
    /// likewise, unless the same block waits already.
    fn settle_one(&mut self, rest: &mut Vec<Item>, it: Item)
        requires
            old(self).wf(),
            it.wf(),
            forall|k: int| 0 <= k < old(rest).len() ==> (#[trigger] old(rest)[k]).wf(),
            distinct(items_view(old(rest)@)),
        ensures
            final(self).wf(),
            forall|k: int| 0 <= k < final(rest).len() ==> (#[trigger] final(rest)[k]).wf(),
            distinct(items_view(final(rest)@)),
            final(self).pending == old(self).pending,
            final(self).pending_ds == old(self).pending_ds,
            forall|c: ClientID| #[trigger] final(self).state(c) >= old(self).state(c),
            forall|id: ID| old(self).dead(id) ==> #[trigger] final(self).dead(id),
            step(*old(self), items_view(old(rest)@), it@, *final(self), items_view(final(rest)@)),
            old(rest).len() <= final(rest).len() <= old(rest).len() + 1,
    {
        let ghost whole = it@;
        let ghost rv0 = items_view(rest@);
        let client: ClientID = it.id.client;
        let st: u32 = self.get_state(client);
        let first: u32 = it.id.clock;
        let n: usize = it.len();
        let last: u32 = first + n as u32;
        if last <= st {
            return;
        }
        if first > st {
            Self::keep(rest, it);
            return;
        }
        let part: Item = if first < st {
            proof {
                lemma_item_split(it@, (st - first) as int);
            }
            it.split((st - first) as usize).1
        } else {
            it
        };
        let ghost pv = part@;
        assert(pv == old(self).cut(whole));
        if self.is_ready(&part) {
            let ghost before = *self;
            match self.seq_for(&part) {
                Some(seq) => {
                    let ghost mid = *self;
                    self.integrate(part, seq);
                    proof {
                        lemma_chain_end_push(mid.items_of(client), pv);
                        assert(took(before, pv, *self)) by {
                            reveal(took);
                            let n = before.types.len() as int;
                            assert(mid.types@.subrange(0, n) == before.types@);
                            assert forall|k: int| 0 <= k < n && k != seq implies #[trigger] self.types[k]
                                == before.types[k] by {
                                assert(mid.types@.subrange(0, n)[k] == mid.types[k]);
                            }
                            assert forall|id: ID| before.knows(id) implies #[trigger] self.seq_of(id)
                                == before.seq_of(id) by {
                                assert(mid.knows(id));
                                assert(mid.seq_of(id) == before.seq_of(id));
                            }
                            if seq < n {
                                assert(mid == before);
                            } else {
                                let order = mid.order_of(seq as int);
                                assert(order.len() == 0);
                                assert(mid.place(seq as int, pv) == 0);
                                assert(placed(order, 0, pv.id, pv.len()) =~= run(pv.id, pv.len()));
                            }
                        }
                        assert forall|c: ClientID| #[trigger]
                            self.state(c) >= old(self).state(c) by {
                            assert(mid.state(c) == before.state(c));
                            if c != client {
                                assert(self.items_of(c) == mid.items_of(c));
                            }
                        }
                        assert forall|id: ID| old(self).dead(id) implies #[trigger] self.dead(id) by {
                            assert(mid.dead(id));
                            if id.client == client {
                                self.lemma_items_chain(client);
                                lemma_push_keeps(mid.items_of(client), client, pv, id.clock as int);
                            } else {
                                assert(self.items_of(id.client) == mid.items_of(id.client));
                            }
                        }
                    }
                    return;
                },
                None => {},
            }
        }
        Self::keep(rest, part);
    }

    /// Goes once through blocks that wait. A block that the store has
    /// already is dropped; one that is next for its client and has what it
    /// depends on is taken in, cut down to what the store lacks; every
    /// other block is handed back, cut down likewise, once.
    fn settle(&mut self, work: Vec<Item>, Ghost(base): Ghost<Seq<ItemView>>) -> (rest: Vec<Item>)
        requires
            old(self).wf(),
            forall|i: int| 0 <= i < work.len() ==> (#[trigger] work[i]).wf(),
        ensures
            final(self).wf(),
            forall|i: int| 0 <= i < rest.len() ==> (#[trigger] rest[i]).wf(),
            rest.len() <= work.len(),
            forall|c: ClientID| #[trigger] final(self).state(c) >= old(self).state(c),
            final(self).pending == old(self).pending,
            final(self).pending_ds == old(self).pending_ds,
            forall|i: int|
                0 <= i < work.len() ==> final(self).kept(items_view(rest@), #[trigger] work[i]@),
            forall|id: ID| old(self).dead(id) ==> #[trigger] final(self).dead(id),
            all_known(*old(self), work@) ==> *final(self) == *old(self) && rest.len() == 0,
            rest.len() == work.len() ==> *final(self) == *old(self) && forall|k: int|
                0 <= k < rest.len() ==> !final(self).takes(#[trigger] rest[k]@) && rest[k]@.id.clock
                    >= final(self).state(rest[k]@.id.client),
            distinct(items_view(rest@)),
            quiet(*old(self), items_view(work@)) ==> *final(self) == *old(self),
            quiet(*old(self), items_view(work@)) && replay(*old(self), items_view(work@), base)
                ==> items_view(rest@) == base,
            passed(
                *old(self),
                items_view(work@),
                work.len() as int,
                *final(self),
                items_view(rest@),
            ),
            grown(old(self).types@, final(self).types@),
    {
        let mut rest: Vec<Item> = Vec::new();
        let mut i: usize = 0;
        let ghost total = work.len();
        let ghost wv = items_view(work@);
        let ghost calm = quiet(*old(self), wv);
        let ghost again = calm && replay(*old(self), wv, base);
        assert(items_view(rest@) =~= base.subrange(0, 0));
        assert(items_view(rest@) =~= Seq::<ItemView>::empty());
        proof {
            lemma_passed_none(*old(self), wv, wv);
        }
        for it in iter: work
            invariant
                i == iter.index(),
                passed(*old(self), wv, i as int, *self, items_view(rest@)),
                grown(old(self).types@, self.types@),
                iter.seq() == work@,
                total == work.len(),
                wv == items_view(work@),
                calm == quiet(*old(self), wv),
                again == (calm && replay(*old(self), wv, base)),
                forall|k: int| 0 <= k < work.len() ==> (#[trigger] work[k]).wf(),
                self.wf(),
                forall|k: int| 0 <= k < rest.len() ==> (#[trigger] rest[k]).wf(),
                rest.len() <= i,
                forall|c: ClientID| #[trigger] self.state(c) >= old(self).state(c),
                self.pending == old(self).pending,
                self.pending_ds == old(self).pending_ds,
                forall|k: int| 0 <= k < i ==> self.kept(items_view(rest@), #[trigger] wv[k]),
                forall|id: ID| old(self).dead(id) ==> #[trigger] self.dead(id),
                all_known(*old(self), work@.subrange(0, i as int)) ==> *self == *old(self)
                    && rest.len() == 0,
                rest.len() == i ==> *self == *old(self) && still(*self, items_view(rest@)),
                distinct(items_view(rest@)),
                calm ==> *self == *old(self),
                again ==> items_view(rest@) == base.subrange(
                    0,
                    if i <= base.len() {
                        i as int
                    } else {
                        base.len() as int
                    },
                ),
        {
            assert(work[i as int].wf());
            assert(wv[i as int] == it@);
            let ghost s0 = *self;
            let ghost rv0 = items_view(rest@);
            let ghost o = it@;
            self.settle_one(&mut rest, it);
            proof {
                let rv = items_view(rest@);
                let i1 = i + 1;
                lemma_passed_next(*old(self), wv, i as int, s0, rv0, *self, rv);
                lemma_step_grown(s0, rv0, o, *self, rv);
                assert forall|c: ClientID| #[trigger] self.state(c) >= old(self).state(c) by {
                    assert(s0.state(c) >= old(self).state(c));
                }
                assert forall|id: ID| old(self).dead(id) implies #[trigger] self.dead(id) by {
                    assert(s0.dead(id));
                }
                assert forall|k: int| 0 <= k < i + 1 implies self.kept(rv, #[trigger] wv[k]) by {
                    if k < i {
                        lemma_step_keeps(s0, rv0, o, *self, rv, wv[k]);
                    } else {
                        lemma_step_kept(s0, rv0, o, *self, rv);
                    }
                }
                if all_known(*old(self), work@.subrange(0, i + 1)) {
                    let next = work@.subrange(0, i + 1);
                    assert(all_known(*old(self), work@.subrange(0, i as int))) by {
                        assert forall|k: int| 0 <= k < i implies (#[trigger] work@.subrange(
                            0,
                            i as int,
                        )[k])@.end() <= old(self).state(work@.subrange(0, i as int)[k].id.client) by {
                            assert(next[k]@.end() <= old(self).state(next[k].id.client));
                        }
                    }
                    assert(next[i as int]@.end() <= old(self).state(next[i as int].id.client));
                }
                if rest.len() == i + 1 {
                    lemma_step_still(s0, rv0, o, *self, rv);
                }
                if calm {
                    assert(wv[i as int].end() <= old(self).state(wv[i as int].id.client)
                        || !old(self).takes(wv[i as int]));
                }
                if again {
                    lemma_step_replay(s0, rv0, o, *self, rv, wv, base, i as int);
                }
            }
            i = i + 1;
        }
        proof {
            assert(work@.subrange(0, i as int) =~= work@);
            if again {
                assert(base.subrange(0, base.len() as int) =~= base);
            }
            assert forall|k: int| 0 <= k < work.len() implies self.kept(
                items_view(rest@),
                #[trigger] work[k]@,
            ) by {
                assert(self.kept(items_view(rest@), wv[k]));
            }
            if rest.len() == work.len() {
                assert(still(*self, items_view(rest@)));
                assert forall|k: int| 0 <= k < rest.len() implies !self.takes(#[trigger] rest[k]@)
                    && rest[k]@.id.clock >= self.state(rest[k]@.id.client) by {
                    assert(items_view(rest@)[k] == rest[k]@);
                }
            }
        }
        rest
    }

    /// Takes the blocks that wait in again and again, until a pass takes
    /// none of them in.
    fn settle_all(&mut self, work: Vec<Item>, Ghost(base): Ghost<Seq<ItemView>>)
        requires
            old(self).wf(),
            forall|i: int| 0 <= i < work.len() ==> (#[trigger] work[i]).wf(),
        ensures
            final(self).wf(),
            forall|c: ClientID| #[trigger] final(self).state(c) >= old(self).state(c),
            final(self).pending_ds == old(self).pending_ds,
            forall|i: int|
                0 <= i < work.len() ==> final(self).kept(
                    items_view(final(self).pending@),
                    #[trigger] work[i]@,
                ),
            forall|id: ID| old(self).dead(id) ==> #[trigger] final(self).dead(id),
            all_known(*old(self), work@) ==> final(self).clients == old(self).clients
                && final(self).types == old(self).types && final(self).pending.len() == 0,
            still(*final(self), items_view(final(self).pending@)),
            distinct(items_view(final(self).pending@)),
            quiet(*old(self), items_view(work@)) && replay(*old(self), items_view(work@), base)
                ==> final(self).clients == old(self).clients && final(self).types == old(
                self,
            ).types && items_view(final(self).pending@) == base,
            exists|b: Store| #[trigger]
                settled(*old(self), items_view(work@), b, items_view(final(self).pending@))
                    && final(self).clients == b.clients && final(self).types == b.types,
            grown(old(self).types@, final(self).types@),
    {
        let ghost work0 = work@;
        let ghost wv0 = items_view(work@);
        let ghost calm = quiet(*old(self), wv0) && replay(*old(self), wv0, base);
        let mut work: Vec<Item> = work;
        let mut again: bool = true;
        let ghost mut k: int = 0;
        proof {
            lemma_passed_none(*old(self), wv0, wv0);
            assert forall|i: int| 0 <= i < wv0.len() implies self.kept(
                items_view(work@),
                #[trigger] wv0[i],
            ) by {
                if self.state(wv0[i].id.client) < wv0[i].end() {
                    assert(work0[i].wf());
                    assert(heir(*self, items_view(work@)[i], wv0[i]));
                }
            }
        }
        while again
            invariant
                self.wf(),
                0 <= k,
                again ==> rounds(*old(self), wv0, k, *self, items_view(work@)),
                !again ==> settled(*old(self), wv0, *self, items_view(work@)),
                grown(old(self).types@, self.types@),
                wv0 == items_view(work0),
                forall|i: int| 0 <= i < work0.len() ==> (#[trigger] work0[i]).wf(),
                forall|i: int| 0 <= i < work.len() ==> (#[trigger] work[i]).wf(),
                forall|c: ClientID| #[trigger] self.state(c) >= old(self).state(c),
                self.pending_ds == old(self).pending_ds,
                forall|i: int|
                    0 <= i < wv0.len() ==> self.kept(items_view(work@), #[trigger] wv0[i]),
                forall|id: ID| old(self).dead(id) ==> #[trigger] self.dead(id),
                all_known(*old(self), work0) ==> self.clients == old(self).clients && self.types
                    == old(self).types && self.pending == old(self).pending && (work.len() == 0 || (
                work@ == work0 && again)),
                !again ==> still(*self, items_view(work@)) && distinct(items_view(work@)),
                calm == (quiet(*old(self), wv0) && replay(*old(self), wv0, base)),
                calm ==> *self == *old(self) && (items_view(work@) == base || (items_view(work@)
                    == wv0 && again)),
            decreases work.len(), (if again { 1int } else { 0int }),
        {
            let n: usize = work.len();
            let ghost before = *self;
            let ghost w1 = work@;
            let ghost wv1 = items_view(work@);
            proof {
                if calm && wv1 != wv0 {
                    lemma_replay_base(*old(self), wv0, base);
                }
            }
            work = self.settle(work, Ghost(base));
            proof {
                let rv = items_view(work@);
                assert(grown(old(self).types@, self.types@)) by {
                    assert(grown(before.types@, self.types@));
                    assert forall|j: int| 0 <= j < old(self).types.len() implies (
                    #[trigger] self.types@[j]).parent@ == old(self).types@[j].parent@ && opt_text(
                        self.types@[j].key,
                    ) == opt_text(old(self).types@[j].key) by {
                        assert(before.types@[j].parent@ == old(self).types@[j].parent@);
                    }
                }
                assert(passed(before, wv1, wv1.len() as int, *self, rv));
                lemma_rounds_next(*old(self), wv0, k, before, wv1, *self, rv);
                if rv.len() < wv1.len() {
                    k = k + 1;
                }
                assert forall|c: ClientID| #[trigger] self.state(c) >= old(self).state(c) by {
                    assert(before.state(c) >= old(self).state(c));
                    assert(self.state(c) >= before.state(c));
                }
                assert forall|id: ID| old(self).dead(id) implies #[trigger] self.dead(id) by {
                    assert(before.dead(id));
                }
                assert forall|i: int| 0 <= i < wv0.len() implies self.kept(
                    rv,
                    #[trigger] wv0[i],
                ) by {
                    assert(work0[i].wf());
                    assert(before.kept(wv1, wv0[i]));
                    lemma_kept_on(before, wv1, *self, rv, wv0[i]);
                }
                if all_known(*old(self), work0) {
                    assert(all_known(before, w1)) by {
                        assert forall|k: int| 0 <= k < w1.len() implies (#[trigger] w1[k])@.end()
                            <= before.state(w1[k].id.client) by {
                            assert(w1 == work0);
                            assert(work0[k]@.end() <= old(self).state(work0[k].id.client));
                            assert(before.clients == old(self).clients);
                        }
                    }
                }
                if work.len() == n {
                    assert forall|k: int| 0 <= k < rv.len() implies !self.takes(#[trigger] rv[k])
                        && rv[k].id.clock >= self.state(rv[k].id.client) by {
                        assert(rv[k] == work@[k]@);
                    }
                }
            }
            again = work.len() < n;
        }
        let ghost s1 = *self;
        let ghost rest = work@;
        self.pending = work;
        proof {
            assert(settled(*old(self), wv0, s1, items_view(self.pending@)));
            lemma_same_clients(s1, *self, items_view(rest), wv0);
            assert forall|i: int| 0 <= i < work0.len() implies self.kept(
                items_view(self.pending@),
                #[trigger] work0[i]@,
            ) by {
                assert(self.kept(items_view(rest), wv0[i]));
            }
            assert forall|c: ClientID| #[trigger] self.state(c) >= old(self).state(c) by {
                assert(s1.state(c) >= old(self).state(c));
            }
            assert forall|id: ID| old(self).dead(id) implies #[trigger] self.dead(id) by {
                assert(s1.dead(id));
            }
        }
    }
}

/// The end of a chain with one more block is the end of that block.
pub proof fn lemma_chain_end_push(items: Seq<ItemView>, it: ItemView)
    ensures
        chain_end(items.push(it), 0) == it.end(),
{
    assert(items.push(it).last() == it);
}

/// The runs of blocks that stand for the whole of a table of clients: one
/// run for each client, from the clock zero on.
pub open spec fn whole_blocks(clients: Seq<(ClientID, ClientList)>) -> Seq<ClientBlocksView> {
    Seq::new(
        clients.len(),
        |i: int| ClientBlocksView { client: clients[i].0, clock: 0, items: list_items(clients[i].1) },
    )
}

impl Store {
    /// Whether the position `id` is a tombstone.
    pub open spec fn dead(&self, id: ID) -> bool {
        self.knows(id) && self.block_of(id).content is Deleted
    }

    /// Puts the tombstones that wait over the positions that the store has
    /// by now, and keeps the others waiting.
    fn resolve_deletes(&mut self)
        requires
            old(self).wf(),
        ensures
            final(self).wf(),
            forall|c: ClientID| #[trigger] final(self).state(c) == old(self).state(c),
            final(self).types == old(self).types,
            final(self).pending == old(self).pending,
            forall|id: ID|
                ids_contain(old(self).pending_ds@, id) && old(self).knows(id)
                    ==> #[trigger] final(self).dead(id),
            forall|id: ID| #[trigger]
                ids_contain(final(self).pending_ds@, id) <==> ids_contain(
                    old(self).pending_ds@,
                    id,
                ) && !old(self).knows(id),
            forall|id: ID| old(self).dead(id) ==> #[trigger] final(self).dead(id),
            forall|id: ID| #[trigger] final(self).knows(id) == old(self).knows(id),
            (forall|id: ID|
                ids_contain(old(self).pending_ds@, id) && old(self).knows(id) ==> old(self).dead(
                    id,
                )) ==> (forall|c: ClientID| #[trigger]
                final(self).items_of(c) == old(self).items_of(c)),
            forall|c: ClientID| #[trigger]
                final(self).items_of(c) == erased_by(old(self).items_of(c), old(self).pending_ds@, c),
            forall|id: ID| old(self).knows(id) ==> #[trigger] final(self).seq_of(id) == old(
                self,
            ).seq_of(id),
    {
        let mut waiting: IdSet = IdSet::new();
        core::mem::swap(&mut waiting, &mut self.pending_ds);
        let mut rest: IdSet = IdSet::new();
        let ghost w = waiting@;
        let ghost calm = forall|id: ID|
            ids_contain(w, id) && old(self).knows(id) ==> old(self).dead(id);
        proof {
            lemma_ids_ranges_ok(w);
            assert forall|id: ID| !ids_contain(w.subrange(0, 0), id) by {}
            assert forall|id: ID| !ids_contain(rest@, id) by {}
        }
        let mut i: usize = 0;
        while i < waiting.clients.len()
            invariant
                i <= waiting.clients.len(),
                w == waiting@,
                w == old(self).pending_ds@,
                calm == (forall|id: ID|
                    ids_contain(w, id) && old(self).knows(id) ==> old(self).dead(id)),
                crate::id_set::ids_ranges_ok(w),
                self.wf(),
                rest.wf(),
                forall|c: ClientID| #[trigger] self.state(c) == old(self).state(c),
                self.types == old(self).types,
                self.pending == old(self).pending,
                forall|id: ID|
                    ids_contain(w.subrange(0, i as int), id) && self.knows(id)
                        ==> #[trigger] self.dead(id),
                forall|id: ID| #[trigger]
                    ids_contain(rest@, id) <==> ids_contain(w.subrange(0, i as int), id)
                        && !self.knows(id),
                forall|id: ID| old(self).dead(id) ==> #[trigger] self.dead(id),
                forall|id: ID| #[trigger] self.knows(id) == old(self).knows(id),
                calm ==> (forall|c: ClientID| #[trigger] self.items_of(c) == old(self).items_of(c)),
                crate::id_set::ids_wf(w),
                forall|c: ClientID| #[trigger]
                    self.items_of(c) == (if has_key(w, c) && index_of(w, c) < i {
                        erased_by(old(self).items_of(c), w, c)
                    } else {
                        old(self).items_of(c)
                    }),
                forall|id: ID| old(self).knows(id) ==> #[trigger] self.seq_of(id) == old(
                    self,
                ).seq_of(id),
            decreases waiting.clients.len() - i,
        {
            let client: ClientID = waiting.clients[i].client;
            let st: u32 = self.get_state(client);
            let ghost rs = waiting.clients[i as int].ranges@;
            assert(w[i as int] == (client, rs));
            let ghost s_in = *self;
            proof {
                assert(rs.subrange(0, 0) =~= Seq::<Range>::empty());
                lemma_index_of(w, i as int);
                assert(self.items_of(client) == old(self).items_of(client));
            }
            let mut j: usize = 0;
            while j < waiting.clients[i].ranges.len()
                invariant
                    forall|c: ClientID| c != client ==> #[trigger] self.items_of(c) == s_in.items_of(c),
                    self.items_of(client) == erased_ranges(
                        old(self).items_of(client),
                        rs,
                        j as int,
                        st as int,
                    ),
                    forall|id: ID| old(self).knows(id) ==> #[trigger] self.seq_of(id) == old(
                        self,
                    ).seq_of(id),
                    i < waiting.clients.len(),
                    j <= waiting.clients[i as int].ranges.len(),
                    client == waiting.clients[i as int].client,
                    rs == waiting.clients[i as int].ranges@,
                    w == waiting@,
                    w == old(self).pending_ds@,
                    calm == (forall|id: ID|
                        ids_contain(w, id) && old(self).knows(id) ==> old(self).dead(id)),
                    crate::id_set::ids_ranges_ok(w),
                    self.wf(),
                    rest.wf(),
                    st == self.state(client),
                    forall|c: ClientID| #[trigger] self.state(c) == old(self).state(c),
                    self.types == old(self).types,
                    self.pending == old(self).pending,
                    forall|id: ID|
                        reached(w, i as int, rs, j as int, id) && self.knows(id)
                            ==> #[trigger] self.dead(id),
                    forall|id: ID| #[trigger]
                        ids_contain(rest@, id) <==> reached(w, i as int, rs, j as int, id)
                            && !self.knows(id),
                    forall|id: ID| old(self).dead(id) ==> #[trigger] self.dead(id),
                    forall|id: ID| #[trigger] self.knows(id) == old(self).knows(id),
                    calm ==> (forall|c: ClientID| #[trigger]
                        self.items_of(c) == old(self).items_of(c)),
                decreases waiting.clients[i as int].ranges.len() - j,
            {
                let r: Range = waiting.clients[i].ranges[j];
                assert(w[i as int].1[j as int].wf());
                assert(rs[j as int] == r);
                let end: u32 = r.start + r.len;
                let ghost s0 = *self;
                let ghost rest0 = rest@;
                proof {
                    if calm {
                        assert forall|c: int|
                            r.start <= c < end && spanned(s0.items_of(client), c) implies dead_in(
                            s0.items_of(client),
                            c,
                        ) by {
                            let id = ID { client, clock: c as u32 };
                            assert(rs[j as int].holds(c));
                            assert(covers(rs, c));
                            assert(w[i as int].0 == id.client && covers(
                                w[i as int].1,
                                id.clock as int,
                            ));
                            assert(ids_contain(w, id));
                            assert(s0.knows(id));
                            assert(old(self).knows(id));
                            assert(old(self).dead(id));
                            assert(s0.items_of(client) == old(self).items_of(client));
                        }
                    }
                }
                proof {
                    if r.start >= st {
                        lemma_erase_empty(
                            s0.items_of(client),
                            r.start as int,
                            if r.end() < st {
                                r.end()
                            } else {
                                st as int
                            },
                        );
                    }
                }
                if r.start < st {
                    let upto: u32 = if end < st {
                        end
                    } else {
                        st
                    };
                    self.delete(client, r.start, upto - r.start);
                    proof {
                        assert forall|c: ClientID| c != client implies #[trigger] self.items_of(c)
                            == s_in.items_of(c) by {
                            assert(s0.items_of(c) == s_in.items_of(c));
                        }
                        assert forall|id: ID| old(self).knows(id) implies #[trigger] self.seq_of(id)
                            == old(self).seq_of(id) by {
                            assert(s0.knows(id) == old(self).knows(id));
                            assert(s0.seq_of(id) == old(self).seq_of(id));
                        }
                        assert forall|c: ClientID| #[trigger] self.state(c) == old(self).state(c) by {
                            assert(s0.state(c) == old(self).state(c));
                            assert(self.state(c) == s0.state(c));
                        }
                        assert(self.state(client) == s0.state(client));
                        assert forall|id: ID| old(self).dead(id) implies #[trigger] self.dead(id) by {
                            assert(s0.dead(id));
                        }
                        assert forall|id: ID| #[trigger] self.knows(id) == old(self).knows(id) by {
                            assert(s0.knows(id) == old(self).knows(id));
                        }
                        if calm {
                            assert forall|c: ClientID| #[trigger]
                                self.items_of(c) == old(self).items_of(c) by {
                                assert(s0.items_of(c) == old(self).items_of(c));
                            }
                        }
                    }
                }
                if end > st {
                    let from: u32 = if r.start > st {
                        r.start
                    } else {
                        st
                    };
                    rest.insert(ID { client, clock: from }, end - from);
                }
                proof {
                    let j1 = j + 1;
                    assert forall|id: ID|
                        reached(w, i as int, rs, j1, id) && self.knows(id) implies #[trigger] self.dead(
                        id,
                    ) by {
                        lemma_reached_step(w, i as int, rs, j as int, id);
                        s0.lemma_knows(id);
                        assert(s0.knows(id) == self.knows(id)) by {
                            assert(s0.knows(id) == old(self).knows(id));
                        }
                        if reached(w, i as int, rs, j as int, id) {
                            assert(s0.dead(id));
                        }
                    }
                    assert forall|id: ID| #[trigger]
                        ids_contain(rest@, id) <==> reached(w, i as int, rs, j1, id) && !self.knows(
                            id,
                        ) by {
                        lemma_reached_step(w, i as int, rs, j as int, id);
                        s0.lemma_knows(id);
                        assert(s0.knows(id) == self.knows(id)) by {
                            assert(s0.knows(id) == old(self).knows(id));
                        }
                        assert(ids_contain(rest0, id) <==> reached(w, i as int, rs, j as int, id)
                            && !s0.knows(id));
                    }
                }
                j = j + 1;
            }
            proof {
                let i1 = i + 1;
                assert(rs.subrange(0, j as int) =~= rs);
                assert forall|c: ClientID| #[trigger]
                    self.items_of(c) == (if has_key(w, c) && index_of(w, c) < i1 {
                        erased_by(old(self).items_of(c), w, c)
                    } else {
                        old(self).items_of(c)
                    }) by {
                    if c == client {
                        assert(ranges_of(w, c) == rs);
                        assert(st == old(self).state(client));
                    } else {
                        assert(self.items_of(c) == s_in.items_of(c));
                        if has_key(w, c) {
                            assert(index_of(w, c) != i);
                        }
                    }
                }
                assert forall|id: ID| #[trigger]
                    ids_contain(w.subrange(0, i1), id) <==> reached(w, i as int, rs, j as int, id) by {
                    lemma_reached_all(w, i as int, id);
                }
            }
            i = i + 1;
        }
        let ghost s1 = *self;
        self.pending_ds = rest;
        proof {
            assert(w.subrange(0, i as int) =~= w);
            assert forall|c: ClientID| #[trigger]
                self.items_of(c) == erased_by(old(self).items_of(c), w, c) by {
                assert(self.items_of(c) == s1.items_of(c));
            }
            assert forall|id: ID| old(self).knows(id) implies #[trigger] self.seq_of(id) == old(
                self,
            ).seq_of(id) by {
                assert(self.seq_of(id) == s1.seq_of(id));
            }
            assert forall|c: ClientID| #[trigger] self.state(c) == old(self).state(c) by {
                assert(s1.state(c) == old(self).state(c));
            }
            assert forall|id: ID| old(self).dead(id) implies #[trigger] self.dead(id) by {
                assert(s1.dead(id));
            }
            assert forall|id: ID| #[trigger] self.knows(id) == old(self).knows(id) by {
                assert(s1.knows(id) == old(self).knows(id));
            }
            assert forall|id: ID| ids_contain(w, id) && old(self).knows(id) implies #[trigger] self.dead(
                id,
            ) by {
                assert(s1.knows(id));
                assert(s1.dead(id));
            }
            assert forall|id: ID| #[trigger]
                ids_contain(self.pending_ds@, id) <==> ids_contain(w, id) && !old(self).knows(id) by {
                assert(s1.knows(id) == old(self).knows(id));
                assert(ids_contain(rest@, id) <==> ids_contain(w, id) && !s1.knows(id));
            }
            if calm {
                assert forall|c: ClientID| #[trigger] self.items_of(c) == old(self).items_of(c) by {
                    assert(s1.items_of(c) == old(self).items_of(c));
                }
            }
        }
    }

    /// Whether the store is at rest: it can take none of the blocks in
    /// that wait, it lacks each of them as a whole, none of them waits
    /// twice, and it has none of the positions whose deletion waits.
    pub open spec fn tidy(&self) -> bool {
        &&& still(*self, items_view(self.pending@))
        &&& distinct(items_view(self.pending@))
        &&& forall|id: ID| ids_contain(self.pending_ds@, id) ==> !self.knows(id)
    }

    /// Whether the store has all of an update already, or has it waiting:
    /// every block of the update is in the store or waits, cut down to what
    /// the store lacks, and every position that the update deletes is a
    /// tombstone or waits to become one.
    pub open spec fn absorbs(&self, u: UpdateView) -> bool {
        &&& forall|i: int, j: int|
            0 <= i < u.blocks.len() && 0 <= j < u.blocks[i].items.len() ==> (
            #[trigger] u.blocks[i].items[j]).end() <= self.state(u.blocks[i].items[j].id.client)
                || items_view(self.pending@).contains(self.cut(u.blocks[i].items[j]))
        &&& forall|id: ID|
            ids_contain(u.delete_set, id) ==> self.dead(id) || ids_contain(self.pending_ds@, id)
    }

    /// Whether two stores hold the same blocks in the same containers and
    /// have the same blocks and the same deletions waiting.
    pub open spec fn same_as(&self, other: Store) -> bool {
        &&& forall|c: ClientID| #[trigger] self.items_of(c) == other.items_of(c)
        &&& forall|id: ID| self.knows(id) ==> #[trigger] self.seq_of(id) == other.seq_of(id)
        &&& self.types == other.types
        &&& items_view(self.pending@) == items_view(other.pending@)
        &&& self.pending_ds@ == other.pending_ds@
    }

    /// Applies an update. Its blocks join the blocks that wait; of all of
    /// them those that the store has already are dropped, those that are
    /// next for their client and have what they depend on are taken in,
    /// again and again until none can be, and the others wait on. Its
    /// deletions join the deletions that wait; tombstones are put over the
    /// positions that the store has, and the other deletions wait on.
    pub fn apply_update(&mut self, update: &Update)
        requires
            old(self).wf(),
            update.wf(),
        ensures
            applied(*old(self), update@, *final(self)),
    {
        let mut work: Vec<Item> = Vec::new();
        let ghost base = items_view(self.pending@);
        work.append(&mut self.pending);
        assert(items_view(work@) =~= base);
        let ghost u = update@;
        let ghost calm = old(self).tidy() && old(self).absorbs(u);
        let mut i: usize = 0;
        while i < update.blocks.len()
            invariant
                i <= update.blocks.len(),
                u == update@,
                u.wf(),
                forall|k: int| 0 <= k < work.len() ==> (#[trigger] work[k]).wf(),
                self.pending.len() == 0,
                self.clients == old(self).clients,
                self.types == old(self).types,
                self.pending_ds == old(self).pending_ds,
                base == items_view(old(self).pending@),
                base.len() <= work.len(),
                items_view(work@).subrange(0, base.len() as int) == base,
                forall|a: int, b: int|
                    0 <= a < i && 0 <= b < u.blocks[a].items.len() ==> holds(
                        work@,
                        #[trigger] u.blocks[a].items[b],
                    ),
                forall|k: int|
                    base.len() <= k < work.len() ==> in_update(u, #[trigger] items_view(work@)[k]),
                items_view(work@) == base + flatten(u.blocks.subrange(0, i as int)),
            decreases update.blocks.len() - i,
        {
            let section = &update.blocks[i];
            let ghost sv = section@;
            assert(u.blocks[i as int] == sv);
            assert(sv.wf());
            let ghost done = items_view(work@);
            assert(done =~= done + sv.items.subrange(0, 0));
            let mut j: usize = 0;
            while j < section.items.len()
                invariant
                    items_view(work@) == done + sv.items.subrange(0, j as int),
                    i < update.blocks.len(),
                    j <= section.items.len(),
                    u == update@,
                    sv == section@,
                    sv.wf(),
                    sv == u.blocks[i as int],
                    forall|k: int| 0 <= k < work.len() ==> (#[trigger] work[k]).wf(),
                    base.len() <= work.len(),
                    items_view(work@).subrange(0, base.len() as int) == base,
                    forall|a: int, b: int|
                        0 <= a < i && 0 <= b < u.blocks[a].items.len() ==> holds(
                            work@,
                            #[trigger] u.blocks[a].items[b],
                        ),
                    forall|b: int| 0 <= b < j ==> holds(work@, #[trigger] sv.items[b]),
                    forall|k: int|
                        base.len() <= k < work.len() ==> in_update(
                            u,
                            #[trigger] items_view(work@)[k],
                        ),
                decreases section.items.len() - j,
            {
                proof {
                    lemma_chain_at(sv.items, sv.client, sv.clock as int, j as int);
                    assert(sv.items[j as int] == section.items[j as int]@);
                }
                let ghost before = work@;
                let ghost bv = items_view(work@);
                let copy = section.items[j].duplicate();
                let ghost cv = copy@;
                work.push(copy);
                proof {
                    let n = before.len() as int;
                    let wv = items_view(work@);
                    assert(wv =~= bv.push(cv));
                    assert(wv =~= done + sv.items.subrange(0, j + 1));
                    assert(wv.subrange(0, base.len() as int) =~= bv.subrange(0, base.len() as int));
                    assert(work@[n]@ == sv.items[j as int]);
                    assert forall|a: int, b: int|
                        0 <= a < i && 0 <= b < u.blocks[a].items.len() implies holds(
                        work@,
                        #[trigger] u.blocks[a].items[b],
                    ) by {
                        let k = choose|k: int|
                            0 <= k < before.len() && (#[trigger] before[k])@ == u.blocks[a].items[b];
                        assert(work@[k]@ == u.blocks[a].items[b]);
                    }
                    assert forall|b: int| 0 <= b < j + 1 implies holds(
                        work@,
                        #[trigger] sv.items[b],
                    ) by {
                        if b < j {
                            let k = choose|k: int|
                                0 <= k < before.len() && (#[trigger] before[k])@ == sv.items[b];
                            assert(work@[k]@ == sv.items[b]);
                        }
                    }
                    assert forall|k: int| base.len() <= k < work.len() implies in_update(
                        u,
                        #[trigger] wv[k],
                    ) by {
                        if k < n {
                            assert(wv[k] == bv[k]);
                        } else {
                            assert(0 <= i < u.blocks.len());
                            assert(wv[k] == u.blocks[i as int].items[j as int]);
                        }
                    }
                }
                j = j + 1;
            }
            proof {
                let next = u.blocks.subrange(0, i + 1);
                assert(next.drop_last() =~= u.blocks.subrange(0, i as int));
                assert(next.last() == sv);
                assert(sv.items.subrange(0, j as int) =~= sv.items);
                assert(items_view(work@) =~= base + flatten(next));
            }
            i = i + 1;
        }
        assert(u.blocks.subrange(0, i as int) =~= u.blocks);
        assert(self.wf());
        let ghost s0 = *self;
        let ghost work0 = work@;
        let ghost wv0 = items_view(work@);
        proof {
            if calm {
                lemma_calm(*old(self), s0, u, wv0, base);
            }
        }
        self.settle_all(work, Ghost(base));
        proof {
            lemma_ids_ranges_ok(update.delete_set@);
        }
        let ghost s1 = *self;
        self.pending_ds.merge(&update.delete_set);
        assert(self.wf());
        let ghost s2 = *self;
        self.resolve_deletes();
        proof {
            let b = choose|b: Store| #[trigger]
                settled(s0, wv0, b, items_view(s1.pending@)) && s1.clients == b.clients && s1.types
                    == b.types;
            let m = s2.pending_ds@;
            assert(came(*old(self), u, s0, b, m, *self)) by {
                reveal(came);
                assert(s2.clients == b.clients);
                assert forall|c: ClientID| #[trigger]
                    self.items_of(c) == erased_by(b.items_of(c), m, c) by {
                    assert(s2.items_of(c) == b.items_of(c));
                }
                assert forall|id: ID| b.knows(id) implies #[trigger] self.seq_of(id) == b.seq_of(
                    id,
                ) by {
                    assert(s2.knows(id));
                    assert(s2.seq_of(id) == b.seq_of(id));
                }
                assert forall|id: ID| #[trigger]
                    ids_contain(self.pending_ds@, id) <==> ids_contain(m, id) && !b.knows(id) by {
                    assert(s2.knows(id) == b.knows(id));
                }
                assert forall|id: ID| #[trigger] self.knows(id) == b.knows(id) by {
                    assert(self.knows(id) == s2.knows(id));
                    assert(s2.knows(id) == b.knows(id));
                }
            }
            assert(grown(old(self).types@, self.types@));
            assert forall|c: ClientID| #[trigger] self.state(c) >= old(self).state(c) by {
                assert(s0.state(c) == old(self).state(c));
                assert(s1.state(c) >= s0.state(c));
                assert(s2.state(c) == s1.state(c));
                assert(self.state(c) == s2.state(c));
            }
            assert forall|c: ClientID| #[trigger] self.state(c) == s1.state(c) by {
                assert(s2.state(c) == s1.state(c));
                assert(self.state(c) == s2.state(c));
            }
            assert forall|id: ID| #[trigger] self.knows(id) == s1.knows(id) by {
                assert(s2.knows(id) == s1.knows(id));
                assert(self.knows(id) == s2.knows(id));
            }
            assert forall|id: ID| old(self).dead(id) implies #[trigger] self.dead(id) by {
                assert(s0.dead(id));
                assert(s1.dead(id));
                assert(s2.dead(id));
            }
            let pv = items_view(self.pending@);
            assert(pv == items_view(s1.pending@));
            assert forall|a: int, b: int|
                0 <= a < u.blocks.len() && 0 <= b < u.blocks[a].items.len() implies self.kept(
                pv,
                #[trigger] u.blocks[a].items[b],
            ) by {
                let v = u.blocks[a].items[b];
                let k = choose|k: int| 0 <= k < work0.len() && (#[trigger] work0[k])@ == v;
                assert(s1.kept(pv, work0[k]@));
                if s1.state(v.id.client) < v.end() {
                    let w = choose|w: int| 0 <= w < pv.len() && heir(s1, #[trigger] pv[w], v);
                    assert(heir(*self, pv[w], v));
                }
            }
            assert forall|id: ID| ids_contain(u.delete_set, id) implies #[trigger] self.dead(id)
                || ids_contain(self.pending_ds@, id) by {
                assert(ids_contain(s2.pending_ds@, id));
            }
            assert(still(*self, pv)) by {
                assert forall|k: int| 0 <= k < pv.len() implies !self.takes(#[trigger] pv[k])
                    && pv[k].id.clock >= self.state(pv[k].id.client) by {
                    assert(!s1.takes(pv[k]));
                    lemma_takes_same(s1, *self, pv[k]);
                }
            }
            assert forall|id: ID| ids_contain(self.pending_ds@, id) implies !self.knows(id) by {
                assert(!s2.knows(id));
            }
            if calm {
                assert(s1.clients == s0.clients && s1.types == s0.types && pv == base);
                assert forall|id: ID|
                    ids_contain(s2.pending_ds@, id) && s2.knows(id) implies s2.dead(id) by {
                    assert(s2.knows(id) == old(self).knows(id));
                    assert(ids_contain(s1.pending_ds@, id) || ids_contain(u.delete_set, id));
                    assert(s1.pending_ds == old(self).pending_ds);
                    assert(old(self).dead(id));
                }
                assert forall|c: ClientID| #[trigger] self.items_of(c) == old(self).items_of(c) by {
                    assert(self.items_of(c) == s2.items_of(c));
                }
                assert(s2.clients == old(self).clients);
                assert forall|id: ID| self.knows(id) implies #[trigger] self.seq_of(id) == old(
                    self,
                ).seq_of(id) by {
                    assert(self.knows(id) == s2.knows(id));
                    assert(s2.seq_of(id) == old(self).seq_of(id));
                }
                assert forall|id: ID| #[trigger]
                    ids_contain(self.pending_ds@, id) <==> ids_contain(old(self).pending_ds@, id) by {
                    assert(s2.knows(id) == old(self).knows(id));
                    assert(ids_contain(s2.pending_ds@, id) <==> ids_contain(s1.pending_ds@, id)
                        || ids_contain(u.delete_set, id));
                    assert(s1.pending_ds == old(self).pending_ds);
                    assert(ids_contain(self.pending_ds@, id) <==> ids_contain(s2.pending_ds@, id)
                        && !s2.knows(id));
                    if ids_contain(old(self).pending_ds@, id) {
                        assert(!old(self).knows(id));
                    }
                    if ids_contain(u.delete_set, id) {
                        assert(old(self).dead(id) || ids_contain(old(self).pending_ds@, id));
                    }
                }
                crate::id_set::lemma_ids_unique(self.pending_ds@, old(self).pending_ds@);
            }
        }
    }

    /// What the store has of every client, as the entries of a state
    /// vector.
    pub open spec fn sv(&self) -> StateView {
        Seq::new(
            self.clients.len() as nat,
            |i: int| (self.clients[i].0, chain_end(list_items(self.clients[i].1), 0) as u32),
        )
    }

    /// What the store has of every client.
    pub fn state_vector(&self) -> (r: StateVector)
        requires
            self.wf(),
        ensures
            r.wf(),
            r@ == self.sv(),
            forall|c: ClientID| #[trigger] sv_get(r@, c) == self.state(c),
    {
        let mut entries: Vec<(ClientID, u32)> = Vec::new();
        let ghost v = self.clients@;
        let mut i: usize = 0;
        while i < self.clients.len()
            invariant
                i <= self.clients.len(),
                v == self.clients@,
                self.wf(),
                entries.len() == i,
                forall|k: int|
                    0 <= k < i ==> (#[trigger] entries[k]).0 == v[k].0 && entries[k].1
                        == chain_end(list_items(v[k].1), 0) && entries[k].1 >= 1,
            decreases self.clients.len() - i,
        {
            let client: ClientID = self.clients[i].0;
            proof {
                lemma_index_of(v, i as int);
            }
            let st: u32 = self.get_state(client);
            proof {
                let l = v[i as int].1;
                assert(l.wf(client, self.types.len() as int));
                lemma_chain_at(list_items(l), client, 0, l.items.len() - 1);
            }
            entries.push((client, st));
            i = i + 1;
        }
        let r = StateVector { entries };
        proof {
            let e = r@;
            assert(e =~= self.sv());
            assert forall|a: int, b: int| 0 <= a < b < e.len() implies (#[trigger] e[a]).0 > (
            #[trigger] e[b]).0 by {
                assert(v[a].0 > v[b].0);
            }
            assert forall|c: ClientID| #[trigger] sv_get(e, c) == self.state(c) by {
                if has_key(e, c) {
                    let k = index_of(e, c);
                    assert(v[k].0 == c);
                    lemma_index_of(v, k);
                }
                if has_key(v, c) {
                    let k = index_of(v, c);
                    assert(e[k].0 == c);
                    lemma_index_of(e, k);
                }
            }
        }
        r
    }

    /// The positions of the store that are tombstones.
    pub fn delete_set(&self) -> (r: IdSet)
        requires
            self.wf(),
        ensures
            r.wf(),
            forall|id: ID| #[trigger] ids_contain(r@, id) <==> self.dead(id),
    {
        let mut out: IdSet = IdSet::new();
        let ghost v = self.clients@;
        let mut i: usize = 0;
        proof {
            assert forall|id: ID| !ids_contain(out@, id) by {}
        }
        while i < self.clients.len()
            invariant
                i <= self.clients.len(),
                v == self.clients@,
                self.wf(),
                out.wf(),
                forall|id: ID| #[trigger] ids_contain(out@, id) <==> marked(v, i as int, 0, id),
            decreases self.clients.len() - i,
        {
            let client: ClientID = self.clients[i].0;
            let list = &self.clients[i].1;
            let ghost items = list_items(*list);
            assert(self.clients[i as int].1.wf(client, self.types.len() as int));
            let mut j: usize = 0;
            while j < list.items.len()
                invariant
                    i < self.clients.len(),
                    j <= list.items.len(),
                    v == self.clients@,
                    list == &self.clients[i as int].1,
                    client == v[i as int].0,
                    items == list_items(*list),
                    chain(items, client, 0),
                    out.wf(),
                    forall|id: ID| #[trigger]
                        ids_contain(out@, id) <==> marked(v, i as int, j as int, id),
                decreases list.items.len() - j,
            {
                let it = &list.items[j];
                proof {
                    lemma_chain_at(items, client, 0, j as int);
                    assert(items[j as int] == it@);
                }
                let ghost before = out@;
                let ghost deleted = it@.content is Deleted;
                if it.is_deleted() {
                    out.insert(it.id, it.len() as u32);
                }
                proof {
                    let j1 = j + 1;
                    assert forall|id: ID| #[trigger]
                        ids_contain(out@, id) <==> marked(v, i as int, j1, id) by {
                        let here = deleted && id.within(it@.id, it@.len());
                        assert(ids_contain(out@, id) == (ids_contain(before, id) || here));
                        assert(ids_contain(before, id) == marked(v, i as int, j as int, id));
                        if marked(v, i as int, j as int, id) {
                            let (p, q) = choose|p: int, q: int| #[trigger] mark(v, i as int, j as int, id, p, q);
                            assert(mark(v, i as int, j1, id, p, q));
                        }
                        if here {
                            assert(mark(v, i as int, j1, id, i as int, j as int));
                        }
                        if marked(v, i as int, j1, id) {
                            let (p, q) = choose|p: int, q: int| #[trigger] mark(v, i as int, j1, id, p, q);
                            if p == i && q == j {
                                assert(here);
                            } else {
                                assert(mark(v, i as int, j as int, id, p, q));
                            }
                        }
                    }
                }
                j = j + 1;
            }
            proof {
                let i1 = i + 1;
                assert forall|id: ID| #[trigger] ids_contain(out@, id) <==> marked(v, i1, 0, id) by {
                    if marked(v, i as int, j as int, id) {
                        let (p, q) = choose|p: int, q: int| #[trigger]
                            mark(v, i as int, j as int, id, p, q);
                        assert(mark(v, i1, 0, id, p, q));
                    }
                    if marked(v, i1, 0, id) {
                        let (p, q) = choose|p: int, q: int| #[trigger] mark(v, i1, 0, id, p, q);
                        assert(mark(v, i as int, j as int, id, p, q));
                    }
                }
            }
            i = i + 1;
        }
        proof {
            assert forall|id: ID| #[trigger] ids_contain(out@, id) <==> self.dead(id) by {
                let n = v.len() as int;
                if marked(v, n, 0, id) {
                    let (p, q) = choose|p: int, q: int| #[trigger] mark(v, n, 0, id, p, q);
                    lemma_index_of(v, p);
                    assert(v[p].1.wf(v[p].0, self.types.len() as int));
                    lemma_chain_span(list_items(v[p].1), id.client, 0, q, id.clock as int);
                }
                if self.dead(id) {
                    let p = index_of(v, id.client);
                    let q = span_index(self.items_of(id.client), id.clock as int);
                    assert(has_key(v, id.client));
                    assert(v[p].1.wf(v[p].0, self.types.len() as int));
                    lemma_chain_at(list_items(v[p].1), id.client, 0, q);
                    assert(mark(v, n, 0, id, p, q));
                }
            }
        }
        out
    }

    /// The whole store as an update: for each client, in falling order,
    /// its blocks from the clock zero on, and the tombstones as the delete
    /// set.
    pub fn to_update(&self) -> (r: Update)
        requires
            self.wf(),
        ensures
            r.wf(),
            r@.blocks == whole_blocks(self.clients@),
            forall|id: ID| #[trigger] ids_contain(r@.delete_set, id) <==> self.dead(id),
    {
        let mut blocks: Vec<ClientBlocks> = Vec::new();
        let ghost v = self.clients@;
        let mut i: usize = 0;
        while i < self.clients.len()
            invariant
                i <= self.clients.len(),
                v == self.clients@,
                self.wf(),
                blocks.len() == i,
                forall|k: int|
                    0 <= k < i ==> (#[trigger] blocks[k])@ == (ClientBlocksView {
                        client: v[k].0,
                        clock: 0,
                        items: list_items(v[k].1),
                    }),
            decreases self.clients.len() - i,
        {
            let client: ClientID = self.clients[i].0;
            let list = &self.clients[i].1;
            let mut items: Vec<Item> = Vec::new();
            let mut j: usize = 0;
            while j < list.items.len()
                invariant
                    j <= list.items.len(),
                    items.len() == j,
                    forall|k: int| 0 <= k < j ==> (#[trigger] items[k])@ == list.items[k]@,
                decreases list.items.len() - j,
            {
                items.push(list.items[j].duplicate());
                j = j + 1;
            }
            assert(items_view(items@) =~= list_items(*list));
            blocks.push(ClientBlocks { client, clock: 0, items });
            i = i + 1;
        }
        let delete_set = self.delete_set();
        let r = Update { blocks, delete_set };
        proof {
            let b = r@.blocks;
            assert(b =~= whole_blocks(v));
            assert forall|k: int| 0 <= k < b.len() implies (#[trigger] b[k]).wf() by {
                assert(v[k].1.wf(v[k].0, self.types.len() as int));
                assert(v[k].1.items.len() == v[k].1.items@.len());
            }
            assert(r.blocks.len() == r.blocks@.len());
            crate::update_v1::lemma_sized(&r.delete_set);
        }
        r
    }
}

/// Tombstones over no clocks, or over blocks that are not there, change
/// nothing.
pub proof fn lemma_erase_nothing(items: Seq<ItemView>, start: int)
    ensures
        erased_blocks(items, start, start) == items,
        erased_blocks(Seq::<ItemView>::empty(), start, start + 1) == Seq::<ItemView>::empty(),
    decreases items.len(),
{
    if items.len() > 0 {
        lemma_erase_nothing(items.drop_last(), start);
        assert(items.drop_last() + seq![items.last()] =~= items);
    }
}

/// Two chains in a row are one chain, and only then.
pub proof fn lemma_chain_concat(a: Seq<ItemView>, b: Seq<ItemView>, client: ClientID, k: int)
    ensures
        chain(a + b, client, k) == (chain(a, client, k) && chain(b, client, chain_end(a, k))),
        chain_end(a + b, k) == chain_end(b, chain_end(a, k)),
    decreases a.len(),
{
    if a.len() == 0 {
        assert(a + b =~= b);
    } else {
        let w = a.drop_first();
        assert((a + b).drop_first() =~= w + b);
        assert((a + b)[0] == a[0]);
        lemma_chain_concat(w, b, client, a[0].end());
        if w.len() > 0 {
            assert(w.last() == a.last());
        }
        if b.len() > 0 {
            assert((a + b).last() == b.last());
        } else {
            assert(a + b =~= a);
        }
    }
}

/// In a chain from the clock zero the clocks spanned are those before
/// the end of the chain.
pub proof fn lemma_chain_covers(items: Seq<ItemView>, client: ClientID, c: int)
    requires
        chain(items, client, 0),
    ensures
        spanned(items, c) <==> 0 <= c < chain_end(items, 0),
    decreases items.len(),
{
    if items.len() == 0 {
    } else {
        let w = items.drop_last();
        let l = items.last();
        assert(w + seq![l] =~= items);
        lemma_chain_concat(w, seq![l], client, 0);
        lemma_chain_covers(w, client, c);
        assert(chain(seq![l], client, chain_end(w, 0)));
        assert(l.id.clock == chain_end(w, 0) && l.wf());
        if spanned(items, c) {
            let i = span_index(items, c);
            lemma_chain_span(items, client, 0, i, c);
        }
        if 0 <= c < chain_end(items, 0) {
            if c < l.id.clock {
                let i = span_index(w, c);
                assert(items[i].id.clock <= c < items[i].end());
            } else {
                assert(items[items.len() - 1].id.clock <= c < items[items.len() - 1].end());
            }
        }
    }
}

/// The pieces of a block stand one behind the other over the positions
/// of the block.
pub proof fn lemma_pieces_chain(it: ItemView, start: int, end: int)
    requires
        it.wf(),
    ensures
        chain(pieces(it, start, end), it.id.client, it.id.clock as int),
        chain_end(pieces(it, start, end), it.id.clock as int) == it.end(),
        pieces(it, start, end).len() >= 1,
{
    reveal_with_fuel(chain, 4);
    let first = it.id.clock as int;
    let last = it.end();
    let ps = pieces(it, start, end);
    if start >= end || it.content is Deleted || last <= start || first >= end {
        assert(ps.drop_first() =~= Seq::<ItemView>::empty());
    } else if first < start {
        lemma_item_split(it, start - first);
        let tail = it.tail(start - first);
        if last > end {
            lemma_item_split(tail, end - start);
            assert(ps.drop_first() =~= seq![tail.head(end - start).erased(), tail.tail(end - start)]);
            assert(ps.drop_first().drop_first() =~= seq![tail.tail(end - start)]);
            assert(ps.drop_first().drop_first().drop_first() =~= Seq::<ItemView>::empty());
        } else {
            assert(ps.drop_first() =~= seq![tail.erased()]);
            assert(ps.drop_first().drop_first() =~= Seq::<ItemView>::empty());
        }
    } else {
        if last > end {
            lemma_item_split(it, end - first);
            assert(ps.drop_first() =~= seq![it.tail(end - first)]);
            assert(ps.drop_first().drop_first() =~= Seq::<ItemView>::empty());
        } else {
            assert(ps.drop_first() =~= Seq::<ItemView>::empty());
        }
    }
}

/// Tombstones leave a chain a chain, with the same end.
pub proof fn lemma_erase_chain(items: Seq<ItemView>, client: ClientID, k: int, start: int, end: int)
    requires
        chain(items, client, k),
    ensures
        chain(erased_blocks(items, start, end), client, k),
        chain_end(erased_blocks(items, start, end), k) == chain_end(items, k),
    decreases items.len(),
{
    if items.len() > 0 {
        let w = items.drop_last();
        let l = items.last();
        assert(w + seq![l] =~= items);
        lemma_chain_concat(w, seq![l], client, k);
        lemma_erase_chain(w, client, k, start, end);
        assert(chain(seq![l], client, chain_end(w, k)));
        lemma_pieces_chain(l, start, end);
        lemma_chain_concat(erased_blocks(w, start, end), pieces(l, start, end), client, k);
    }
}

/// Where every block that the range reaches is a tombstone, tombstones
/// over the range change nothing.
pub proof fn lemma_erase_same(items: Seq<ItemView>, start: int, end: int)
    requires
        forall|i: int|
            0 <= i < items.len() ==> (#[trigger] items[i]).content is Deleted || items[i].end()
                <= start || items[i].id.clock >= end,
    ensures
        erased_blocks(items, start, end) == items,
    decreases items.len(),
{
    if items.len() > 0 {
        let w = items.drop_last();
        assert forall|i: int| 0 <= i < w.len() implies (#[trigger] w[i]).content is Deleted
            || w[i].end() <= start || w[i].id.clock >= end by {
            assert(items[i].content is Deleted || items[i].end() <= start || items[i].id.clock
                >= end);
        }
        lemma_erase_same(w, start, end);
        assert(items[items.len() - 1].content is Deleted || items[items.len() - 1].end() <= start
            || items[items.len() - 1].id.clock >= end);
        assert(w + seq![items.last()] =~= items);
    }
}

/// Whether the position with the clock `c` is a tombstone.
pub open spec fn dead_in(items: Seq<ItemView>, c: int) -> bool {
    spanned(items, c) && items[span_index(items, c)].content is Deleted
}

/// After tombstones are put over a range, the positions in the range are
/// tombstones, and so is every position that was one.
pub proof fn lemma_erase_dead(
    items: Seq<ItemView>,
    client: ClientID,
    start: int,
    end: int,
    c: int,
)
    requires
        chain(items, client, 0),
        spanned(items, c),
        start <= c < end || dead_in(items, c),
    ensures
        dead_in(erased_blocks(items, start, end), c),
    decreases items.len(),
{
    let r = erased_blocks(items, start, end);
    let i = span_index(items, c);
    lemma_chain_span(items, client, 0, i, c);
    lemma_erase_chain(items, client, 0, start, end);
    let w = items.drop_last();
    let l = items.last();
    let ew = erased_blocks(w, start, end);
    let ps = pieces(l, start, end);
    assert(w + seq![l] =~= items);
    lemma_chain_concat(w, seq![l], client, 0);
    assert(chain(seq![l], client, chain_end(w, 0)));
    if i == items.len() - 1 {
        let first = l.id.clock as int;
        let last = l.end();
        lemma_pieces_chain(l, start, end);
        let j: int = if start >= end || l.content is Deleted || last <= start || first >= end {
            0
        } else if first < start {
            1
        } else {
            0
        };
        if !(start >= end || l.content is Deleted || last <= start || first >= end) {
            if first < start {
                lemma_item_split(l, start - first);
                if last > end {
                    lemma_item_split(l.tail(start - first), end - start);
                }
            } else if last > end {
                lemma_item_split(l, end - first);
            }
        }
        assert(ps[j].id.clock <= c < ps[j].end() && ps[j].content is Deleted);
        assert(r[ew.len() + j] == ps[j]);
        lemma_chain_span(r, client, 0, ew.len() + j, c);
    } else {
        assert(w[i].id.clock <= c < w[i].end());
        lemma_chain_span(w, client, 0, i, c);
        lemma_erase_dead(w, client, start, end, c);
        let k = span_index(ew, c);
        assert(r[k] == ew[k]);
        lemma_chain_span(r, client, 0, k, c);
    }
}

/// Tombstones over no clocks change nothing.
pub proof fn lemma_erase_empty(items: Seq<ItemView>, start: int, end: int)
    requires
        start >= end,
    ensures
        erased_blocks(items, start, end) == items,
    decreases items.len(),
{
    if items.len() > 0 {
        lemma_erase_empty(items.drop_last(), start, end);
        assert(items.drop_last() + seq![items.last()] =~= items);
    }
}

/// What tombstones over a range do to the positions of a store.
pub proof fn lemma_delete_facts(s: Store, client: ClientID, start: int, end: int)
    requires
        s.wf(),
    ensures
        forall|c: int| #[trigger]
            spanned(erased_blocks(s.items_of(client), start, end), c) == spanned(
                s.items_of(client),
                c,
            ),
        forall|c: int|
            dead_in(s.items_of(client), c) ==> #[trigger] dead_in(
                erased_blocks(s.items_of(client), start, end),
                c,
            ),
        forall|c: int|
            start <= c < end && spanned(s.items_of(client), c) ==> #[trigger] dead_in(
                erased_blocks(s.items_of(client), start, end),
                c,
            ),
        (forall|c: int|
            start <= c < end && spanned(s.items_of(client), c) ==> dead_in(s.items_of(client), c))
            ==> erased_blocks(s.items_of(client), start, end) == s.items_of(client),
{
    let items = s.items_of(client);
    let r = erased_blocks(items, start, end);
    s.lemma_items_chain(client);
    lemma_erase_chain(items, client, 0, start, end);
    assert forall|c: int| #[trigger] spanned(r, c) == spanned(items, c) by {
        lemma_chain_covers(items, client, c);
        lemma_chain_covers(r, client, c);
    }
    assert forall|c: int| dead_in(items, c) implies #[trigger] dead_in(r, c) by {
        lemma_erase_dead(items, client, start, end, c);
    }
    assert forall|c: int| start <= c < end && spanned(items, c) implies #[trigger] dead_in(
        r,
        c,
    ) by {
        lemma_erase_dead(items, client, start, end, c);
    }
    if start >= end {
        lemma_erase_empty(items, start, end);
    } else if forall|c: int| start <= c < end && spanned(items, c) ==> dead_in(items, c) {
        assert forall|i: int| 0 <= i < items.len() implies (#[trigger] items[i]).content is Deleted
            || items[i].end() <= start || items[i].id.clock >= end by {
            lemma_chain_at(items, client, 0, i);
            if !(items[i].end() <= start || items[i].id.clock >= end) {
                let c = if items[i].id.clock >= start {
                    items[i].id.clock as int
                } else {
                    start
                };
                lemma_chain_span(items, client, 0, i, c);
                assert(start <= c < end && spanned(items, c));
                assert(dead_in(items, c));
            }
        }
        lemma_erase_same(items, start, end);
    }
}

/// A block more at the end of a chain leaves the positions before it as
/// they are.
pub proof fn lemma_push_keeps(items: Seq<ItemView>, client: ClientID, it: ItemView, c: int)
    requires
        chain(items.push(it), client, 0),
        spanned(items, c),
    ensures
        spanned(items.push(it), c),
        span_index(items.push(it), c) == span_index(items, c),
        items.push(it)[span_index(items, c)] == items[span_index(items, c)],
{
    let i = span_index(items, c);
    let w = items.push(it);
    assert(w[i] == items[i]);
    lemma_chain_span(w, client, 0, i, c);
}

impl Store {
    /// The blocks of a client in a store stand one behind the other from
    /// the clock zero on.
    pub proof fn lemma_items_chain(&self, client: ClientID)
        requires
            self.wf(),
        ensures
            chain(self.items_of(client), client, 0),
    {
        if has_key(self.clients@, client) {
            let i = index_of(self.clients@, client);
            assert(self.clients[i].1.wf(self.clients[i].0, self.types.len() as int));
        }
    }

    /// What a store has is what lies before the next clock expected.
    pub proof fn lemma_knows(&self, id: ID)
        requires
            self.wf(),
        ensures
            self.knows(id) <==> id.clock < self.state(id.client),
    {
        self.lemma_items_chain(id.client);
        lemma_chain_covers(self.items_of(id.client), id.client, id.clock as int);
    }
}

/// Whether a block of `rest` belongs to `client` and ends at `end`.
pub open spec fn waits(rest: Seq<Item>, client: ClientID, end: int) -> bool {
    exists|k: int|
        0 <= k < rest.len() && (#[trigger] rest[k])@.id.client == client && rest[k]@.end() == end
}

/// Whether the store has every one of the blocks already.
pub open spec fn all_known(s: Store, work: Seq<Item>) -> bool {
    forall|k: int| 0 <= k < work.len() ==> (#[trigger] work[k])@.end() <= s.state(work[k].id.client)
}

/// Whether one of the blocks is the block `v`.
pub open spec fn holds(work: Seq<Item>, v: ItemView) -> bool {
    exists|k: int| 0 <= k < work.len() && (#[trigger] work[k])@ == v
}

/// What applying the update `u` to the store `s0` makes of it.
///
/// The store stays well formed, loses nothing that it has, and is at
/// rest. Every block of the update is in the store, or what the store
/// lacks of it waits. Every position that the update deletes is a
/// tombstone, or waits to become one. Tombstones stay tombstones. A store
/// at rest that has all of the update already, or has it waiting, stays
/// as it is. The containers that the store has stay in their places. And
/// the blocks, the containers and what waits afterwards are those that
/// passing through the blocks and putting the tombstones gives.
pub open spec fn applied(s0: Store, u: UpdateView, s1: Store) -> bool {
    &&& s1.wf()
    &&& s1.tidy()
    &&& forall|c: ClientID| #[trigger] s1.state(c) >= s0.state(c)
    &&& forall|a: int, b: int|
        0 <= a < u.blocks.len() && 0 <= b < u.blocks[a].items.len() ==> s1.kept(
            items_view(s1.pending@),
            #[trigger] u.blocks[a].items[b],
        )
    &&& forall|id: ID|
        ids_contain(u.delete_set, id) ==> #[trigger] s1.dead(id) || ids_contain(s1.pending_ds@, id)
    &&& forall|id: ID| s0.dead(id) ==> #[trigger] s1.dead(id)
    &&& s0.tidy() && s0.absorbs(u) ==> s1.same_as(s0)
    &&& grown(s0.types@, s1.types@)
    &&& exists|a: Store, b: Store, m: crate::id_set::IdSetView| #[trigger] came(s0, u, a, b, m, s1)
}

/// How applying the update `u` brings the store `s0` to the store `s1`.
///
/// The blocks that wait in `s0` and behind them the blocks of the update,
/// run by run, are passed through again and again, from the store `a`,
/// which is `s0` with no block waiting, until a pass leaves as many
/// waiting as it found: that gives the store `b` and the blocks that wait
/// in `s1`. The deletions that wait in `s0` and those of the update make
/// the set `m`. The blocks of `s1` are those of `b` with tombstones over
/// what `m` holds of each client, as far as `b` has it, each piece in the
/// container of its block; the containers of `s1` are those of `b`; and
/// what `m` holds and `b` lacks waits in `s1`.
#[verifier::opaque]
pub open spec fn came(
    s0: Store,
    u: UpdateView,
    a: Store,
    b: Store,
    m: crate::id_set::IdSetView,
    s1: Store,
) -> bool {
    &&& a.clients == s0.clients
    &&& a.types == s0.types
    &&& a.pending_ds == s0.pending_ds
    &&& a.pending.len() == 0
    &&& settled(a, items_view(s0.pending@) + flatten(u.blocks), b, items_view(s1.pending@))
    &&& s1.types == b.types
    &&& crate::id_set::ids_wf(m)
    &&& forall|id: ID| #[trigger]
        ids_contain(m, id) <==> ids_contain(s0.pending_ds@, id) || ids_contain(u.delete_set, id)
    &&& forall|c: ClientID| #[trigger] s1.items_of(c) == erased_by(b.items_of(c), m, c)
    &&& forall|id: ID| #[trigger] s1.knows(id) == b.knows(id)
    &&& forall|id: ID| b.knows(id) ==> #[trigger] s1.seq_of(id) == b.seq_of(id)
    &&& forall|id: ID| #[trigger]
        ids_contain(s1.pending_ds@, id) <==> ids_contain(m, id) && !b.knows(id)
}

/// Whether the block is one of the blocks of the update.
pub open spec fn in_update(u: UpdateView, v: ItemView) -> bool {
    exists|a: int, b: int|
        0 <= a < u.blocks.len() && 0 <= b < u.blocks[a].items.len() && #[trigger] u.blocks[a].items[b]
            == v
}

/// A store at rest can take none of the blocks in that it has waiting,
/// and they are what is played again.
pub proof fn lemma_calm(s: Store, s0: Store, u: UpdateView, work: Seq<ItemView>, base: Seq<ItemView>)
    requires
        s.tidy(),
        s.absorbs(u),
        u.wf(),
        s0.clients == s.clients,
        s0.types == s.types,
        base == items_view(s.pending@),
        base.len() <= work.len(),
        work.subrange(0, base.len() as int) == base,
        forall|k: int| base.len() <= k < work.len() ==> in_update(u, #[trigger] work[k]),
    ensures
        quiet(s0, work),
        replay(s0, work, base),
{
    assert forall|k: int| 0 <= k < base.len() implies #[trigger] work[k] == base[k]
        && base[k].id.clock >= s0.state(base[k].id.client) by {
        assert(work.subrange(0, base.len() as int)[k] == work[k]);
        lemma_takes_clients(s, s0, base[k]);
    }
    assert forall|k: int| base.len() <= k < work.len() implies (#[trigger] work[k]).end()
        <= s0.state(work[k].id.client) || base.contains(s0.cut(work[k])) by {
        let (a, b) = choose|a: int, b: int|
            0 <= a < u.blocks.len() && 0 <= b < u.blocks[a].items.len()
                && #[trigger] u.blocks[a].items[b] == work[k];
        assert(u.blocks[a].items[b].end() <= s.state(u.blocks[a].items[b].id.client)
            || base.contains(s.cut(u.blocks[a].items[b])));
    }
    assert forall|k: int| 0 <= k < work.len() implies (#[trigger] work[k]).end() <= s0.state(
        work[k].id.client,
    ) || !s0.takes(work[k]) by {
        let o = work[k];
        let st = s0.state(o.id.client);
        lemma_takes_clients(s, s0, o);
        if k < base.len() {
            assert(work[k] == base[k]);
            assert(!s.takes(base[k]));
        } else if o.end() > st {
            let v = s0.cut(o);
            assert(base.contains(v));
            let w = choose|w: int| 0 <= w < base.len() && base[w] == v;
            assert(!s.takes(base[w]) && base[w].id.clock >= s.state(base[w].id.client));
            lemma_takes_clients(s, s0, v);
            let (a, b) = choose|a: int, b: int|
                0 <= a < u.blocks.len() && 0 <= b < u.blocks[a].items.len()
                    && #[trigger] u.blocks[a].items[b] == o;
            assert(u.blocks[a].wf());
            lemma_chain_at(u.blocks[a].items, u.blocks[a].client, u.blocks[a].clock as int, b);
            if o.id.clock < st {
                lemma_item_split(o, st - o.id.clock);
            }
            assert(s0.cut(v) == v);
        }
    }
}

/// Applying an update a second time changes nothing: the store that has
/// applied an update, and applies it once more, holds the same blocks in
/// the same containers as before, and the same blocks and deletions wait
/// in it.
pub proof fn law_apply_twice(s0: Store, u: UpdateView, s1: Store, s2: Store)
    requires
        u.wf(),
        applied(s0, u, s1),
        applied(s1, u, s2),
    ensures
        s2.same_as(s1),
{
    let pv = items_view(s1.pending@);
    assert forall|i: int, j: int|
        0 <= i < u.blocks.len() && 0 <= j < u.blocks[i].items.len() implies (
    #[trigger] u.blocks[i].items[j]).end() <= s1.state(u.blocks[i].items[j].id.client)
        || pv.contains(s1.cut(u.blocks[i].items[j])) by {
        let o = u.blocks[i].items[j];
        let st = s1.state(o.id.client);
        assert(s1.kept(pv, o));
        if o.end() > st {
            let w = choose|w: int| 0 <= w < pv.len() && heir(s1, #[trigger] pv[w], o);
            let v = pv[w];
            assert(!s1.takes(v) && v.id.clock >= st);
            assert(v == s1.cut(o));
        }
    }
}

/// Whether the block at the place `q` of the client at the place `p`
/// is a tombstone over the position `id` and stands before the place `j`
/// of the client at the place `i`.
pub open spec fn mark(
    v: Seq<(ClientID, ClientList)>,
    i: int,
    j: int,
    id: ID,
    p: int,
    q: int,
) -> bool {
    &&& 0 <= p < v.len()
    &&& p < i || (p == i && q < j)
    &&& v[p].0 == id.client
    &&& 0 <= q < list_items(v[p].1).len()
    &&& list_items(v[p].1)[q].spans(id)
    &&& list_items(v[p].1)[q].content is Deleted
}

/// Whether a tombstone before the place `j` of the client at the place
/// `i` spans the position `id`.
pub open spec fn marked(v: Seq<(ClientID, ClientList)>, i: int, j: int, id: ID) -> bool {
    exists|p: int, q: int| #[trigger] mark(v, i, j, id, p, q)
}

/// Whether the container is the one that `parent` names under `key`.
pub open spec fn is_type(t: Sequence, parent: TypePtrView, key: Option<Seq<char>>) -> bool {
    t.parent@ == parent && opt_text(t.key) == key
}

/// The place of the first container that `parent` names under `key`, or
/// the place behind all containers where there is none.
pub open spec fn type_place(types: Seq<Sequence>, parent: TypePtrView, key: Option<Seq<char>>) -> int
    decreases types.len(),
{
    if types.len() == 0 {
        0
    } else if is_type(types[0], parent, key) {
        0
    } else {
        1 + type_place(types.drop_first(), parent, key)
    }
}

pub proof fn lemma_type_place(
    types: Seq<Sequence>,
    parent: TypePtrView,
    key: Option<Seq<char>>,
    k: int,
)
    requires
        0 <= k <= types.len(),
        forall|j: int| 0 <= j < k ==> !is_type(#[trigger] types[j], parent, key),
        k < types.len() ==> is_type(types[k], parent, key),
    ensures
        type_place(types, parent, key) == k,
    decreases types.len(),
{
    if types.len() == 0 {
    } else if k == 0 {
    } else {
        let w = types.drop_first();
        assert(!is_type(types[0], parent, key));
        assert forall|j: int| 0 <= j < k - 1 implies !is_type(#[trigger] w[j], parent, key) by {
            assert(!is_type(types[j + 1], parent, key));
        }
        lemma_type_place(w, parent, key, k - 1);
    }
}

/// The blocks of a chain from the clock `from` on, the block that spans
/// `from` cut there.
pub open spec fn suffix_from(items: Seq<ItemView>, from: int) -> Seq<ItemView> {
    let i = span_index(items, from);
    let first = if items[i].id.clock == from {
        items[i]
    } else {
        items[i].tail(from - items[i].id.clock)
    };
    seq![first] + items.subrange(i + 1, items.len() as int)
}

/// Whether a store can take a block in depends on the positions that it
/// has and on nothing else.
pub proof fn lemma_takes_same(a: Store, b: Store, it: ItemView)
    requires
        forall|c: ClientID| #[trigger] b.state(c) == a.state(c),
        forall|id: ID| #[trigger] b.knows(id) == a.knows(id),
    ensures
        b.takes(it) == a.takes(it),
{
    let st = a.state(it.id.client);
    assert(b.state(it.id.client) == st);
    let part = if it.id.clock < st {
        it.tail(st - it.id.clock)
    } else {
        it
    };
    if part.origin is Some {
        assert(b.knows(part.origin.unwrap()) == a.knows(part.origin.unwrap()));
    }
    if part.right_origin is Some {
        assert(b.knows(part.right_origin.unwrap()) == a.knows(part.right_origin.unwrap()));
    }
    match part.parent {
        TypePtrView::Id(p) => {
            assert(b.knows(p) == a.knows(p));
        },
        _ => {},
    }
}

/// Tombstones put over a range a second time change nothing.
pub proof fn law_erase_twice(items: Seq<ItemView>, client: ClientID, start: int, end: int)
    requires
        chain(items, client, 0),
    ensures
        erased_blocks(erased_blocks(items, start, end), start, end) == erased_blocks(
            items,
            start,
            end,
        ),
{
    let r = erased_blocks(items, start, end);
    lemma_erase_chain(items, client, 0, start, end);
    if start >= end {
        lemma_erase_empty(r, start, end);
    } else {
        assert forall|i: int| 0 <= i < r.len() implies (#[trigger] r[i]).content is Deleted
            || r[i].end() <= start || r[i].id.clock >= end by {
            lemma_chain_at(r, client, 0, i);
            if !(r[i].end() <= start || r[i].id.clock >= end) {
                let c = if r[i].id.clock >= start {
                    r[i].id.clock as int
                } else {
                    start
                };
                lemma_chain_span(r, client, 0, i, c);
                lemma_chain_covers(r, client, c);
                lemma_chain_covers(items, client, c);
                lemma_erase_dead(items, client, start, end, c);
            }
        }
        lemma_erase_same(r, start, end);
    }
}

/// The left neighbour that the position with the clock `c` names.
pub open spec fn origin_in(items: Seq<ItemView>, c: int) -> Option<ID> {
    let b = items[span_index(items, c)];
    if c == b.id.clock {
        b.origin
    } else {
        Some(ID { client: b.id.client, clock: (c - 1) as u32 })
    }
}

/// The right neighbour that the position with the clock `c` names.
pub open spec fn right_in(items: Seq<ItemView>, c: int) -> Option<ID> {
    items[span_index(items, c)].right_origin
}

/// Tombstones leave to every position the neighbours that it names.
pub proof fn lemma_erase_names(
    items: Seq<ItemView>,
    client: ClientID,
    start: int,
    end: int,
    c: int,
)
    requires
        chain(items, client, 0),
        spanned(items, c),
    ensures
        spanned(erased_blocks(items, start, end), c),
        origin_in(erased_blocks(items, start, end), c) == origin_in(items, c),
        right_in(erased_blocks(items, start, end), c) == right_in(items, c),
    decreases items.len(),
{
    let r = erased_blocks(items, start, end);
    let i = span_index(items, c);
    lemma_chain_span(items, client, 0, i, c);
    lemma_erase_chain(items, client, 0, start, end);
    let w = items.drop_last();
    let l = items.last();
    let ew = erased_blocks(w, start, end);
    let ps = pieces(l, start, end);
    assert(w + seq![l] =~= items);
    lemma_chain_concat(w, seq![l], client, 0);
    assert(chain(seq![l], client, chain_end(w, 0)));
    if i == items.len() - 1 {
        let first = l.id.clock as int;
        let last = l.end();
        lemma_pieces_chain(l, start, end);
        let whole = start >= end || l.content is Deleted || last <= start || first >= end;
        if !whole {
            if first < start {
                lemma_item_split(l, start - first);
                if last > end {
                    lemma_item_split(l.tail(start - first), end - start);
                }
            } else if last > end {
                lemma_item_split(l, end - first);
            }
        }
        let j: int = if whole {
            0
        } else if first < start {
            if c < start {
                0
            } else if c < end {
                1
            } else {
                2
            }
        } else {
            if c < end {
                0
            } else {
                1
            }
        };
        assert(0 <= j < ps.len());
        assert(ps[j].id.clock <= c < ps[j].end());
        assert(ps[j].id.client == l.id.client);
        assert(ps[j].right_origin == l.right_origin);
        assert(ps[j].id.clock == first ==> ps[j].origin == l.origin);
        assert(ps[j].id.clock != first ==> ps[j].origin == Some(
            ID { client: l.id.client, clock: (ps[j].id.clock - 1) as u32 },
        ));
        assert(r[ew.len() + j] == ps[j]);
        lemma_chain_span(r, client, 0, ew.len() + j, c);
    } else {
        assert(w[i].id.clock <= c < w[i].end());
        lemma_chain_span(w, client, 0, i, c);
        lemma_erase_names(w, client, start, end, c);
        let k = span_index(ew, c);
        assert(r[k] == ew[k]);
        lemma_chain_span(r, client, 0, k, c);
    }
}

/// Whether two stores have the same positions, each with the same
/// neighbours named.
pub open spec fn same_names(a: Store, b: Store) -> bool {
    &&& forall|id: ID| #[trigger] b.knows(id) == a.knows(id)
    &&& forall|id: ID| a.knows(id) ==> #[trigger] b.origin_of(id) == a.origin_of(id)
    &&& forall|id: ID| a.knows(id) ==> #[trigger] b.right_origin_of(id) == a.right_origin_of(id)
}

/// The scan for the place of a block looks at the positions that a store
/// has and at the neighbours that they name, and at nothing else.
pub proof fn lemma_yata_same(
    a: Store,
    b: Store,
    order: Seq<ID>,
    me: ItemView,
    start: int,
    stop: int,
    cur: int,
    dest: int,
)
    requires
        same_names(a, b),
    ensures
        b.yata(order, me, start, stop, cur, dest) == a.yata(order, me, start, stop, cur, dest),
    decreases order.len() - cur,
{
    if cur < 0 || cur >= order.len() || cur == stop {
    } else {
        let o = order[cur];
        assert(b.knows(o) == a.knows(o));
        if a.knows(o) {
            assert(b.origin_of(o) == a.origin_of(o));
            assert(b.right_origin_of(o) == a.right_origin_of(o));
            lemma_yata_same(a, b, order, me, start, stop, cur + 1, cur + 1);
            lemma_yata_same(a, b, order, me, start, stop, cur + 1, dest);
        }
    }
}

/// Tombstones do not change where a block comes to stand: in a store
/// that differs from another one by tombstones over a range, every block
/// takes the place in a container that it takes in the other one.
pub proof fn law_tombstones_keep_places(
    a: Store,
    b: Store,
    client: ClientID,
    start: int,
    end: int,
    seq: int,
    me: ItemView,
)
    requires
        a.wf(),
        b.items_of(client) == erased_blocks(a.items_of(client), start, end),
        forall|c: ClientID| c != client ==> #[trigger] b.items_of(c) == a.items_of(c),
        b.types == a.types,
    ensures
        b.place(seq, me) == a.place(seq, me),
{
    a.lemma_items_chain(client);
    assert forall|id: ID| #[trigger] b.knows(id) == a.knows(id) by {
        if id.client == client {
            lemma_delete_facts(a, client, start, end);
            assert(spanned(b.items_of(client), id.clock as int) == spanned(
                a.items_of(client),
                id.clock as int,
            ));
        }
    }
    assert forall|id: ID| a.knows(id) implies #[trigger] b.origin_of(id) == a.origin_of(id) by {
        if id.client == client {
            lemma_erase_names(a.items_of(client), client, start, end, id.clock as int);
            lemma_erase_chain(a.items_of(client), client, 0, start, end);
            lemma_chain_at(
                b.items_of(client),
                client,
                0,
                span_index(b.items_of(client), id.clock as int),
            );
            lemma_chain_at(
                a.items_of(client),
                client,
                0,
                span_index(a.items_of(client), id.clock as int),
            );
        }
    }
    assert forall|id: ID| a.knows(id) implies #[trigger] b.right_origin_of(id)
        == a.right_origin_of(id) by {
        if id.client == client {
            lemma_erase_names(a.items_of(client), client, start, end, id.clock as int);
        }
    }
    let order = a.order_of(seq);
    let st = scan_start(order, me.origin);
    lemma_yata_same(a, b, order, me, st, scan_stop(order, me.right_origin), st, st);
}

/// Whether no block stands twice among the blocks.
pub open spec fn distinct(v: Seq<ItemView>) -> bool {
    forall|i: int, j: int| 0 <= i < j < v.len() ==> #[trigger] v[i] != #[trigger] v[j]
}

/// The block `it` cut at the clock `c`: what of it lies at `c` and
/// behind.
pub open spec fn cut_at(it: ItemView, c: int) -> ItemView {
    if it.id.clock < c < it.end() {
        it.tail(c - it.id.clock)
    } else {
        it
    }
}

/// Whether the block `v` is what is left of the block `o` when the store
/// has cut `o` down to what it lacked at some time.
pub open spec fn heir(s: Store, v: ItemView, o: ItemView) -> bool {
    &&& o.id.clock <= v.id.clock < o.end()
    &&& v == cut_at(o, v.id.clock as int)
    &&& v.id.clock <= o.id.clock || v.id.clock <= s.state(o.id.client)
}

/// Whether the store can take none of the blocks in that it does not
/// have.
pub open spec fn quiet(s: Store, work: Seq<ItemView>) -> bool {
    forall|k: int|
        0 <= k < work.len() ==> (#[trigger] work[k]).end() <= s.state(work[k].id.client)
            || !s.takes(work[k])
}

/// Whether the blocks `work` begin with the blocks `base`, which the
/// store lacks as a whole and none of which stands twice, and hold behind
/// them only blocks that the store has or that, cut down to what the store
/// lacks, stand among `base`.
pub open spec fn replay(s: Store, work: Seq<ItemView>, base: Seq<ItemView>) -> bool {
    &&& base.len() <= work.len()
    &&& distinct(base)
    &&& forall|k: int|
        0 <= k < base.len() ==> #[trigger] work[k] == base[k] && base[k].id.clock >= s.state(
            base[k].id.client,
        )
    &&& forall|k: int|
        base.len() <= k < work.len() ==> (#[trigger] work[k]).end() <= s.state(work[k].id.client)
            || base.contains(s.cut(work[k]))
}

impl Store {
    /// The block cut down to what the store lacks of it.
    pub open spec fn cut(&self, it: ItemView) -> ItemView {
        cut_at(it, self.state(it.id.client))
    }

    /// Whether the store has the block, or what is left of it stands
    /// among the blocks `rest`.
    pub open spec fn kept(&self, rest: Seq<ItemView>, o: ItemView) -> bool {
        self.state(o.id.client) >= o.end() || exists|w: int|
            0 <= w < rest.len() && heir(*self, #[trigger] rest[w], o)
    }
}

/// What taking the block `it` in makes of the store `s0`. The block
/// stands at the end of the blocks of its client, as it is. Its positions
/// stand in the container that it belongs to, at the place that the scan
/// gives; where the store did not have that container, it stands behind
/// the others and holds these positions alone. Every other block and
/// every other container is as it was.
#[verifier::opaque]
pub open spec fn took(s0: Store, it: ItemView, s1: Store) -> bool {
    let seq = s0.container_for(it).unwrap();
    let n = s0.types.len() as int;
    &&& s0.container_for(it) is Some
    &&& 0 <= seq <= n
    &&& s1.wf()
    &&& s1.items_of(it.id.client) == s0.items_of(it.id.client).push(it)
    &&& forall|c: ClientID| c != it.id.client ==> #[trigger] s1.items_of(c) == s0.items_of(c)
    &&& forall|id: ID| s0.knows(id) ==> #[trigger] s1.seq_of(id) == s0.seq_of(id)
    &&& forall|id: ID| it.spans(id) ==> #[trigger] s1.seq_of(id) == seq
    &&& s1.types.len() == (if seq < n {
        n
    } else {
        n + 1
    })
    &&& forall|k: int| 0 <= k < n && k != seq ==> #[trigger] s1.types[k] == s0.types[k]
    &&& s1.types[seq].parent@ == (if seq < n {
        s0.types[seq].parent@
    } else {
        it.parent
    })
    &&& opt_text(s1.types[seq].key) == (if seq < n {
        opt_text(s0.types[seq].key)
    } else {
        it.parent_sub
    })
    &&& s1.order_of(seq) == (if seq < n {
        placed(s0.order_of(seq), s0.place(seq, it), it.id, it.len())
    } else {
        run(it.id, it.len())
    })
}

/// What dealing with the block `o` makes of a store `s0` and the blocks
/// `r0` that wait: nothing where the store has the block; the block taken
/// in, cut down to what the store lacks, where the store can take it in,
/// and what waits in the store as it was; else the block, cut down
/// likewise, among the blocks that wait, once.
pub open spec fn step(s0: Store, r0: Seq<ItemView>, o: ItemView, s1: Store, r1: Seq<ItemView>) -> bool {
    if o.end() <= s0.state(o.id.client) {
        s1 == s0 && r1 == r0
    } else if s0.takes(o) {
        r1 == r0 && s1.state(o.id.client) >= o.end() && took(s0, s0.cut(o), s1) && s1.pending
            == s0.pending && s1.pending_ds == s0.pending_ds
    } else {
        s1 == s0 && (if r0.contains(s0.cut(o)) {
            r1 == r0
        } else {
            r1 == r0.push(s0.cut(o))
        })
    }
}

/// What going once through the first `n` of the blocks `work`, one after
/// the other, makes of the store `s0`: the store `s1`, and the blocks `r1`
/// that wait.
#[verifier::opaque]
pub open spec fn passed(s0: Store, work: Seq<ItemView>, n: int, s1: Store, r1: Seq<ItemView>) -> bool
    decreases n,
{
    if n <= 0 {
        s1 == s0 && r1 == Seq::<ItemView>::empty()
    } else {
        exists|sm: Store, rm: Seq<ItemView>|
            passed(s0, work, n - 1, sm, rm) && #[trigger] step(sm, rm, work[n - 1], s1, r1)
    }
}

/// What `k` passes through the blocks that wait make of the store `s0`
/// and the blocks `w0`, where each pass leaves fewer blocks waiting than
/// it found.
#[verifier::opaque]
pub open spec fn rounds(s0: Store, w0: Seq<ItemView>, k: int, s1: Store, w1: Seq<ItemView>) -> bool
    decreases k,
{
    if k <= 0 {
        s1 == s0 && w1 == w0
    } else {
        exists|sm: Store, wm: Seq<ItemView>|
            rounds(s0, w0, k - 1, sm, wm) && #[trigger] passed(sm, wm, wm.len() as int, s1, w1)
                && w1.len() < wm.len()
    }
}

/// What passing through the blocks that wait, again and again until a
/// pass leaves as many waiting as it found, makes of the store `s0` and
/// the blocks `w0`: the store `s1`, and the blocks `rest` that wait on.
pub open spec fn settled(s0: Store, w0: Seq<ItemView>, s1: Store, rest: Seq<ItemView>) -> bool {
    exists|k: int, sm: Store, wm: Seq<ItemView>|
        0 <= k && #[trigger] rounds(s0, w0, k, sm, wm) && passed(sm, wm, wm.len() as int, s1, rest)
            && rest.len() == wm.len()
}

/// A pass through no blocks and no rounds leave all as it is.
pub proof fn lemma_passed_none(s0: Store, work: Seq<ItemView>, w0: Seq<ItemView>)
    ensures
        passed(s0, work, 0, s0, Seq::<ItemView>::empty()),
        rounds(s0, w0, 0, s0, w0),
{
    reveal(passed);
    reveal(rounds);
}

/// A pass that has come to a block goes on with the step that deals with
/// the block.
pub proof fn lemma_passed_next(
    s0: Store,
    work: Seq<ItemView>,
    n: int,
    sm: Store,
    rm: Seq<ItemView>,
    s1: Store,
    r1: Seq<ItemView>,
)
    requires
        0 <= n,
        passed(s0, work, n, sm, rm),
        step(sm, rm, work[n], s1, r1),
    ensures
        passed(s0, work, n + 1, s1, r1),
{
    reveal(passed);
    let n1 = n + 1;
    assert(passed(s0, work, n1 - 1, sm, rm));
    assert(step(sm, rm, work[n1 - 1], s1, r1));
}

/// Rounds go on with a pass that leaves fewer blocks waiting, and end with
/// a pass that does not.
pub proof fn lemma_rounds_next(
    s0: Store,
    w0: Seq<ItemView>,
    k: int,
    sm: Store,
    wm: Seq<ItemView>,
    s1: Store,
    w1: Seq<ItemView>,
)
    requires
        0 <= k,
        rounds(s0, w0, k, sm, wm),
        passed(sm, wm, wm.len() as int, s1, w1),
    ensures
        w1.len() < wm.len() ==> rounds(s0, w0, k + 1, s1, w1),
        w1.len() == wm.len() ==> settled(s0, w0, s1, w1),
{
    reveal(rounds);
    let k1 = k + 1;
    assert(rounds(s0, w0, k1 - 1, sm, wm));
}

/// Whether the containers `t1` begin with the containers `t0`, each with
/// the parent and the key that it had.
pub open spec fn grown(t0: Seq<Sequence>, t1: Seq<Sequence>) -> bool {
    &&& t0.len() <= t1.len()
    &&& forall|k: int|
        0 <= k < t0.len() ==> (#[trigger] t1[k]).parent@ == t0[k].parent@ && opt_text(t1[k].key)
            == opt_text(t0[k].key)
}

/// Dealing with a block leaves the containers that the store has in
/// their places.
pub proof fn lemma_step_grown(s0: Store, r0: Seq<ItemView>, o: ItemView, s1: Store, r1: Seq<ItemView>)
    requires
        step(s0, r0, o, s1, r1),
    ensures
        grown(s0.types@, s1.types@),
{
    if o.end() > s0.state(o.id.client) && s0.takes(o) {
        reveal(took);
        let seq = s0.container_for(s0.cut(o)).unwrap();
        assert forall|k: int| 0 <= k < s0.types.len() implies (#[trigger] s1.types@[k]).parent@
            == s0.types@[k].parent@ && opt_text(s1.types@[k].key) == opt_text(s0.types@[k].key) by {
            if k != seq {
                assert(s1.types[k] == s0.types[k]);
            }
        }
    }
}

/// Whether the store can take none of the blocks in and lacks each of
/// them as a whole.
pub open spec fn still(s: Store, rest: Seq<ItemView>) -> bool {
    forall|k: int|
        0 <= k < rest.len() ==> !s.takes(#[trigger] rest[k]) && rest[k].id.clock >= s.state(
            rest[k].id.client,
        )
}

/// A block that was kept stays kept when another block is dealt with.
pub proof fn lemma_step_keeps(
    s0: Store,
    r0: Seq<ItemView>,
    o: ItemView,
    s1: Store,
    r1: Seq<ItemView>,
    x: ItemView,
)
    requires
        step(s0, r0, o, s1, r1),
        s0.kept(r0, x),
        forall|c: ClientID| #[trigger] s1.state(c) >= s0.state(c),
    ensures
        s1.kept(r1, x),
{
    if s0.state(x.id.client) >= x.end() {
        assert(s1.state(x.id.client) >= s0.state(x.id.client));
    } else {
        let w = choose|w: int| 0 <= w < r0.len() && heir(s0, #[trigger] r0[w], x);
        assert(r1[w] == r0[w]);
        assert(s1.state(x.id.client) >= s0.state(x.id.client));
        assert(heir(s1, r1[w], x));
    }
}

/// The block that was dealt with is kept.
pub proof fn lemma_step_kept(s0: Store, r0: Seq<ItemView>, o: ItemView, s1: Store, r1: Seq<ItemView>)
    requires
        step(s0, r0, o, s1, r1),
        o.wf(),
        forall|c: ClientID| #[trigger] s1.state(c) >= s0.state(c),
    ensures
        s1.kept(r1, o),
{
    let st = s0.state(o.id.client);
    if o.end() <= st {
    } else if s0.takes(o) {
    } else {
        let v = s0.cut(o);
        assert(r1.contains(v)) by {
            if r0.contains(v) {
            } else {
                assert(r1[r0.len() as int] == v);
            }
        }
        let w = choose|w: int| 0 <= w < r1.len() && r1[w] == v;
        if o.id.clock < st {
            lemma_item_split(o, st - o.id.clock);
        }
        assert(heir(s1, r1[w], o));
    }
}

/// Where every block dealt with so far was kept as it came, the store
/// can take none of the blocks in that wait.
pub proof fn lemma_step_still(s0: Store, r0: Seq<ItemView>, o: ItemView, s1: Store, r1: Seq<ItemView>)
    requires
        step(s0, r0, o, s1, r1),
        o.wf(),
        still(s0, r0),
        r1.len() == r0.len() + 1,
    ensures
        s1 == s0,
        still(s1, r1),
{
    let st = s0.state(o.id.client);
    let v = s0.cut(o);
    assert(r1 == r0.push(v));
    if o.id.clock < st {
        lemma_item_split(o, st - o.id.clock);
    }
    assert(!s0.takes(v)) by {
        assert(s0.cut(v) == v);
    }
    assert forall|k: int| 0 <= k < r1.len() implies !s1.takes(#[trigger] r1[k]) && r1[k].id.clock
        >= s1.state(r1[k].id.client) by {
        if k < r0.len() {
            assert(r1[k] == r0[k]);
        }
    }
}

/// Blocks that are played again come to wait as they waited.
pub proof fn lemma_step_replay(
    s0: Store,
    r0: Seq<ItemView>,
    o: ItemView,
    s1: Store,
    r1: Seq<ItemView>,
    work: Seq<ItemView>,
    base: Seq<ItemView>,
    i: int,
)
    requires
        step(s0, r0, o, s1, r1),
        0 <= i < work.len(),
        work[i] == o,
        o.wf(),
        quiet(s0, work),
        replay(s0, work, base),
        r0 == base.subrange(
            0,
            if i <= base.len() {
                i
            } else {
                base.len() as int
            },
        ),
    ensures
        s1 == s0,
        r1 == base.subrange(
            0,
            if i + 1 <= base.len() {
                i + 1
            } else {
                base.len() as int
            },
        ),
{
    let m = base.len() as int;
    let st = s0.state(o.id.client);
    assert(o.end() <= st || !s0.takes(o));
    if i < m {
        assert(work[i] == base[i] && base[i].id.clock >= st);
        assert(s0.cut(o) == o);
        assert(!r0.contains(o)) by {
            if r0.contains(o) {
                let w = choose|w: int| 0 <= w < r0.len() && r0[w] == o;
                assert(base[w] != base[i]);
            }
        }
        assert(r1 =~= base.subrange(0, i + 1));
    } else {
        assert(r0 =~= base);
        if o.end() <= st {
        } else {
            assert(base.contains(s0.cut(o)));
        }
        assert(r1 =~= base.subrange(0, m));
    }
}

/// What lies behind the first `a` and then the next `b` positions of a
/// block is what lies behind its first `a + b` positions.
pub proof fn lemma_tail_tail(it: ItemView, a: int, b: int)
    requires
        it.wf(),
        0 < a,
        0 < b,
        a + b < it.len(),
    ensures
        it.tail(a).tail(b) == it.tail(a + b),
{
    match it.content {
        ContentView::String(s) => {
            assert(s.subrange(a, s.len() as int).subrange(b, s.len() - a) =~= s.subrange(
                a + b,
                s.len() as int,
            ));
        },
        ContentView::Any(v) => {
            assert(v.subrange(a, v.len() as int).subrange(b, v.len() - a) =~= v.subrange(
                a + b,
                v.len() as int,
            ));
        },
        _ => {},
    }
}

/// What is left of what is left of a block is what is left of the block.
pub proof fn lemma_heir_trans(s0: Store, s1: Store, v: ItemView, m: ItemView, o: ItemView)
    requires
        o.wf(),
        heir(s0, m, o),
        heir(s1, v, m),
        s1.state(o.id.client) >= s0.state(o.id.client),
    ensures
        heir(s1, v, o),
        v.end() == o.end(),
        v.id.client == o.id.client,
{
    let a = m.id.clock - o.id.clock;
    let b = v.id.clock - m.id.clock;
    if a > 0 {
        lemma_item_split(o, a);
    }
    if b > 0 {
        lemma_item_split(m, b);
    }
    if a > 0 && b > 0 {
        lemma_tail_tail(o, a, b);
    }
}

/// A block that was kept among blocks stays kept when those blocks are
/// gone through once more.
pub proof fn lemma_kept_on(s0: Store, r0: Seq<ItemView>, s1: Store, r1: Seq<ItemView>, o: ItemView)
    requires
        o.wf(),
        s0.kept(r0, o),
        forall|k: int| 0 <= k < r0.len() ==> s1.kept(r1, #[trigger] r0[k]),
        forall|c: ClientID| #[trigger] s1.state(c) >= s0.state(c),
    ensures
        s1.kept(r1, o),
{
    assert(s1.state(o.id.client) >= s0.state(o.id.client));
    if s0.state(o.id.client) >= o.end() {
    } else {
        let j = choose|j: int| 0 <= j < r0.len() && heir(s0, #[trigger] r0[j], o);
        let m = r0[j];
        assert(s1.kept(r1, m));
        let a = m.id.clock - o.id.clock;
        if a > 0 {
            lemma_item_split(o, a);
        }
        assert(m.end() == o.end() && m.id.client == o.id.client);
        if s1.state(m.id.client) >= m.end() {
        } else {
            let w = choose|w: int| 0 <= w < r1.len() && heir(s1, #[trigger] r1[w], m);
            lemma_heir_trans(s0, s1, r1[w], m, o);
        }
    }
}

/// Whether a store can take a block in does not depend on what waits.
pub proof fn lemma_takes_clients(a: Store, b: Store, it: ItemView)
    requires
        b.clients == a.clients,
        b.types == a.types,
    ensures
        b.takes(it) == a.takes(it),
        b.state(it.id.client) == a.state(it.id.client),
{
}

/// The blocks that waited, played again by themselves, are played again.
pub proof fn lemma_replay_base(s: Store, work: Seq<ItemView>, base: Seq<ItemView>)
    requires
        quiet(s, work),
        replay(s, work, base),
    ensures
        quiet(s, base),
        replay(s, base, base),
{
    assert forall|k: int| 0 <= k < base.len() implies (#[trigger] base[k]).end() <= s.state(
        base[k].id.client,
    ) || !s.takes(base[k]) by {
        assert(work[k] == base[k]);
        assert(work[k].end() <= s.state(work[k].id.client) || !s.takes(work[k]));
    }
    assert forall|k: int| 0 <= k < base.len() implies #[trigger] base[k] == base[k]
        && base[k].id.clock >= s.state(base[k].id.client) by {
        assert(work[k] == base[k]);
    }
}

/// What holds of the blocks that wait holds whatever list they wait in.
pub proof fn lemma_same_clients(a: Store, b: Store, rest: Seq<ItemView>, work: Seq<ItemView>)
    requires
        b.clients == a.clients,
        b.types == a.types,
        still(a, rest),
        forall|i: int| 0 <= i < work.len() ==> a.kept(rest, #[trigger] work[i]),
    ensures
        still(b, rest),
        forall|i: int| 0 <= i < work.len() ==> b.kept(rest, #[trigger] work[i]),
{
    assert forall|k: int| 0 <= k < rest.len() implies !b.takes(#[trigger] rest[k]) && rest[k].id.clock
        >= b.state(rest[k].id.client) by {
        lemma_takes_clients(a, b, rest[k]);
    }
    assert forall|i: int| 0 <= i < work.len() implies b.kept(rest, #[trigger] work[i]) by {
        assert(a.kept(rest, work[i]));
        if a.state(work[i].id.client) < work[i].end() {
            let w = choose|w: int| 0 <= w < rest.len() && heir(a, #[trigger] rest[w], work[i]);
            assert(heir(b, rest[w], work[i]));
        }
    }
}

/// Whether the identifier lies in the ranges of the first `i` clients or
/// in the first `j` of the ranges `rs` of the client at the place `i`.
pub open spec fn reached(
    w: crate::id_set::IdSetView,
    i: int,
    rs: Seq<Range>,
    j: int,
    id: ID,
) -> bool {
    ids_contain(w.subrange(0, i), id) || (id.client == w[i].0 && covers(
        rs.subrange(0, j),
        id.clock as int,
    ))
}

/// One range more reaches the identifiers of that range as well.
pub proof fn lemma_reached_step(w: crate::id_set::IdSetView, i: int, rs: Seq<Range>, j: int, id: ID)
    requires
        0 <= i < w.len(),
        0 <= j < rs.len(),
    ensures
        reached(w, i, rs, j + 1, id) <==> reached(w, i, rs, j, id) || (id.client == w[i].0
            && rs[j].holds(id.clock as int)),
{
    let done = rs.subrange(0, j);
    let next = rs.subrange(0, j + 1);
    let c = id.clock as int;
    if covers(next, c) {
        let k = choose|k: int| 0 <= k < next.len() && (#[trigger] next[k]).holds(c);
        if k < j {
            assert(done[k].holds(c));
        }
    }
    if covers(done, c) {
        let k = choose|k: int| 0 <= k < done.len() && (#[trigger] done[k]).holds(c);
        assert(next[k].holds(c));
    }
    if rs[j].holds(c) {
        assert(next[j].holds(c));
    }
}

/// All ranges of a client reach what the clients up to it hold.
pub proof fn lemma_reached_all(w: crate::id_set::IdSetView, i: int, id: ID)
    requires
        0 <= i < w.len(),
    ensures
        ids_contain(w.subrange(0, i + 1), id) <==> reached(w, i, w[i].1, w[i].1.len() as int, id),
{
    let done = w.subrange(0, i);
    let next = w.subrange(0, i + 1);
    let rs = w[i].1;
    assert(rs.subrange(0, rs.len() as int) =~= rs);
    if ids_contain(next, id) {
        let k = choose|k: int|
            0 <= k < next.len() && (#[trigger] next[k]).0 == id.client && covers(
                next[k].1,
                id.clock as int,
            );
        if k < i {
            assert(done[k].0 == id.client && covers(done[k].1, id.clock as int));
        }
    }
    if ids_contain(done, id) {
        let k = choose|k: int|
            0 <= k < done.len() && (#[trigger] done[k]).0 == id.client && covers(
                done[k].1,
                id.clock as int,
            );
        assert(next[k].0 == id.client && covers(next[k].1, id.clock as int));
    }
    if id.client == w[i].0 && covers(rs, id.clock as int) {
        assert(next[i].0 == id.client && covers(next[i].1, id.clock as int));
    }
}

/// Whether the runs of blocks of `u` are what a replica with the state
/// vector `a` has and a replica with the state vector `b` lacks: one run
/// for every client of which `a` is ahead, in the order of `a`, from the
/// clock that `b` expects up to the clock that `a` expects.
pub open spec fn is_diff(u: UpdateView, a: StateView, b: StateView) -> bool {
    &&& u.blocks.len() == gaps(a, b).len()
    &&& forall|k: int|
        0 <= k < u.blocks.len() ==> (#[trigger] u.blocks[k]).client == gaps(a, b)[k].client
            && u.blocks[k].clock == gaps(a, b)[k].from && u.blocks[k].end() == gaps(a, b)[k].to
            && u.blocks[k].items.len() >= 1
}

impl Store {
    /// Copies of the blocks of one client from the clock `from` on. The
    /// block that spans `from` is cut there.
    fn blocks_from(&self, p: usize, from: u32) -> (r: Vec<Item>)
        requires
            self.wf(),
            p < self.clients.len(),
            from < chain_end(list_items(self.clients[p as int].1), 0),
        ensures
            chain(items_view(r@), self.clients[p as int].0, from as int),
            chain_end(items_view(r@), from as int) == chain_end(
                list_items(self.clients[p as int].1),
                0,
            ),
            r.len() >= 1,
            items_view(r@) == suffix_from(list_items(self.clients[p as int].1), from as int),
    {
        let client: ClientID = self.clients[p].0;
        let list = &self.clients[p].1;
        let ghost items = list_items(*list);
        assert(self.clients[p as int].1.wf(client, self.types.len() as int));
        let mut out: Vec<Item> = Vec::new();
        let idx: usize = match find_block(&list.items, from, client) {
            Some(i) => i,
            None => {
                proof {
                    lemma_chain_covers(items, client, from as int);
                }
                return out;
            },
        };
        proof {
            lemma_chain_at(items, client, 0, idx as int);
            assert(items[idx as int] == list.items[idx as int]@);
        }
        let first = list.items[idx].duplicate();
        let begin: u32 = first.id.clock;
        let part: Item = if from > begin {
            proof {
                lemma_item_split(first@, (from - begin) as int);
            }
            first.split((from - begin) as usize).1
        } else {
            first
        };
        let ghost head = part@;
        proof {
            lemma_chain_push(Seq::<ItemView>::empty(), client, from as int, part@);
            assert(items_view(out@.push(part)) =~= Seq::<ItemView>::empty().push(part@));
        }
        out.push(part);
        let mut j: usize = idx + 1;
        assert(items_view(out@) =~= seq![head] + items.subrange(idx + 1, idx + 1));
        while j < list.items.len()
            invariant
                idx < j <= list.items.len(),
                items == list_items(*list),
                chain(items, client, 0),
                chain(items_view(out@), client, from as int),
                out.len() >= 1,
                chain_end(items_view(out@), from as int) == items[j - 1].end(),
                items_view(out@) == seq![head] + items.subrange(idx + 1, j as int),
            decreases list.items.len() - j,
        {
            let ghost before = items_view(out@);
            let copy = list.items[j].duplicate();
            proof {
                lemma_chain_at(items, client, 0, j as int);
                assert(items[j as int] == list.items[j as int]@);
                lemma_chain_push(before, client, from as int, copy@);
                assert(items_view(out@.push(copy)) =~= before.push(copy@));
                assert(before.push(copy@) =~= seq![head] + items.subrange(idx + 1, j + 1));
            }
            out.push(copy);
            j = j + 1;
        }
        proof {
            assert(items.last() == items[items.len() - 1]);
        }
        out
    }

    /// What the store has and a replica with the state vector `remote`
    /// lacks, as an update: for every client of which the store is ahead
    /// its blocks from the clock on that `remote` expects, and the
    /// tombstones of the store as the delete set.
    pub fn diff_update(&self, remote: &StateVector) -> (r: Update)
        requires
            self.wf(),
            remote.wf(),
        ensures
            r.wf(),
            is_diff(r@, self.sv(), remote@),
            forall|k: int|
                0 <= k < r@.blocks.len() ==> (#[trigger] r@.blocks[k]).items == suffix_from(
                    self.items_of(r@.blocks[k].client),
                    r@.blocks[k].clock as int,
                ),
            forall|id: ID| #[trigger] ids_contain(r@.delete_set, id) <==> self.dead(id),
    {
        let mut blocks: Vec<ClientBlocks> = Vec::new();
        let ghost a = self.sv();
        let ghost b = remote@;
        let mut i: usize = 0;
        while i < self.clients.len()
            invariant
                i <= self.clients.len(),
                self.wf(),
                remote.wf(),
                a == self.sv(),
                b == remote@,
                crate::update::blocks_wf(blocks_view(blocks@)),
                is_diff(
                    UpdateView { blocks: blocks_view(blocks@), delete_set: Seq::empty() },
                    a.subrange(0, i as int),
                    b,
                ),
                forall|k: int|
                    0 <= k < blocks.len() ==> (#[trigger] blocks_view(blocks@)[k]).items
                        == suffix_from(
                        self.items_of(blocks_view(blocks@)[k].client),
                        blocks_view(blocks@)[k].clock as int,
                    ),
            decreases self.clients.len() - i,
        {
            let client: ClientID = self.clients[i].0;
            let from: u32 = remote.get(client);
            let ghost done = a.subrange(0, i as int);
            let ghost next = a.subrange(0, i + 1);
            let ghost before = blocks_view(blocks@);
            proof {
                lemma_index_of(self.clients@, i as int);
                assert(next.drop_last() =~= done);
                assert(next.last() == a[i as int]);
            }
            let st: u32 = self.get_state(client);
            if st > from {
                let items = self.blocks_from(i, from);
                let n: usize = items.len();
                let section = ClientBlocks { client, clock: from, items };
                let ghost sv = section@;
                blocks.push(section);
                proof {
                    let after = blocks_view(blocks@);
                    assert(after =~= before.push(sv));
                    assert(sv.wf());
                    assert forall|k: int| 0 <= k < after.len() implies (#[trigger] after[k]).wf() by {
                        if k < before.len() {
                            assert(before[k].wf());
                        }
                    }
                    let g = gaps(next, b);
                    assert forall|k: int| 0 <= k < after.len() implies (#[trigger] after[k]).client
                        == g[k].client && after[k].clock == g[k].from && after[k].end() == g[k].to
                        && after[k].items.len() >= 1 by {
                        if k < before.len() {
                            assert(before[k].client == gaps(done, b)[k].client);
                        }
                    }
                    assert forall|k: int| 0 <= k < after.len() implies (#[trigger] after[k]).items
                        == suffix_from(self.items_of(after[k].client), after[k].clock as int) by {
                        if k < before.len() {
                            assert(before[k].items == suffix_from(
                                self.items_of(before[k].client),
                                before[k].clock as int,
                            ));
                        }
                    }
                }
            }
            i = i + 1;
        }
        assert(a.subrange(0, i as int) =~= a);
        let delete_set = self.delete_set();
        let r = Update { blocks, delete_set };
        proof {
            assert(r.blocks.len() == r.blocks@.len());
            crate::update_v1::lemma_sized(&r.delete_set);
        }
        r
    }
}

/// After a replica has applied what another one had and it lacked, and
/// nothing is left waiting, it has of every client at least what the
/// other one had.
pub proof fn law_diff_catches_up(s0: Store, u: UpdateView, s1: Store, a: StateView, b: StateView)
    requires
        s0.wf(),
        u.wf(),
        crate::ordered::falling(a),
        forall|c: ClientID| #[trigger] sv_get(b, c) == s0.state(c),
        is_diff(u, a, b),
        applied(s0, u, s1),
        s1.pending.len() == 0,
    ensures
        forall|c: ClientID| #[trigger] s1.state(c) >= sv_get(a, c),
{
    assert forall|c: ClientID| #[trigger] s1.state(c) >= sv_get(a, c) by {
        crate::state_vector::lemma_gaps(a, b, c);
        assert(s1.state(c) >= s0.state(c));
        if sv_get(a, c) > sv_get(b, c) {
            let g = gaps(a, b);
            let k = choose|k: int| 0 <= k < g.len() && (#[trigger] g[k]).client == c;
            let sec = u.blocks[k];
            assert(sec.client == c && sec.end() == sv_get(a, c));
            let j = sec.items.len() - 1;
            assert(sec.items.last() == sec.items[j]);
            assert(s1.kept(items_view(s1.pending@), u.blocks[k].items[j]));
            assert(u.blocks[k].items[j].id.client == c) by {
                assert(sec.wf());
                lemma_chain_at(sec.items, sec.client, sec.clock as int, j);
            }
        }
    }
}

/// Whether the store has the position `id`, or a block of the update
/// with a smaller rank than `of` spans it.
pub open spec fn founded(
    s: Store,
    u: UpdateView,
    rank: spec_fn(ItemView) -> nat,
    of: ItemView,
    id: ID,
) -> bool {
    s.knows(id) || exists|a: int, b: int|
        0 <= a < u.blocks.len() && 0 <= b < u.blocks[a].items.len() && (
        #[trigger] u.blocks[a].items[b]).spans(id) && rank(u.blocks[a].items[b]) < rank(of)
}

/// Whether the blocks of the update can have been made one after the
/// other, in the order of their ranks, on top of what the store has: in
/// every run the ranks rise, and every position that a block depends on
/// is one that the store has or one of a block with a smaller rank.
pub open spec fn grounded(s: Store, u: UpdateView, rank: spec_fn(ItemView) -> nat) -> bool {
    forall|a: int, b: int|
        0 <= a < u.blocks.len() && 0 <= b < u.blocks[a].items.len() ==> {
            let o = #[trigger] u.blocks[a].items[b];
            &&& b > 0 ==> rank(u.blocks[a].items[b - 1]) < rank(o)
            &&& o.origin matches Some(x) ==> founded(s, u, rank, o, x)
            &&& o.right_origin matches Some(x) ==> founded(s, u, rank, o, x)
            &&& !o.has_origin() ==> (o.parent matches TypePtrView::Id(p) ==> founded(
                s,
                u,
                rank,
                o,
                p,
            ))
        }
}

/// A position on which a block of a grounded update depends is one that
/// the store has after applying the update, where the store then has all
/// blocks of a smaller rank.
pub proof fn lemma_founded_known(
    s0: Store,
    u: UpdateView,
    s1: Store,
    rank: spec_fn(ItemView) -> nat,
    of: ItemView,
    id: ID,
)
    requires
        s0.wf(),
        s1.wf(),
        forall|c: ClientID| #[trigger] s1.state(c) >= s0.state(c),
        founded(s0, u, rank, of, id),
        forall|a: int, b: int|
            0 <= a < u.blocks.len() && 0 <= b < u.blocks[a].items.len() && rank(
                #[trigger] u.blocks[a].items[b],
            ) < rank(of) ==> s1.state(u.blocks[a].items[b].id.client) >= u.blocks[a].items[b].end(),
    ensures
        s1.knows(id),
{
    s0.lemma_knows(id);
    s1.lemma_knows(id);
    assert(s1.state(id.client) >= s0.state(id.client));
    if !s0.knows(id) {
        let (a, b) = choose|a: int, b: int|
            0 <= a < u.blocks.len() && 0 <= b < u.blocks[a].items.len() && (
            #[trigger] u.blocks[a].items[b]).spans(id) && rank(u.blocks[a].items[b]) < rank(of);
        assert(s1.state(u.blocks[a].items[b].id.client) >= u.blocks[a].items[b].end());
    }
}

/// A store that has applied a grounded update whose runs begin no later
/// than where the store ended has a block of the update, where it has all
/// blocks of a smaller rank.
pub proof fn lemma_grounded_one(
    s0: Store,
    u: UpdateView,
    s1: Store,
    rank: spec_fn(ItemView) -> nat,
    a: int,
    b: int,
)
    requires
        s0.wf(),
        u.wf(),
        applied(s0, u, s1),
        grounded(s0, u, rank),
        forall|k: int|
            0 <= k < u.blocks.len() ==> (#[trigger] u.blocks[k]).clock <= s0.state(
                u.blocks[k].client,
            ),
        0 <= a < u.blocks.len(),
        0 <= b < u.blocks[a].items.len(),
        forall|i: int, j: int|
            0 <= i < u.blocks.len() && 0 <= j < u.blocks[i].items.len() && rank(
                #[trigger] u.blocks[i].items[j],
            ) < rank(u.blocks[a].items[b]) ==> s1.state(u.blocks[i].items[j].id.client)
                >= u.blocks[i].items[j].end(),
    ensures
        s1.state(u.blocks[a].items[b].id.client) >= u.blocks[a].items[b].end(),
{
    let run = u.blocks[a];
    let o = run.items[b];
    let c = o.id.client;
    let st = s1.state(c);
    let pv = items_view(s1.pending@);
    assert(run.wf());
    lemma_chain_at(run.items, run.client, run.clock as int, b);
    assert(s1.kept(pv, o));
    if st < o.end() {
        let w = choose|w: int| 0 <= w < pv.len() && heir(s1, #[trigger] pv[w], o);
        let v = pv[w];
        assert(!s1.takes(v) && v.id.clock >= st);
        assert(o.id.clock <= st) by {
            assert(s1.state(c) >= s0.state(c));
            if b > 0 {
                lemma_chain_at(run.items, run.client, run.clock as int, b - 1);
                assert(rank(run.items[b - 1]) < rank(o));
                assert(s1.state(run.items[b - 1].id.client) >= run.items[b - 1].end());
            }
        }
        assert(v.id.clock == st);
        assert(v.origin matches Some(x) ==> s1.knows(x)) by {
            if v.id.clock > o.id.clock {
                let x = v.origin.unwrap();
                s1.lemma_knows(x);
            } else if o.origin is Some {
                lemma_founded_known(s0, u, s1, rank, o, o.origin.unwrap());
            }
        }
        assert(v.right_origin matches Some(x) ==> s1.knows(x)) by {
            if o.right_origin is Some {
                lemma_founded_known(s0, u, s1, rank, o, o.right_origin.unwrap());
            }
        }
        assert(!v.has_origin() ==> (v.parent matches TypePtrView::Id(p) ==> s1.knows(p))) by {
            if !v.has_origin() {
                match o.parent {
                    TypePtrView::Id(p) => {
                        lemma_founded_known(s0, u, s1, rank, o, p);
                    },
                    _ => {},
                }
            }
        }
        assert(s1.ready(v));
        assert(s1.container_for(v) is Some);
        assert(s1.takes(v));
    }
}

/// A store that has applied a grounded update whose runs begin no later
/// than where the store ended has every block of the update of a rank
/// below `n`.
pub proof fn lemma_grounded_all(
    s0: Store,
    u: UpdateView,
    s1: Store,
    rank: spec_fn(ItemView) -> nat,
    n: nat,
)
    requires
        s0.wf(),
        u.wf(),
        applied(s0, u, s1),
        grounded(s0, u, rank),
        forall|k: int|
            0 <= k < u.blocks.len() ==> (#[trigger] u.blocks[k]).clock <= s0.state(
                u.blocks[k].client,
            ),
    ensures
        forall|i: int, j: int|
            0 <= i < u.blocks.len() && 0 <= j < u.blocks[i].items.len() && rank(
                #[trigger] u.blocks[i].items[j],
            ) < n ==> s1.state(u.blocks[i].items[j].id.client) >= u.blocks[i].items[j].end(),
    decreases n,
{
    if n > 0 {
        lemma_grounded_all(s0, u, s1, rank, (n - 1) as nat);
        assert forall|i: int, j: int|
            0 <= i < u.blocks.len() && 0 <= j < u.blocks[i].items.len() && rank(
                #[trigger] u.blocks[i].items[j],
            ) < n implies s1.state(u.blocks[i].items[j].id.client) >= u.blocks[i].items[j].end() by {
            if rank(u.blocks[i].items[j]) == n - 1 {
                lemma_grounded_one(s0, u, s1, rank, i, j);
            }
        }
    }
}

/// After a replica has applied what another one had and it lacked, it
/// has of every client at least what the other one had, where the blocks
/// that it lacked are grounded on what it had: none of them is left
/// waiting.
pub proof fn law_diff_brings_all(
    s0: Store,
    u: UpdateView,
    s1: Store,
    a: StateView,
    b: StateView,
    rank: spec_fn(ItemView) -> nat,
)
    requires
        s0.wf(),
        u.wf(),
        crate::ordered::falling(a),
        forall|c: ClientID| #[trigger] sv_get(b, c) == s0.state(c),
        is_diff(u, a, b),
        applied(s0, u, s1),
        grounded(s0, u, rank),
    ensures
        forall|c: ClientID| #[trigger] s1.state(c) >= sv_get(a, c),
        forall|i: int, j: int|
            0 <= i < u.blocks.len() && 0 <= j < u.blocks[i].items.len() ==> s1.state(
                (#[trigger] u.blocks[i].items[j]).id.client,
            ) >= u.blocks[i].items[j].end(),
{
    assert forall|k: int| 0 <= k < u.blocks.len() implies (#[trigger] u.blocks[k]).clock
        <= s0.state(u.blocks[k].client) by {
        assert(sv_get(b, u.blocks[k].client) == s0.state(u.blocks[k].client));
        crate::state_vector::lemma_gaps(a, b, u.blocks[k].client);
    }
    assert forall|i: int, j: int|
        0 <= i < u.blocks.len() && 0 <= j < u.blocks[i].items.len() implies s1.state(
        (#[trigger] u.blocks[i].items[j]).id.client,
    ) >= u.blocks[i].items[j].end() by {
        lemma_grounded_all(s0, u, s1, rank, rank(u.blocks[i].items[j]) + 1);
    }
    assert forall|c: ClientID| #[trigger] s1.state(c) >= sv_get(a, c) by {
        crate::state_vector::lemma_gaps(a, b, c);
        assert(s1.state(c) >= s0.state(c));
        if sv_get(a, c) > sv_get(b, c) {
            let g = gaps(a, b);
            let k = choose|k: int| 0 <= k < g.len() && (#[trigger] g[k]).client == c;
            let sec = u.blocks[k];
            assert(sec.client == c && sec.end() == sv_get(a, c));
            let j = sec.items.len() - 1;
            assert(sec.items.last() == sec.items[j]);
            assert(u.blocks[k].items[j].id.client == c) by {
                assert(sec.wf());
                lemma_chain_at(sec.items, sec.client, sec.clock as int, j);
            }
            assert(s1.state(u.blocks[k].items[j].id.client) >= u.blocks[k].items[j].end());
        }
    }
}

/// Tombstones leave every position in the container that it stands in.
pub proof fn lemma_erase_seq(
    items: Seq<ItemView>,
    seqs: Seq<usize>,
    client: ClientID,
    start: int,
    end: int,
    c: int,
)
    requires
        chain(items, client, 0),
        seqs.len() == items.len(),
        spanned(items, c),
    ensures
        erase_seqs(items, seqs, start, end).len() == erased_blocks(items, start, end).len(),
        spanned(erased_blocks(items, start, end), c),
        erase_seqs(items, seqs, start, end)[span_index(erased_blocks(items, start, end), c)]
            == seqs[span_index(items, c)],
    decreases items.len(),
{
    let r = erased_blocks(items, start, end);
    let rs = erase_seqs(items, seqs, start, end);
    let i = span_index(items, c);
    lemma_chain_span(items, client, 0, i, c);
    lemma_erase_chain(items, client, 0, start, end);
    lemma_erase_seq_len(items, seqs, start, end);
    let w = items.drop_last();
    let ws = seqs.drop_last();
    let l = items.last();
    let ew = erased_blocks(w, start, end);
    let es = erase_seqs(w, ws, start, end);
    let ps = pieces(l, start, end);
    assert(w + seq![l] =~= items);
    lemma_chain_concat(w, seq![l], client, 0);
    assert(chain(seq![l], client, chain_end(w, 0)));
    lemma_erase_seq_len(w, ws, start, end);
    lemma_erase_names(items, client, start, end, c);
    let k = span_index(r, c);
    lemma_chain_covers(r, client, c);
    if i == items.len() - 1 {
        lemma_pieces_chain(l, start, end);
        if k < ew.len() {
            lemma_erase_chain(w, client, 0, start, end);
            assert(r[k] == ew[k]);
            lemma_chain_covers(ew, client, c);
            lemma_chain_covers(w, client, c);
            let j = span_index(w, c);
            assert(items[j] == w[j]);
            lemma_chain_span(items, client, 0, j, c);
        }
        assert(rs[k] == seqs.last());
    } else {
        assert(w[i].id.clock <= c < w[i].end());
        lemma_chain_span(w, client, 0, i, c);
        lemma_erase_seq(w, ws, client, start, end, c);
        let kw = span_index(ew, c);
        assert(r[kw] == ew[kw]);
        lemma_chain_span(r, client, 0, kw, c);
        assert(rs[kw] == es[kw]);
        assert(ws[i] == seqs[i]);
    }
}

/// Every piece has its container.
pub proof fn lemma_erase_seq_len(items: Seq<ItemView>, seqs: Seq<usize>, start: int, end: int)
    requires
        seqs.len() == items.len(),
    ensures
        erase_seqs(items, seqs, start, end).len() == erased_blocks(items, start, end).len(),
    decreases items.len(),
{
    if items.len() > 0 {
        lemma_erase_seq_len(items.drop_last(), seqs.drop_last(), start, end);
    }
}

} // verus!
