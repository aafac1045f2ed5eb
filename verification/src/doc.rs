//! Documents: a store with its root containers.

use crate::block::TypePtr;
use crate::id::ClientID;
use crate::state_vector::{sv_get, StateVector};
use crate::store::Store;
use crate::text::opt_text;
use crate::update::Update;
use vstd::prelude::*;

verus! {

/// A text container of a document.
#[derive(Clone, Copy, Debug, PartialEq, Eq, Structural)]
pub struct Text {
    /// The place of the container in the store.
    pub seq: usize,
}

/// A replicated document.
#[derive(Debug, PartialEq, Eq)]
pub struct Doc {
    pub store: Store,
}

impl Doc {
    /// A document in which nothing has happened.
    pub fn new() -> (r: Doc)
        ensures
            r.wf(),
            r.store.clients.len() == 0,
            r.store.types.len() == 0,
    {
        Doc { store: Store::new() }
    }

    pub open spec fn wf(&self) -> bool {
        self.store.wf()
    }

    /// The root text container with the name `name`. The document gets
    /// one where it has none, behind the containers that it has; these,
    /// its blocks and what waits in it stay as they are.
    pub fn get_text(&mut self, name: &str) -> (r: Text)
        requires
            old(self).wf(),
        ensures
            final(self).wf(),
            r.seq < final(self).store.types.len(),
            final(self).store.types[r.seq as int].parent@ == crate::block::TypePtrView::Named(name@),
            final(self).store.types[r.seq as int].key is None,
            r.seq == crate::store::type_place(
                old(self).store.types@,
                crate::block::TypePtrView::Named(name@),
                None,
            ),
            final(self).store.clients == old(self).store.clients,
            final(self).store.pending == old(self).store.pending,
            final(self).store.pending_ds == old(self).store.pending_ds,
            r.seq < old(self).store.types.len() ==> final(self).store.types == old(
                self,
            ).store.types,
            r.seq >= old(self).store.types.len() ==> r.seq == old(self).store.types.len()
                && final(self).store.types.len() == r.seq + 1
                && final(self).store.types[r.seq as int].order@.len() == 0
                && final(self).store.types@.subrange(0, r.seq as int) == old(self).store.types@,
    {
        let parent = TypePtr::Named(name.to_owned());
        let key: Option<String> = None;
        let seq: usize = self.store.type_index(&parent, &key);
        Text { seq }
    }

    /// Applies an update to the document.
    pub fn apply_update(&mut self, update: &Update)
        requires
            old(self).wf(),
            update.wf(),
        ensures
            final(self).wf(),
            crate::store::applied(old(self).store, update@, final(self).store),
    {
        self.store.apply_update(update);
    }

    /// Applies an update to the document and then, once the update is
    /// applied as a whole, hands the document and the update to
    /// `on_update`.
    pub fn apply_update_with<F: FnOnce(&Doc, &Update)>(&mut self, update: &Update, on_update: F)
        requires
            old(self).wf(),
            update.wf(),
            forall|d: Doc| d.wf() ==> #[trigger] call_requires(on_update, (&d, update)),
        ensures
            final(self).wf(),
            crate::store::applied(old(self).store, update@, final(self).store),
            call_ensures(on_update, (final(self), update), ()),
    {
        self.store.apply_update(update);
        assert(self.wf());
        on_update(&*self, update);
    }

    /// The characters of a text container, in document order.
    pub fn text_of(&self, text: &Text) -> (r: String)
        requires
            self.wf(),
            text.seq < self.store.types.len(),
        ensures
            r@ == self.store.text_of(self.store.order_of(text.seq as int)),
    {
        self.store.text(text.seq)
    }

    /// What the document has of every client.
    pub fn state_vector(&self) -> (r: StateVector)
        requires
            self.wf(),
        ensures
            r.wf(),
            forall|c: ClientID| #[trigger] sv_get(r@, c) == self.store.state(c),
    {
        self.store.state_vector()
    }

    /// The whole document as an update in the first binary format.
    pub fn encode_state_as_update_v1(&self) -> (r: Vec<u8>)
        requires
            self.wf(),
        ensures
            exists|d: crate::id_set::IdSetView|
                crate::id_set::ids_wf(d) && (forall|id: crate::id::ID| #[trigger]
                    crate::id_set::ids_contain(d, id) <==> self.store.dead(id)) && r@
                    == crate::update_v1::update_bytes(
                    crate::update::UpdateView {
                        blocks: crate::store::whole_blocks(self.store.clients@),
                        delete_set: d,
                    },
                ),
    {
        let u = self.store.to_update();
        let r = u.encode_v1();
        proof {
            let d = u@.delete_set;
            assert(u@ == (crate::update::UpdateView {
                blocks: crate::store::whole_blocks(self.store.clients@),
                delete_set: d,
            }));
            assert(crate::id_set::ids_wf(d) && (forall|id: crate::id::ID| #[trigger]
                crate::id_set::ids_contain(d, id) <==> self.store.dead(id)));
        }
        r
    }

    /// What the document has and a replica with the state vector `remote`
    /// lacks, as an update.
    pub fn diff(&self, remote: &StateVector) -> (r: Update)
        requires
            self.wf(),
            remote.wf(),
        ensures
            r.wf(),
            crate::store::is_diff(r@, self.store.sv(), remote@),
            forall|k: int|
                0 <= k < r@.blocks.len() ==> (#[trigger] r@.blocks[k]).items
                    == crate::store::suffix_from(
                    self.store.items_of(r@.blocks[k].client),
                    r@.blocks[k].clock as int,
                ),
            forall|id: crate::id::ID| #[trigger]
                crate::id_set::ids_contain(r@.delete_set, id) <==> self.store.dead(id),
    {
        self.store.diff_update(remote)
    }

    /// What the document has and a replica with the state vector `remote`
    /// lacks, in the first binary format.
    pub fn encode_diff_v1(&self, remote: &StateVector) -> (r: Vec<u8>)
        requires
            self.wf(),
            remote.wf(),
        ensures
            exists|u: crate::update::UpdateView|
                u.wf() && crate::store::is_diff(u, self.store.sv(), remote@) && (forall|k: int|
                    0 <= k < u.blocks.len() ==> (#[trigger] u.blocks[k]).items
                        == crate::store::suffix_from(
                        self.store.items_of(u.blocks[k].client),
                        u.blocks[k].clock as int,
                    )) && (forall|id: crate::id::ID| #[trigger]
                    crate::id_set::ids_contain(u.delete_set, id) <==> self.store.dead(id)) && r@
                    == crate::update_v1::update_bytes(u),
    {
        let u = self.store.diff_update(remote);
        let r = u.encode_v1();
        proof {
            let v = u@;
            assert(v.wf() && crate::store::is_diff(v, self.store.sv(), remote@));
            assert(forall|k: int|
                0 <= k < v.blocks.len() ==> (#[trigger] v.blocks[k]).items
                    == crate::store::suffix_from(
                    self.store.items_of(v.blocks[k].client),
                    v.blocks[k].clock as int,
                ));
            assert(forall|id: crate::id::ID| #[trigger]
                crate::id_set::ids_contain(v.delete_set, id) <==> self.store.dead(id));
        }
        r
    }

    /// The whole document as an update in the second binary format. There
    /// is an answer where the format has room for the keys of the document,
    /// which are the node names of its nested containers, and only there.
    pub fn encode_state_as_update_v2(&self) -> (r: Option<Vec<u8>>)
        requires
            self.wf(),
        ensures
            r is Some <==> crate::law_v2::keys_of_blocks(
                crate::store::whole_blocks(self.store.clients@),
            ).len() <= crate::encode_v2::key_room(),
            r matches Some(b) ==> exists|d: crate::id_set::IdSetView|
                crate::id_set::ids_wf(d) && (forall|id: crate::id::ID| #[trigger]
                    crate::id_set::ids_contain(d, id) <==> self.store.dead(id)) && b@
                    == crate::encode_v2::update_bytes_v2(
                    crate::update::UpdateView {
                        blocks: crate::store::whole_blocks(self.store.clients@),
                        delete_set: d,
                    },
                ),
    {
        let u = self.store.to_update();
        let r = u.encode_v2();
        proof {
            let d = u@.delete_set;
            let blocks = crate::store::whole_blocks(self.store.clients@);
            assert(u@ == (crate::update::UpdateView { blocks, delete_set: d }));
            assert(crate::id_set::ids_wf(d) && (forall|id: crate::id::ID| #[trigger]
                crate::id_set::ids_contain(d, id) <==> self.store.dead(id)));
            crate::law_v2::lemma_sections_keys(blocks, 0);
            assert(crate::encode_v2::update_cols(u@).st.key_clock
                =~= crate::encode_v2::sections_cols(blocks, 0).st.key_clock);
        }
        r
    }
}

} // verus!
