//! A replicated document engine: blocks addressed by `(client, clock)`
//! identifiers, per-client state vectors, tombstone sets, the merge of
//! concurrent insertions, and the two binary update formats.

pub mod block;
pub mod codec_v1;
pub mod codec_v2;
pub mod columns;
pub mod converge;
pub mod determined;
pub mod doc;
pub mod encode_v2;
pub mod id;
pub mod id_set;
pub mod in_turn;
pub mod law_v2;
pub mod ordered;
pub mod roundtrip;
pub mod state_vector;
pub mod store;
pub mod text;
pub mod update;
pub mod update_v1;
pub mod value;
pub mod varint;

pub use block::{
    Branch, Item, ItemContent, TypePtr, TYPE_REFS_ARRAY, TYPE_REFS_MAP, TYPE_REFS_TEXT,
    TYPE_REFS_XML_ELEMENT, TYPE_REFS_XML_FRAGMENT, TYPE_REFS_XML_HOOK, TYPE_REFS_XML_TEXT,
};
pub use doc::{Doc, Text};
pub use id::{ClientID, ID};
pub use id_set::{DeleteSet, IdSet, Range};
pub use roundtrip::{roundtrip_v1, roundtrip_v2};
pub use state_vector::StateVector;
pub use store::Store;
pub use update::{ClientBlocks, Update};
pub use value::Value;
