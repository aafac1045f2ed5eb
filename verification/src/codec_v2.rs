//! The second binary format of updates: reading.
//!
//! The format begins with a flag that is zero. Nine columns follow, each
//! with its length in front: the clocks of keys, the clients, the clocks
//! of left neighbours, the clocks of right neighbours, the info bytes,
//! the strings, the flags of containers, the kinds of containers, and the
//! lengths. What remains holds the numbers of runs and blocks, the first
//! clocks, the scalar values and the delete set.

use crate::block::{
    kind_has_name, Branch, BranchView, ContentView, Item, ItemContent, ItemView, TypePtr,
    TypePtrView, TYPE_REFS_XML_TEXT,
};
use crate::codec_v1::{
    anys_at, info_kind, info_left, info_right, info_sub, prepend, read_anys, REF_ANY, REF_DELETED,
    REF_STRING, REF_TYPE,
};
use crate::columns::{
    diff_col, rle_col, str_col, uint_col, DiffCursor, RleCursor, StringCursor, UintCursor,
};
use crate::id::{ClientID, ID};
use crate::id_set::{
    ids_ranges_ok, ids_wf, same_ids, ClientRanges, IdSet, IdSetView, Range,
};
use crate::text::{note_writable, opt_text, writable};
use crate::update::{
    all_wire_form, blocks_view, blocks_wf, blocks_wire_form, chain, chain_end, ids_sized,
    items_view, lemma_chain_push, ClientBlocks, ClientBlocksView, Update, UpdateView,
};
use crate::varint::{read_span, read_u32, read_u64, span_at, u32_at, u64_at};
use vstd::prelude::*;
use vstd::slice::slice_subrange;

verus! {

/// What the columns hold, column by column.
#[verifier::ext_equal]
pub struct Streams {
    pub key_clock: Seq<u32>,
    pub client: Seq<u64>,
    pub left_clock: Seq<u32>,
    pub right_clock: Seq<u32>,
    pub info: Seq<u8>,
    pub strings: Seq<Seq<char>>,
    pub parent_info: Seq<u8>,
    pub type_ref: Seq<u64>,
    pub len: Seq<u64>,
}

/// The first value of a column and the column behind it.
pub open spec fn take<T>(c: Seq<T>) -> Option<(T, Seq<T>)> {
    if c.len() > 0 {
        Some((c[0], c.drop_first()))
    } else {
        None
    }
}

/// Where a column stands in the buffer.
#[derive(Clone, Copy)]
pub struct Span {
    pub from: usize,
    pub to: usize,
}

impl Span {
    pub open spec fn wf(self, s: Seq<u8>) -> bool {
        self.from <= self.to <= s.len()
    }

    /// The bytes of the column.
    pub open spec fn of(self, s: Seq<u8>) -> Seq<u8> {
        s.subrange(self.from as int, self.to as int)
    }
}

/// The places of the nine columns.
pub struct Spans {
    pub key_clock: Span,
    pub client: Span,
    pub left_clock: Span,
    pub right_clock: Span,
    pub info: Span,
    pub strings: Span,
    pub parent_info: Span,
    pub type_ref: Span,
    pub len: Span,
}

/// One column behind the position `pos`.
pub open spec fn col_at(s: Seq<u8>, pos: int) -> Option<(Span, int)> {
    match span_at(s, pos) {
        Some((from, to)) => Some((Span { from: from as usize, to: to as usize }, to)),
        None => None,
    }
}

/// The places of the columns, and the position behind them.
pub open spec fn header_at(s: Seq<u8>) -> Option<(Spans, int)> {
    match u64_at(s, 0) {
        Some((flag, at0)) => if flag != 0 {
            None
        } else {
            match col_at(s, at0) {
                Some((key_clock, at1)) => match col_at(s, at1) {
                    Some((client, at2)) => match col_at(s, at2) {
                        Some((left_clock, at3)) => match col_at(s, at3) {
                            Some((right_clock, at4)) => match col_at(s, at4) {
                                Some((info, at5)) => match col_at(s, at5) {
                                    Some((strings, at6)) => match col_at(s, at6) {
                                        Some((parent_info, at7)) => match col_at(s, at7) {
                                            Some((type_ref, at8)) => match col_at(s, at8) {
                                                Some((len, at9)) => Some(
                                                    (
                                                        Spans {
                                                            key_clock,
                                                            client,
                                                            left_clock,
                                                            right_clock,
                                                            info,
                                                            strings,
                                                            parent_info,
                                                            type_ref,
                                                            len,
                                                        },
                                                        at9,
                                                    ),
                                                ),
                                                None => None,
                                            },
                                            None => None,
                                        },
                                        None => None,
                                    },
                                    None => None,
                                },
                                None => None,
                            },
                            None => None,
                        },
                        None => None,
                    },
                    None => None,
                },
                None => None,
            }
        },
        None => None,
    }
}

/// What the columns at the places `sp` hold.
pub open spec fn streams_of(s: Seq<u8>, sp: Spans) -> Streams {
    Streams {
        key_clock: diff_col(sp.key_clock.of(s)),
        client: uint_col(sp.client.of(s)),
        left_clock: diff_col(sp.left_clock.of(s)),
        right_clock: diff_col(sp.right_clock.of(s)),
        info: rle_col(sp.info.of(s)),
        strings: str_col(sp.strings.of(s)),
        parent_info: rle_col(sp.parent_info.of(s)),
        type_ref: uint_col(sp.type_ref.of(s)),
        len: uint_col(sp.len.of(s)),
    }
}

/// An identifier: the next client and the next clock of left neighbours.
pub open spec fn left_id_v2(st: Streams) -> Option<(ID, Streams)> {
    match take(st.client) {
        Some((client, c)) => match take(st.left_clock) {
            Some((clock, l)) => Some(
                (ID { client, clock }, Streams { client: c, left_clock: l, ..st }),
            ),
            None => None,
        },
        None => None,
    }
}

/// An identifier: the next client and the next clock of right neighbours.
pub open spec fn right_id_v2(st: Streams) -> Option<(ID, Streams)> {
    match take(st.client) {
        Some((client, c)) => match take(st.right_clock) {
            Some((clock, l)) => Some(
                (ID { client, clock }, Streams { client: c, right_clock: l, ..st }),
            ),
            None => None,
        },
        None => None,
    }
}

pub open spec fn opt_left_id_v2(st: Streams, present: bool) -> Option<(Option<ID>, Streams)> {
    if present {
        match left_id_v2(st) {
            Some((id, t)) => Some((Some(id), t)),
            None => None,
        }
    } else {
        Some((None, st))
    }
}

pub open spec fn opt_right_id_v2(st: Streams, present: bool) -> Option<(Option<ID>, Streams)> {
    if present {
        match right_id_v2(st) {
            Some((id, t)) => Some((Some(id), t)),
            None => None,
        }
    } else {
        Some((None, st))
    }
}

/// The next string.
pub open spec fn str_v2(st: Streams) -> Option<(Seq<char>, Streams)> {
    match take(st.strings) {
        Some((v, c)) => Some((v, Streams { strings: c, ..st })),
        None => None,
    }
}

pub open spec fn opt_str_v2(st: Streams, present: bool) -> Option<(Option<Seq<char>>, Streams)> {
    if present {
        match str_v2(st) {
            Some((v, t)) => Some((Some(v), t)),
            None => None,
        }
    } else {
        Some((None, st))
    }
}

/// A key: the next clock of keys, and the key read under that clock
/// before, or else the next string, which is kept under the clock.
pub open spec fn key_v2(st: Streams, keys: Seq<Seq<char>>) -> Option<
    (Seq<char>, Streams, Seq<Seq<char>>),
> {
    match take(st.key_clock) {
        Some((k, c)) => {
            let t = Streams { key_clock: c, ..st };
            if k < keys.len() {
                Some((keys[k as int], t, keys))
            } else {
                match str_v2(t) {
                    Some((v, t2)) => Some((v, t2, keys.push(v))),
                    None => None,
                }
            }
        },
        None => None,
    }
}

/// The content of the kind `kind`.
pub open spec fn content_v2(s: Seq<u8>, pos: int, st: Streams, keys: Seq<Seq<char>>, kind: u8)
    -> Option<(ContentView, int, Streams, Seq<Seq<char>>)> {
    if kind == REF_DELETED {
        match take(st.len) {
            Some((n, c)) => if n <= u32::MAX {
                Some((ContentView::Deleted(n as u32), pos, Streams { len: c, ..st }, keys))
            } else {
                None
            },
            None => None,
        }
    } else if kind == REF_STRING {
        match str_v2(st) {
            Some((v, t)) => if writable(v) {
                Some((ContentView::String(v), pos, t, keys))
            } else {
                None
            },
            None => None,
        }
    } else if kind == REF_TYPE {
        match take(st.type_ref) {
            Some((t, c)) => {
                let st2 = Streams { type_ref: c, ..st };
                if t > TYPE_REFS_XML_TEXT {
                    None
                } else if kind_has_name(t as u8) {
                    match key_v2(st2, keys) {
                        Some((name, st3, keys2)) => if writable(name) {
                            Some(
                                (
                                    ContentView::Type(
                                        BranchView { type_ref: t as u8, name: Some(name) },
                                    ),
                                    pos,
                                    st3,
                                    keys2,
                                ),
                            )
                        } else {
                            None
                        },
                        None => None,
                    }
                } else {
                    Some(
                        (
                            ContentView::Type(BranchView { type_ref: t as u8, name: None }),
                            pos,
                            st2,
                            keys,
                        ),
                    )
                }
            },
            None => None,
        }
    } else if kind == REF_ANY {
        match take(st.len) {
            Some((n, c)) => match anys_at(s, pos, n as nat) {
                Some((vs, q)) => Some((ContentView::Any(vs), q, Streams { len: c, ..st }, keys)),
                None => None,
            },
            None => None,
        }
    } else {
        None
    }
}

/// The container that a block names: a flag, then the name of a root
/// where the flag is one, or the identifier of a block where it is zero.
pub open spec fn parent_v2(st: Streams) -> Option<(TypePtrView, Streams)> {
    match take(st.parent_info) {
        Some((flag, c)) => {
            let t = Streams { parent_info: c, ..st };
            if flag == 1 {
                match str_v2(t) {
                    Some((name, t2)) => if writable(name) {
                        Some((TypePtrView::Named(name), t2))
                    } else {
                        None
                    },
                    None => None,
                }
            } else if flag == 0 {
                match left_id_v2(t) {
                    Some((id, t2)) => Some((TypePtrView::Id(id), t2)),
                    None => None,
                }
            } else {
                None
            }
        },
        None => None,
    }
}

/// Container and key of a block that names no neighbour.
pub open spec fn naming_v2(st: Streams, has_origin: bool, has_sub: bool) -> Option<
    ((TypePtrView, Option<Seq<char>>), Streams),
> {
    if has_origin {
        Some(((TypePtrView::Unknown, None), st))
    } else {
        match parent_v2(st) {
            Some((parent, t)) => match opt_str_v2(t, has_sub) {
                Some((sub, t2)) => if sub matches Some(k) && !writable(k) {
                    None
                } else {
                    Some(((parent, sub), t2))
                },
                None => None,
            },
            None => None,
        }
    }
}

/// The block with the identifier `id`.
#[verifier::opaque]
pub open spec fn item_v2(s: Seq<u8>, pos: int, st: Streams, keys: Seq<Seq<char>>, id: ID) -> Option<
    (ItemView, int, Streams, Seq<Seq<char>>),
> {
    match take(st.info) {
        Some((info, c)) => {
            let t0 = Streams { info: c, ..st };
            match opt_left_id_v2(t0, info_left(info)) {
                Some((origin, t1)) => match opt_right_id_v2(t1, info_right(info)) {
                    Some((right_origin, t2)) => match naming_v2(
                        t2,
                        info_left(info) || info_right(info),
                        info_sub(info),
                    ) {
                        Some(((parent, parent_sub), t3)) => match content_v2(
                            s,
                            pos,
                            t3,
                            keys,
                            info_kind(info),
                        ) {
                            Some((content, q, t4, keys2)) => if content.len() >= 1 && id.clock
                                + content.len() <= u32::MAX {
                                Some(
                                    (
                                        ItemView {
                                            id,
                                            origin,
                                            right_origin,
                                            parent,
                                            parent_sub,
                                            content,
                                        },
                                        q,
                                        t4,
                                        keys2,
                                    ),
                                )
                            } else {
                                None
                            },
                            None => None,
                        },
                        None => None,
                    },
                    None => None,
                },
                None => None,
            }
        },
        None => None,
    }
}

/// A reader of the columns.
pub struct DecoderV2 {
    pub spans: Spans,
    pub key_clock: DiffCursor,
    pub client: UintCursor,
    pub left_clock: DiffCursor,
    pub right_clock: DiffCursor,
    pub info: RleCursor,
    pub strings: StringCursor,
    pub parent_info: RleCursor,
    pub type_ref: UintCursor,
    pub len: UintCursor,
    /// The keys read so far, each under its clock.
    pub keys: Vec<String>,
}

/// The characters of each of the keys.
pub open spec fn keys_view(v: Seq<String>) -> Seq<Seq<char>> {
    Seq::new(v.len(), |i: int| v[i]@)
}

impl DecoderV2 {
    pub open spec fn wf(&self, s: Seq<u8>) -> bool {
        &&& self.spans.key_clock.wf(s)
        &&& self.spans.client.wf(s)
        &&& self.spans.left_clock.wf(s)
        &&& self.spans.right_clock.wf(s)
        &&& self.spans.info.wf(s)
        &&& self.spans.strings.wf(s)
        &&& self.spans.parent_info.wf(s)
        &&& self.spans.type_ref.wf(s)
        &&& self.spans.len.wf(s)
        &&& self.strings.wf()
    }

    /// What the columns still hold.
    pub open spec fn view(&self, s: Seq<u8>) -> Streams {
        Streams {
            key_clock: self.key_clock.rest(self.spans.key_clock.of(s)),
            client: self.client.rest(self.spans.client.of(s)),
            left_clock: self.left_clock.rest(self.spans.left_clock.of(s)),
            right_clock: self.right_clock.rest(self.spans.right_clock.of(s)),
            info: self.info.rest(self.spans.info.of(s)),
            strings: self.strings.rest(self.spans.strings.of(s)),
            parent_info: self.parent_info.rest(self.spans.parent_info.of(s)),
            type_ref: self.type_ref.rest(self.spans.type_ref.of(s)),
            len: self.len.rest(self.spans.len.of(s)),
        }
    }
}

/// Reads the place of one column.
fn read_col(buf: &[u8], pos: usize) -> (r: Option<(Span, usize)>)
    ensures
        match r {
            Some((sp, q)) => col_at(buf@, pos as int) == Some((sp, q as int)) && sp.wf(buf@) && pos
                < q <= buf.len(),
            None => col_at(buf@, pos as int) is None,
        },
{
    match read_span(buf, pos) {
        Some((from, to)) => Some((Span { from, to }, to)),
        None => None,
    }
}

/// The bytes of a column.
fn col<'a>(buf: &'a [u8], sp: Span) -> (r: &'a [u8])
    requires
        sp.wf(buf@),
    ensures
        r@ == sp.of(buf@),
{
    slice_subrange(buf, sp.from, sp.to)
}

impl DecoderV2 {
    /// A reader at the start of the columns of a buffer, and the position
    /// behind the columns.
    pub fn new(buf: &[u8]) -> (r: Option<(DecoderV2, usize)>)
        ensures
            match r {
                Some((d, q)) => header_at(buf@) == Some((d.spans, q as int)) && d.wf(buf@)
                    && d.view(buf@) == streams_of(buf@, d.spans) && d.keys.len() == 0 && q
                    <= buf.len(),
                None => header_at(buf@) is None,
            },
    {
        let (flag, at0) = match read_u64(buf, 0) {
            Some(x) => x,
            None => {
                return None;
            },
        };
        if flag != 0 {
            return None;
        }
        let (key_clock, at1) = match read_col(buf, at0) {
            Some(x) => x,
            None => {
                return None;
            },
        };
        let (client, at2) = match read_col(buf, at1) {
            Some(x) => x,
            None => {
                return None;
            },
        };
        let (left_clock, at3) = match read_col(buf, at2) {
            Some(x) => x,
            None => {
                return None;
            },
        };
        let (right_clock, at4) = match read_col(buf, at3) {
            Some(x) => x,
            None => {
                return None;
            },
        };
        let (info, at5) = match read_col(buf, at4) {
            Some(x) => x,
            None => {
                return None;
            },
        };
        let (strings, at6) = match read_col(buf, at5) {
            Some(x) => x,
            None => {
                return None;
            },
        };
        let (parent_info, at7) = match read_col(buf, at6) {
            Some(x) => x,
            None => {
                return None;
            },
        };
        let (type_ref, at8) = match read_col(buf, at7) {
            Some(x) => x,
            None => {
                return None;
            },
        };
        let (len, at9) = match read_col(buf, at8) {
            Some(x) => x,
            None => {
                return None;
            },
        };
        let cursor = StringCursor::new(col(buf, strings));
        let d = DecoderV2 {
            spans: Spans {
                key_clock,
                client,
                left_clock,
                right_clock,
                info,
                strings,
                parent_info,
                type_ref,
                len,
            },
            key_clock: DiffCursor::new(),
            client: UintCursor::new(),
            left_clock: DiffCursor::new(),
            right_clock: DiffCursor::new(),
            info: RleCursor::new(),
            strings: cursor,
            parent_info: RleCursor::new(),
            type_ref: UintCursor::new(),
            len: UintCursor::new(),
            keys: Vec::new(),
        };
        Some((d, at9))
    }

    fn read_client(&mut self, buf: &[u8]) -> (r: Option<u64>)
        requires
            old(self).wf(buf@),
        ensures
            final(self).wf(buf@),
            final(self).keys == old(self).keys,
            final(self).spans == old(self).spans,
            match r {
                Some(v) => take(old(self).view(buf@).client) == Some(
                    (v, final(self).view(buf@).client),
                ) && final(self).view(buf@) == (Streams {
                    client: final(self).view(buf@).client,
                    ..old(self).view(buf@)
                }),
                None => take(old(self).view(buf@).client) is None,
            },
    {
        self.client.next(col(buf, self.spans.client))
    }

    fn read_left_clock(&mut self, buf: &[u8]) -> (r: Option<u32>)
        requires
            old(self).wf(buf@),
        ensures
            final(self).wf(buf@),
            final(self).keys == old(self).keys,
            final(self).spans == old(self).spans,
            match r {
                Some(v) => take(old(self).view(buf@).left_clock) == Some(
                    (v, final(self).view(buf@).left_clock),
                ) && final(self).view(buf@) == (Streams {
                    left_clock: final(self).view(buf@).left_clock,
                    ..old(self).view(buf@)
                }),
                None => take(old(self).view(buf@).left_clock) is None,
            },
    {
        self.left_clock.next(col(buf, self.spans.left_clock))
    }

    fn read_right_clock(&mut self, buf: &[u8]) -> (r: Option<u32>)
        requires
            old(self).wf(buf@),
        ensures
            final(self).wf(buf@),
            final(self).keys == old(self).keys,
            final(self).spans == old(self).spans,
            match r {
                Some(v) => take(old(self).view(buf@).right_clock) == Some(
                    (v, final(self).view(buf@).right_clock),
                ) && final(self).view(buf@) == (Streams {
                    right_clock: final(self).view(buf@).right_clock,
                    ..old(self).view(buf@)
                }),
                None => take(old(self).view(buf@).right_clock) is None,
            },
    {
        self.right_clock.next(col(buf, self.spans.right_clock))
    }

    fn read_key_clock(&mut self, buf: &[u8]) -> (r: Option<u32>)
        requires
            old(self).wf(buf@),
        ensures
            final(self).wf(buf@),
            final(self).keys == old(self).keys,
            final(self).spans == old(self).spans,
            match r {
                Some(v) => take(old(self).view(buf@).key_clock) == Some(
                    (v, final(self).view(buf@).key_clock),
                ) && final(self).view(buf@) == (Streams {
                    key_clock: final(self).view(buf@).key_clock,
                    ..old(self).view(buf@)
                }),
                None => take(old(self).view(buf@).key_clock) is None,
            },
    {
        self.key_clock.next(col(buf, self.spans.key_clock))
    }

    fn read_info(&mut self, buf: &[u8]) -> (r: Option<u8>)
        requires
            old(self).wf(buf@),
        ensures
            final(self).wf(buf@),
            final(self).keys == old(self).keys,
            final(self).spans == old(self).spans,
            match r {
                Some(v) => take(old(self).view(buf@).info) == Some((v, final(self).view(buf@).info))
                    && final(self).view(buf@) == (Streams {
                    info: final(self).view(buf@).info,
                    ..old(self).view(buf@)
                }),
                None => take(old(self).view(buf@).info) is None,
            },
    {
        self.info.next(col(buf, self.spans.info))
    }

    fn read_parent_info(&mut self, buf: &[u8]) -> (r: Option<u8>)
        requires
            old(self).wf(buf@),
        ensures
            final(self).wf(buf@),
            final(self).keys == old(self).keys,
            final(self).spans == old(self).spans,
            match r {
                Some(v) => take(old(self).view(buf@).parent_info) == Some(
                    (v, final(self).view(buf@).parent_info),
                ) && final(self).view(buf@) == (Streams {
                    parent_info: final(self).view(buf@).parent_info,
                    ..old(self).view(buf@)
                }),
                None => take(old(self).view(buf@).parent_info) is None,
            },
    {
        self.parent_info.next(col(buf, self.spans.parent_info))
    }

    fn read_type_ref(&mut self, buf: &[u8]) -> (r: Option<u64>)
        requires
            old(self).wf(buf@),
        ensures
            final(self).wf(buf@),
            final(self).keys == old(self).keys,
            final(self).spans == old(self).spans,
            match r {
                Some(v) => take(old(self).view(buf@).type_ref) == Some(
                    (v, final(self).view(buf@).type_ref),
                ) && final(self).view(buf@) == (Streams {
                    type_ref: final(self).view(buf@).type_ref,
                    ..old(self).view(buf@)
                }),
                None => take(old(self).view(buf@).type_ref) is None,
            },
    {
        self.type_ref.next(col(buf, self.spans.type_ref))
    }

    fn read_len(&mut self, buf: &[u8]) -> (r: Option<u64>)
        requires
            old(self).wf(buf@),
        ensures
            final(self).wf(buf@),
            final(self).keys == old(self).keys,
            final(self).spans == old(self).spans,
            match r {
                Some(v) => take(old(self).view(buf@).len) == Some((v, final(self).view(buf@).len))
                    && final(self).view(buf@) == (Streams {
                    len: final(self).view(buf@).len,
                    ..old(self).view(buf@)
                }),
                None => take(old(self).view(buf@).len) is None,
            },
    {
        self.len.next(col(buf, self.spans.len))
    }

    fn read_str(&mut self, buf: &[u8]) -> (r: Option<String>)
        requires
            old(self).wf(buf@),
        ensures
            final(self).wf(buf@),
            final(self).keys == old(self).keys,
            final(self).spans == old(self).spans,
            match r {
                Some(v) => str_v2(old(self).view(buf@)) == Some((v@, final(self).view(buf@))),
                None => str_v2(old(self).view(buf@)) is None,
            },
    {
        self.strings.next(col(buf, self.spans.strings))
    }
}

/// A list read from the columns, with `a` put in front of it.
pub open spec fn prepend_v2<T>(
    a: Seq<T>,
    r: Option<(Seq<T>, int, Streams, Seq<Seq<char>>)>,
) -> Option<(Seq<T>, int, Streams, Seq<Seq<char>>)> {
    match r {
        Some((t, q, st, keys)) => Some((a + t, q, st, keys)),
        None => None,
    }
}

pub proof fn lemma_prepend_v2<T>(
    a: Seq<T>,
    x: T,
    r: Option<(Seq<T>, int, Streams, Seq<Seq<char>>)>,
)
    ensures
        prepend_v2(a, prepend_v2(seq![x], r)) == prepend_v2(a.push(x), r),
{
    match r {
        Some((t, q, st, keys)) => {
            assert(a + (seq![x] + t) =~= a.push(x) + t);
        },
        None => {},
    }
}

/// `n` blocks of `client` in a row, from the clock `clock` on.
#[verifier::opaque]
pub open spec fn items_v2(
    s: Seq<u8>,
    pos: int,
    st: Streams,
    keys: Seq<Seq<char>>,
    n: nat,
    client: ClientID,
    clock: u32,
) -> Option<(Seq<ItemView>, int, Streams, Seq<Seq<char>>)>
    decreases n,
{
    if n == 0 {
        Some((Seq::empty(), pos, st, keys))
    } else {
        match item_v2(s, pos, st, keys, ID { client, clock }) {
            Some((it, q, st2, keys2)) => prepend_v2(
                seq![it],
                items_v2(s, q, st2, keys2, (n - 1) as nat, client, it.end() as u32),
            ),
            None => None,
        }
    }
}

/// One run of blocks: the number of blocks and the first clock stand
/// behind the columns, the client in its column.
pub open spec fn section_v2(s: Seq<u8>, pos: int, st: Streams, keys: Seq<Seq<char>>) -> Option<
    (ClientBlocksView, int, Streams, Seq<Seq<char>>),
> {
    match u64_at(s, pos) {
        Some((n, q1)) => match take(st.client) {
            Some((client, c)) => match u32_at(s, q1) {
                Some((clock, q2)) => match items_v2(
                    s,
                    q2,
                    Streams { client: c, ..st },
                    keys,
                    n as nat,
                    client,
                    clock,
                ) {
                    Some((items, q3, st2, keys2)) => Some(
                        (ClientBlocksView { client, clock, items }, q3, st2, keys2),
                    ),
                    None => None,
                },
                None => None,
            },
            None => None,
        },
        None => None,
    }
}

#[verifier::opaque]
pub open spec fn sections_v2(s: Seq<u8>, pos: int, st: Streams, keys: Seq<Seq<char>>, n: nat)
    -> Option<(Seq<ClientBlocksView>, int, Streams, Seq<Seq<char>>)>
    decreases n,
{
    if n == 0 {
        Some((Seq::empty(), pos, st, keys))
    } else {
        match section_v2(s, pos, st, keys) {
            Some((b, q, st2, keys2)) => prepend_v2(
                seq![b],
                sections_v2(s, q, st2, keys2, (n - 1) as nat),
            ),
            None => None,
        }
    }
}

/// The runs of blocks of an update.
pub open spec fn blocks_v2(s: Seq<u8>, pos: int, st: Streams, keys: Seq<Seq<char>>) -> Option<
    (Seq<ClientBlocksView>, int, Streams, Seq<Seq<char>>),
> {
    match u64_at(s, pos) {
        Some((n, q)) => sections_v2(s, q, st, keys, n as nat),
        None => None,
    }
}

/// A range of a delete set: how far it begins behind the end `cur` of the
/// range before it, then its length less one.
pub open spec fn range_v2(s: Seq<u8>, pos: int, cur: int) -> Option<(Range, int)> {
    match u64_at(s, pos) {
        Some((gap, q1)) => match u64_at(s, q1) {
            Some((l, q2)) => if cur + gap + l + 1 <= u32::MAX {
                Some((Range { start: (cur + gap) as u32, len: (l + 1) as u32 }, q2))
            } else {
                None
            },
            None => None,
        },
        None => None,
    }
}

#[verifier::opaque]
pub open spec fn ranges_v2(s: Seq<u8>, pos: int, n: nat, cur: int) -> Option<(Seq<Range>, int)>
    decreases n,
{
    if n == 0 {
        Some((Seq::empty(), pos))
    } else {
        match range_v2(s, pos, cur) {
            Some((r, q)) => prepend(seq![r], ranges_v2(s, q, (n - 1) as nat, r.end())),
            None => None,
        }
    }
}

/// The ranges of one client.
pub open spec fn entry_v2(s: Seq<u8>, pos: int) -> Option<((ClientID, Seq<Range>), int)> {
    match u64_at(s, pos) {
        Some((client, q1)) => match u64_at(s, q1) {
            Some((n, q2)) => match ranges_v2(s, q2, n as nat, 0) {
                Some((rs, q3)) => Some(((client, rs), q3)),
                None => None,
            },
            None => None,
        },
        None => None,
    }
}

#[verifier::opaque]
pub open spec fn entries_v2(s: Seq<u8>, pos: int, n: nat) -> Option<(IdSetView, int)>
    decreases n,
{
    if n == 0 {
        Some((Seq::empty(), pos))
    } else {
        match entry_v2(s, pos) {
            Some((e, q)) => prepend(seq![e], entries_v2(s, q, (n - 1) as nat)),
            None => None,
        }
    }
}

/// A delete set.
pub open spec fn ds_v2(s: Seq<u8>, pos: int) -> Option<(IdSetView, int)> {
    match u64_at(s, pos) {
        Some((n, q)) => entries_v2(s, q, n as nat),
        None => None,
    }
}

/// The update that the bytes hold in the second format: the runs of
/// blocks and the ranges of the delete set as they are written. Bytes that
/// hold more than one update hold none.
pub open spec fn update_at_v2(s: Seq<u8>) -> Option<UpdateView> {
    match header_at(s) {
        Some((sp, p)) => match blocks_v2(s, p, streams_of(s, sp), Seq::empty()) {
            Some((blocks, q, st, keys)) => match ds_v2(s, q) {
                Some((delete_set, q2)) => if q2 == s.len() {
                    Some(UpdateView { blocks, delete_set })
                } else {
                    None
                },
                None => None,
            },
            None => None,
        },
        None => None,
    }
}

impl DecoderV2 {
    fn read_left_id(&mut self, buf: &[u8]) -> (r: Option<ID>)
        requires
            old(self).wf(buf@),
        ensures
            final(self).wf(buf@),
            final(self).keys == old(self).keys,
            final(self).spans == old(self).spans,
            match r {
                Some(v) => left_id_v2(old(self).view(buf@)) == Some((v, final(self).view(buf@))),
                None => left_id_v2(old(self).view(buf@)) is None,
            },
    {
        let client: u64 = match self.read_client(buf) {
            Some(x) => x,
            None => {
                return None;
            },
        };
        let clock: u32 = match self.read_left_clock(buf) {
            Some(x) => x,
            None => {
                return None;
            },
        };
        Some(ID { client, clock })
    }

    fn read_right_id(&mut self, buf: &[u8]) -> (r: Option<ID>)
        requires
            old(self).wf(buf@),
        ensures
            final(self).wf(buf@),
            final(self).keys == old(self).keys,
            final(self).spans == old(self).spans,
            match r {
                Some(v) => right_id_v2(old(self).view(buf@)) == Some((v, final(self).view(buf@))),
                None => right_id_v2(old(self).view(buf@)) is None,
            },
    {
        let client: u64 = match self.read_client(buf) {
            Some(x) => x,
            None => {
                return None;
            },
        };
        let clock: u32 = match self.read_right_clock(buf) {
            Some(x) => x,
            None => {
                return None;
            },
        };
        Some(ID { client, clock })
    }

    fn read_key(&mut self, buf: &[u8]) -> (r: Option<String>)
        requires
            old(self).wf(buf@),
        ensures
            final(self).wf(buf@),
            final(self).spans == old(self).spans,
            match r {
                Some(v) => key_v2(old(self).view(buf@), keys_view(old(self).keys@)) == Some(
                    (v@, final(self).view(buf@), keys_view(final(self).keys@)),
                ),
                None => key_v2(old(self).view(buf@), keys_view(old(self).keys@)) is None,
            },
    {
        let k: u32 = match self.read_key_clock(buf) {
            Some(x) => x,
            None => {
                return None;
            },
        };
        if (k as usize) < self.keys.len() {
            assert(keys_view(self.keys@)[k as int] == self.keys[k as int]@);
            Some(self.keys[k as usize].clone())
        } else {
            let v: String = match self.read_str(buf) {
                Some(x) => x,
                None => {
                    return None;
                },
            };
            let ghost before = keys_view(self.keys@);
            self.keys.push(v.clone());
            assert(keys_view(self.keys@) =~= before.push(v@));
            Some(v)
        }
    }

    /// Reads content of the kind `kind`.
    fn read_content(&mut self, buf: &[u8], pos: usize, kind: u8) -> (r: Option<
        (ItemContent, usize),
    >)
        requires
            old(self).wf(buf@),
            pos <= buf.len(),
        ensures
            final(self).wf(buf@),
            final(self).spans == old(self).spans,
            match r {
                Some((v, q)) => content_v2(
                    buf@,
                    pos as int,
                    old(self).view(buf@),
                    keys_view(old(self).keys@),
                    kind,
                ) == Some((v@, q as int, final(self).view(buf@), keys_view(final(self).keys@)))
                    && pos <= q <= buf.len() && v.wf(),
                None => content_v2(
                    buf@,
                    pos as int,
                    old(self).view(buf@),
                    keys_view(old(self).keys@),
                    kind,
                ) is None,
            },
    {
        if kind == REF_DELETED {
            match self.read_len(buf) {
                Some(n) => if n <= u32::MAX as u64 {
                    Some((ItemContent::Deleted(n as u32), pos))
                } else {
                    None
                },
                None => None,
            }
        } else if kind == REF_STRING {
            match self.read_str(buf) {
                Some(v) => {
                    note_writable(v.as_str());
                    Some((ItemContent::String(v), pos))
                },
                None => None,
            }
        } else if kind == REF_TYPE {
            match self.read_type_ref(buf) {
                Some(t) => {
                    if t > TYPE_REFS_XML_TEXT as u64 {
                        None
                    } else if t == 3 || t == 5 {
                        match self.read_key(buf) {
                            Some(name) => {
                                note_writable(name.as_str());
                                Some(
                                    (
                                        ItemContent::Type(
                                            Branch { type_ref: t as u8, name: Some(name) },
                                        ),
                                        pos,
                                    ),
                                )
                            },
                            None => None,
                        }
                    } else {
                        Some((ItemContent::Type(Branch { type_ref: t as u8, name: None }), pos))
                    }
                },
                None => None,
            }
        } else if kind == REF_ANY {
            match self.read_len(buf) {
                Some(n) => match read_anys(buf, pos, n) {
                    Some((vs, q)) => Some((ItemContent::Any(vs), q)),
                    None => None,
                },
                None => None,
            }
        } else {
            None
        }
    }

    fn read_naming(&mut self, buf: &[u8], has_origin: bool, has_sub: bool) -> (r: Option<
        (TypePtr, Option<String>),
    >)
        requires
            old(self).wf(buf@),
        ensures
            final(self).wf(buf@),
            final(self).keys == old(self).keys,
            final(self).spans == old(self).spans,
            match r {
                Some((p, k)) => naming_v2(old(self).view(buf@), has_origin, has_sub) == Some(
                    ((p@, opt_text(k)), final(self).view(buf@)),
                ) && (!has_origin ==> !(p@ is Unknown)) && (has_origin ==> p@ is Unknown && k is None)
                    && (p matches TypePtr::Named(n) ==> writable(n@)) && (k matches Some(x)
                    ==> writable(x@)),
                None => naming_v2(old(self).view(buf@), has_origin, has_sub) is None,
            },
    {
        if has_origin {
            return Some((TypePtr::Unknown, None));
        }
        let flag: u8 = match self.read_parent_info(buf) {
            Some(x) => x,
            None => {
                return None;
            },
        };
        let parent: TypePtr = if flag == 1 {
            match self.read_str(buf) {
                Some(name) => {
                    note_writable(name.as_str());
                    TypePtr::Named(name)
                },
                None => {
                    return None;
                },
            }
        } else if flag == 0 {
            match self.read_left_id(buf) {
                Some(id) => TypePtr::Id(id),
                None => {
                    return None;
                },
            }
        } else {
            return None;
        };
        let sub: Option<String> = if has_sub {
            match self.read_str(buf) {
                Some(k) => {
                    note_writable(k.as_str());
                    Some(k)
                },
                None => {
                    return None;
                },
            }
        } else {
            None
        };
        Some((parent, sub))
    }

    /// Reads the block with the identifier `id`.
    pub fn read_item(&mut self, buf: &[u8], pos: usize, id: ID) -> (r: Option<(Item, usize)>)
        requires
            old(self).wf(buf@),
            pos <= buf.len(),
        ensures
            final(self).wf(buf@),
            final(self).spans == old(self).spans,
            match r {
                Some((v, q)) => item_v2(
                    buf@,
                    pos as int,
                    old(self).view(buf@),
                    keys_view(old(self).keys@),
                    id,
                ) == Some((v@, q as int, final(self).view(buf@), keys_view(final(self).keys@)))
                    && pos <= q <= buf.len() && v.wf() && v@.wire_form() && v@.id == id,
                None => item_v2(
                    buf@,
                    pos as int,
                    old(self).view(buf@),
                    keys_view(old(self).keys@),
                    id,
                ) is None,
            },
    {
        proof {
            reveal(item_v2);
        }
        let info: u8 = match self.read_info(buf) {
            Some(x) => x,
            None => {
                return None;
            },
        };
        let kind: u8 = info % 32;
        let has_sub: bool = (info / 32) % 2 == 1;
        let has_right: bool = (info / 64) % 2 == 1;
        let has_left: bool = info >= 128;
        let origin: Option<ID> = if has_left {
            match self.read_left_id(buf) {
                Some(x) => Some(x),
                None => {
                    return None;
                },
            }
        } else {
            None
        };
        let right_origin: Option<ID> = if has_right {
            match self.read_right_id(buf) {
                Some(x) => Some(x),
                None => {
                    return None;
                },
            }
        } else {
            None
        };
        let (parent, parent_sub) = match self.read_naming(buf, has_left || has_right, has_sub) {
            Some(x) => x,
            None => {
                return None;
            },
        };
        let (content, q) = match self.read_content(buf, pos, kind) {
            Some(x) => x,
            None => {
                return None;
            },
        };
        let n: usize = content.len();
        if n < 1 || n > (u32::MAX - id.clock) as usize {
            return None;
        }
        Some((Item { id, origin, right_origin, parent, parent_sub, content }, q))
    }

    /// Reads `n` blocks of `client` from the clock `clock` on.
    pub fn read_items(&mut self, buf: &[u8], pos: usize, n: u64, client: ClientID, clock: u32) -> (r:
        Option<(Vec<Item>, usize)>)
        requires
            old(self).wf(buf@),
            pos <= buf.len(),
        ensures
            final(self).wf(buf@),
            final(self).spans == old(self).spans,
            match r {
                Some((v, q)) => items_v2(
                    buf@,
                    pos as int,
                    old(self).view(buf@),
                    keys_view(old(self).keys@),
                    n as nat,
                    client,
                    clock,
                ) == Some(
                    (items_view(v@), q as int, final(self).view(buf@), keys_view(final(self).keys@)),
                ) && pos <= q <= buf.len() && chain(items_view(v@), client, clock as int)
                    && all_wire_form(items_view(v@)) && v.len() == n,
                None => items_v2(
                    buf@,
                    pos as int,
                    old(self).view(buf@),
                    keys_view(old(self).keys@),
                    n as nat,
                    client,
                    clock,
                ) is None,
            },
    {
        let mut out: Vec<Item> = Vec::new();
        let mut at: usize = pos;
        let mut left: u64 = n;
        let mut now: u32 = clock;
        let ghost s = buf@;
        let ghost goal = items_v2(
            s,
            pos as int,
            self.view(s),
            keys_view(self.keys@),
            n as nat,
            client,
            clock,
        );
        while left > 0
            invariant
                s == buf@,
                self.wf(s),
                self.spans == old(self).spans,
                pos <= at <= buf.len(),
                left <= n,
                out.len() == n - left,
                chain(items_view(out@), client, clock as int),
                chain_end(items_view(out@), clock as int) == now,
                all_wire_form(items_view(out@)),
                goal == items_v2(
                    s,
                    pos as int,
                    old(self).view(s),
                    keys_view(old(self).keys@),
                    n as nat,
                    client,
                    clock,
                ),
                goal == prepend_v2(
                    items_view(out@),
                    items_v2(
                        s,
                        at as int,
                        self.view(s),
                        keys_view(self.keys@),
                        left as nat,
                        client,
                        now,
                    ),
                ),
            decreases left,
        {
            let ghost st0 = self.view(s);
            let ghost keys0 = keys_view(self.keys@);
            assert(items_v2(s, at as int, st0, keys0, left as nat, client, now) == (match item_v2(
                s,
                at as int,
                st0,
                keys0,
                ID { client, clock: now },
            ) {
                Some((it, q, st2, keys2)) => prepend_v2(
                    seq![it],
                    items_v2(s, q, st2, keys2, (left - 1) as nat, client, it.end() as u32),
                ),
                None => None,
            })) by {
                reveal(items_v2);
            }
            match self.read_item(buf, at, ID { client, clock: now }) {
                Some((it, q)) => {
                    let ghost before = items_view(out@);
                    let ghost v = it@;
                    let n_it: usize = it.len();
                    proof {
                        lemma_prepend_v2(
                            before,
                            v,
                            items_v2(
                                s,
                                q as int,
                                self.view(s),
                                keys_view(self.keys@),
                                (left - 1) as nat,
                                client,
                                v.end() as u32,
                            ),
                        );
                        lemma_chain_push(before, client, clock as int, v);
                    }
                    out.push(it);
                    proof {
                        let after = items_view(out@);
                        assert(after =~= before.push(v));
                        assert forall|i: int| 0 <= i < after.len() implies (
                        #[trigger] after[i]).wire_form() by {
                            if i < before.len() {
                                assert(before[i].wire_form());
                            }
                        }
                    }
                    now = now + n_it as u32;
                    at = q;
                    left = left - 1;
                },
                None => {
                    return None;
                },
            }
        }
        proof {
            assert(items_v2(s, at as int, self.view(s), keys_view(self.keys@), 0, client, now)
                == Some(
                (Seq::<ItemView>::empty(), at as int, self.view(s), keys_view(self.keys@)),
            )) by {
                reveal(items_v2);
            }
            assert(items_view(out@) + Seq::<ItemView>::empty() =~= items_view(out@));
        }
        Some((out, at))
    }

    /// Reads one run of blocks.
    pub fn read_section(&mut self, buf: &[u8], pos: usize) -> (r: Option<(ClientBlocks, usize)>)
        requires
            old(self).wf(buf@),
        ensures
            final(self).wf(buf@),
            final(self).spans == old(self).spans,
            match r {
                Some((v, q)) => section_v2(
                    buf@,
                    pos as int,
                    old(self).view(buf@),
                    keys_view(old(self).keys@),
                ) == Some((v@, q as int, final(self).view(buf@), keys_view(final(self).keys@)))
                    && pos < q <= buf.len() && v@.wf() && all_wire_form(v@.items),
                None => section_v2(
                    buf@,
                    pos as int,
                    old(self).view(buf@),
                    keys_view(old(self).keys@),
                ) is None,
            },
    {
        let (n, q1) = match read_u64(buf, pos) {
            Some(x) => x,
            None => {
                return None;
            },
        };
        let client: u64 = match self.read_client(buf) {
            Some(x) => x,
            None => {
                return None;
            },
        };
        let (clock, q2) = match read_u32(buf, q1) {
            Some(x) => x,
            None => {
                return None;
            },
        };
        match self.read_items(buf, q2, n, client, clock) {
            Some((items, q3)) => Some((ClientBlocks { client, clock, items }, q3)),
            None => None,
        }
    }

    /// Reads the runs of blocks of an update.
    pub fn read_blocks(&mut self, buf: &[u8], pos: usize) -> (r: Option<(Vec<ClientBlocks>, usize)>)
        requires
            old(self).wf(buf@),
        ensures
            final(self).wf(buf@),
            match r {
                Some((v, q)) => blocks_v2(
                    buf@,
                    pos as int,
                    old(self).view(buf@),
                    keys_view(old(self).keys@),
                ) == Some(
                    (blocks_view(v@), q as int, final(self).view(buf@), keys_view(final(self).keys@)),
                ) && pos < q <= buf.len() && blocks_wf(blocks_view(v@)) && blocks_wire_form(
                    blocks_view(v@),
                ),
                None => blocks_v2(
                    buf@,
                    pos as int,
                    old(self).view(buf@),
                    keys_view(old(self).keys@),
                ) is None,
            },
    {
        let (n, start) = match read_u64(buf, pos) {
            Some(x) => x,
            None => {
                return None;
            },
        };
        let mut out: Vec<ClientBlocks> = Vec::new();
        let mut at: usize = start;
        let mut left: u64 = n;
        let ghost s = buf@;
        let ghost goal = blocks_v2(s, pos as int, self.view(s), keys_view(self.keys@));
        while left > 0
            invariant
                s == buf@,
                self.wf(s),
                start <= at <= buf.len(),
                blocks_wf(blocks_view(out@)),
                blocks_wire_form(blocks_view(out@)),
                goal == blocks_v2(s, pos as int, old(self).view(s), keys_view(old(self).keys@)),
                goal == prepend_v2(
                    blocks_view(out@),
                    sections_v2(s, at as int, self.view(s), keys_view(self.keys@), left as nat),
                ),
            decreases left,
        {
            let ghost st0 = self.view(s);
            let ghost keys0 = keys_view(self.keys@);
            assert(sections_v2(s, at as int, st0, keys0, left as nat) == (match section_v2(
                s,
                at as int,
                st0,
                keys0,
            ) {
                Some((b, q, st2, keys2)) => prepend_v2(
                    seq![b],
                    sections_v2(s, q, st2, keys2, (left - 1) as nat),
                ),
                None => None,
            })) by {
                reveal(sections_v2);
            }
            match self.read_section(buf, at) {
                Some((b, q)) => {
                    let ghost before = blocks_view(out@);
                    let ghost v = b@;
                    proof {
                        lemma_prepend_v2(
                            before,
                            v,
                            sections_v2(
                                s,
                                q as int,
                                self.view(s),
                                keys_view(self.keys@),
                                (left - 1) as nat,
                            ),
                        );
                    }
                    out.push(b);
                    proof {
                        let after = blocks_view(out@);
                        assert(after =~= before.push(v));
                        assert forall|i: int| 0 <= i < after.len() implies (
                        #[trigger] after[i]).wf() && all_wire_form(after[i].items) by {
                            if i < before.len() {
                                assert(before[i].wf());
                                assert(all_wire_form(before[i].items));
                            }
                        }
                    }
                    at = q;
                    left = left - 1;
                },
                None => {
                    return None;
                },
            }
        }
        proof {
            assert(sections_v2(s, at as int, self.view(s), keys_view(self.keys@), 0) == Some(
                (Seq::<ClientBlocksView>::empty(), at as int, self.view(s), keys_view(self.keys@)),
            )) by {
                reveal(sections_v2);
            }
            assert(blocks_view(out@) + Seq::<ClientBlocksView>::empty() =~= blocks_view(out@));
        }
        Some((out, at))
    }
}

/// Reads `n` ranges of one client.
fn read_ranges_v2(buf: &[u8], pos: usize, n: u64) -> (r: Option<(Vec<Range>, usize)>)
    requires
        pos <= buf.len(),
    ensures
        match r {
            Some((v, q)) => ranges_v2(buf@, pos as int, n as nat, 0) == Some((v@, q as int)) && pos
                <= q <= buf.len() && forall|i: int| 0 <= i < v.len() ==> (#[trigger] v[i]).wf(),
            None => ranges_v2(buf@, pos as int, n as nat, 0) is None,
        },
{
    let mut out: Vec<Range> = Vec::new();
    let mut at: usize = pos;
    let mut left: u64 = n;
    let mut cur: u32 = 0;
    let ghost s = buf@;
    while left > 0
        invariant
            s == buf@,
            pos <= at <= buf.len(),
            forall|i: int| 0 <= i < out.len() ==> (#[trigger] out[i]).wf(),
            ranges_v2(s, pos as int, n as nat, 0) == prepend(
                out@,
                ranges_v2(s, at as int, left as nat, cur as int),
            ),
        decreases left,
    {
        assert(ranges_v2(s, at as int, left as nat, cur as int) == (match range_v2(
            s,
            at as int,
            cur as int,
        ) {
            Some((r, q)) => prepend(seq![r], ranges_v2(s, q, (left - 1) as nat, r.end())),
            None => None,
        })) by {
            reveal(ranges_v2);
        }
        let (gap, q1) = match read_u64(buf, at) {
            Some(x) => x,
            None => {
                return None;
            },
        };
        let (l, q2) = match read_u64(buf, q1) {
            Some(x) => x,
            None => {
                return None;
            },
        };
        let room: u64 = (u32::MAX - cur) as u64;
        if gap > room || l >= room - gap {
            return None;
        }
        let r = Range { start: cur + gap as u32, len: l as u32 + 1 };
        proof {
            crate::codec_v1::lemma_prepend(out@, r, ranges_v2(s, q2 as int, (left - 1) as nat, r.end()));
        }
        out.push(r);
        cur = r.start + r.len;
        at = q2;
        left = left - 1;
    }
    proof {
        assert(ranges_v2(s, at as int, 0, cur as int) == Some((Seq::<Range>::empty(), at as int)))
            by {
            reveal(ranges_v2);
        }
        assert(out@ + Seq::<Range>::empty() =~= out@);
    }
    Some((out, at))
}

/// Reads a delete set, as the ranges stand in the buffer.
fn read_entries_v2(buf: &[u8], pos: usize) -> (r: Option<(IdSet, usize)>)
    ensures
        match r {
            Some((v, q)) => ds_v2(buf@, pos as int) == Some((v@, q as int)) && pos < q <= buf.len()
                && ids_ranges_ok(v@) && ids_sized(v@),
            None => ds_v2(buf@, pos as int) is None,
        },
{
    let (n, start) = match read_u64(buf, pos) {
        Some(x) => x,
        None => {
            return None;
        },
    };
    let mut out: Vec<ClientRanges> = Vec::new();
    let mut at: usize = start;
    let mut left: u64 = n;
    let ghost s = buf@;
    while left > 0
        invariant
            s == buf@,
            start <= at <= buf.len(),
            ids_ranges_ok((IdSet { clients: out })@),
            ids_sized((IdSet { clients: out })@),
            ds_v2(s, pos as int) == entries_v2(s, start as int, n as nat),
            entries_v2(s, start as int, n as nat) == prepend(
                (IdSet { clients: out })@,
                entries_v2(s, at as int, left as nat),
            ),
        decreases left,
    {
        assert(entries_v2(s, at as int, left as nat) == (match entry_v2(s, at as int) {
            Some((e, q)) => prepend(seq![e], entries_v2(s, q, (left - 1) as nat)),
            None => None,
        })) by {
            reveal(entries_v2);
        }
        let (client, q1) = match read_u64(buf, at) {
            Some(x) => x,
            None => {
                return None;
            },
        };
        let (m, q2) = match read_u64(buf, q1) {
            Some(x) => x,
            None => {
                return None;
            },
        };
        let (ranges, q3) = match read_ranges_v2(buf, q2, m) {
            Some(x) => x,
            None => {
                return None;
            },
        };
        let ghost before = (IdSet { clients: out })@;
        let ghost e = (client, ranges@);
        let count: usize = ranges.len();
        proof {
            crate::codec_v1::lemma_prepend(before, e, entries_v2(s, q3 as int, (left - 1) as nat));
        }
        out.push(ClientRanges { client, ranges });
        proof {
            let after = (IdSet { clients: out })@;
            assert(after =~= before.push(e));
            assert forall|i: int, j: int|
                0 <= i < after.len() && 0 <= j < after[i].1.len() implies (
            #[trigger] after[i].1[j]).wf() by {
                if i < before.len() {
                    assert(before[i].1[j].wf());
                }
            }
            assert forall|i: int| 0 <= i < after.len() implies (#[trigger] after[i]).1.len()
                <= u64::MAX by {
                if i < before.len() {
                    assert(before[i].1.len() <= u64::MAX);
                }
            }
        }
        at = q3;
        left = left - 1;
    }
    proof {
        assert(entries_v2(s, at as int, 0) == Some(
            (Seq::<(ClientID, Seq<Range>)>::empty(), at as int),
        )) by {
            reveal(entries_v2);
        }
        let v = (IdSet { clients: out })@;
        assert(v + Seq::<(ClientID, Seq<Range>)>::empty() =~= v);
    }
    Some((IdSet { clients: out }, at))
}

impl Update {
    /// Reads an update in the second format. The blocks come out as they
    /// are written. The delete set holds the identifiers that are written;
    /// its ranges are as written where those are in order, and put in order
    /// where they are not.
    pub fn decode_v2(buf: &[u8]) -> (r: Option<Update>)
        ensures
            match r {
                Some(u) => update_at_v2(buf@) matches Some(w) && u@.blocks == w.blocks && same_ids(
                    u@.delete_set,
                    w.delete_set,
                ) && (ids_wf(w.delete_set) ==> u@.delete_set == w.delete_set) && u.wf()
                    && u@.wire_form(),
                None => update_at_v2(buf@) is None,
            },
    {
        let (mut dec, p) = match DecoderV2::new(buf) {
            Some(x) => x,
            None => {
                return None;
            },
        };
        assert(keys_view(dec.keys@) =~= Seq::<Seq<char>>::empty());
        let (blocks, q) = match dec.read_blocks(buf, p) {
            Some(x) => x,
            None => {
                return None;
            },
        };
        let (raw, q2) = match read_entries_v2(buf, q) {
            Some(x) => x,
            None => {
                return None;
            },
        };
        if q2 != buf.len() {
            return None;
        }
        let IdSet { clients } = raw;
        let delete_set = IdSet::from_entries(clients);
        let n: usize = blocks.len();
        let u = Update { blocks, delete_set };
        proof {
            assert(u@.blocks.len() <= u64::MAX);
            crate::update_v1::lemma_sized(&u.delete_set);
        }
        Some(u)
    }
}

} // verus!
