//! The second binary format of updates: writing.

use crate::block::{ContentView, Item, ItemContent, ItemView, TypePtr, TypePtrView};
use crate::codec_v1::{concat, info_byte, info_of, write_anys};
use crate::codec_v2::Streams;
use crate::columns::{
    diff_col_bytes, rle_col_bytes, str_col_bytes, strs_view, uint_col_bytes, write_diff_col,
    write_rle_col, write_str_col, write_uint_col,
};
use crate::id::{ClientID, ID};
use crate::id_set::{ids_wf, ranges_wf, IdSet, IdSetView, Range};
use crate::update::{blocks_view, items_view, ClientBlocks, ClientBlocksView, Update, UpdateView};
use crate::varint::{span_bytes, uvar_bytes, write_span, write_uvar};
use vstd::prelude::*;

verus! {

/// What is written: the values of each column, and what stands behind the
/// columns.
#[verifier::ext_equal]
pub struct Cols {
    pub st: Streams,
    pub rest: Seq<u8>,
}

/// Columns without values.
pub open spec fn no_streams() -> Streams {
    Streams {
        key_clock: Seq::empty(),
        client: Seq::empty(),
        left_clock: Seq::empty(),
        right_clock: Seq::empty(),
        info: Seq::empty(),
        strings: Seq::empty(),
        parent_info: Seq::empty(),
        type_ref: Seq::empty(),
        len: Seq::empty(),
    }
}

/// The values of `a`, and behind them those of `b`, column by column.
pub open spec fn join_streams(a: Streams, b: Streams) -> Streams {
    Streams {
        key_clock: a.key_clock + b.key_clock,
        client: a.client + b.client,
        left_clock: a.left_clock + b.left_clock,
        right_clock: a.right_clock + b.right_clock,
        info: a.info + b.info,
        strings: a.strings + b.strings,
        parent_info: a.parent_info + b.parent_info,
        type_ref: a.type_ref + b.type_ref,
        len: a.len + b.len,
    }
}

pub open spec fn cols_add(a: Cols, b: Cols) -> Cols {
    Cols { st: join_streams(a.st, b.st), rest: a.rest + b.rest }
}

pub open spec fn only(st: Streams) -> Cols {
    Cols { st, rest: Seq::empty() }
}

pub open spec fn only_rest(rest: Seq<u8>) -> Cols {
    Cols { st: no_streams(), rest }
}

pub proof fn lemma_cols_assoc(a: Cols, b: Cols, c: Cols)
    ensures
        cols_add(cols_add(a, b), c) == cols_add(a, cols_add(b, c)),
        cols_add(a, only(no_streams())) == a,
        cols_add(only(no_streams()), a) == a,
{
    assert(cols_add(cols_add(a, b), c) =~~= cols_add(a, cols_add(b, c)));
    assert(cols_add(a, only(no_streams())) =~~= a);
    assert(cols_add(only(no_streams()), a) =~~= a);
}

pub open spec fn left_id_cols(id: ID) -> Streams {
    Streams { client: seq![id.client], left_clock: seq![id.clock], ..no_streams() }
}

pub open spec fn right_id_cols(id: ID) -> Streams {
    Streams { client: seq![id.client], right_clock: seq![id.clock], ..no_streams() }
}

pub open spec fn opt_left_cols(id: Option<ID>) -> Streams {
    match id {
        Some(i) => left_id_cols(i),
        None => no_streams(),
    }
}

pub open spec fn opt_right_cols(id: Option<ID>) -> Streams {
    match id {
        Some(i) => right_id_cols(i),
        None => no_streams(),
    }
}

pub open spec fn str_cols(v: Seq<char>) -> Streams {
    Streams { strings: seq![v], ..no_streams() }
}

pub open spec fn opt_str_cols(v: Option<Seq<char>>) -> Streams {
    match v {
        Some(k) => str_cols(k),
        None => no_streams(),
    }
}

pub open spec fn parent_cols(p: TypePtrView) -> Streams {
    match p {
        TypePtrView::Named(name) => join_streams(
            Streams { parent_info: seq![1u8], ..no_streams() },
            str_cols(name),
        ),
        TypePtrView::Id(id) => join_streams(
            Streams { parent_info: seq![0u8], ..no_streams() },
            left_id_cols(id),
        ),
        TypePtrView::Unknown => no_streams(),
    }
}

pub open spec fn naming_cols(it: ItemView) -> Streams {
    if it.has_origin() {
        no_streams()
    } else {
        join_streams(parent_cols(it.parent), opt_str_cols(it.parent_sub))
    }
}

/// What content writes, where `k` keys have been written before it.
pub open spec fn content_cols(c: ContentView, k: nat) -> Cols {
    match c {
        ContentView::Deleted(n) => only(Streams { len: seq![n as u64], ..no_streams() }),
        ContentView::String(v) => only(str_cols(v)),
        ContentView::Type(b) => match b.name {
            Some(name) => only(
                Streams {
                    type_ref: seq![b.type_ref as u64],
                    key_clock: seq![k as u32],
                    strings: seq![name],
                    ..no_streams()
                },
            ),
            None => only(Streams { type_ref: seq![b.type_ref as u64], ..no_streams() }),
        },
        ContentView::Any(vs) => Cols {
            st: Streams { len: seq![vs.len() as u64], ..no_streams() },
            rest: concat(vs),
        },
    }
}

/// What a block writes, where `k` keys have been written before it.
#[verifier::opaque]
pub open spec fn item_cols(it: ItemView, k: nat) -> Cols {
    cols_add(
        only(
            join_streams(
                join_streams(
                    join_streams(
                        Streams { info: seq![info_of(it)], ..no_streams() },
                        opt_left_cols(it.origin),
                    ),
                    opt_right_cols(it.right_origin),
                ),
                naming_cols(it),
            ),
        ),
        content_cols(it.content, k),
    )
}

#[verifier::opaque]
pub open spec fn items_cols(items: Seq<ItemView>, k: nat) -> Cols
    decreases items.len(),
{
    if items.len() == 0 {
        only(no_streams())
    } else {
        let head = item_cols(items[0], k);
        cols_add(head, items_cols(items.drop_first(), k + head.st.key_clock.len()))
    }
}

/// What a run of blocks writes.
pub open spec fn section_cols(b: ClientBlocksView, k: nat) -> Cols {
    cols_add(
        Cols {
            st: Streams { client: seq![b.client], ..no_streams() },
            rest: uvar_bytes(b.items.len()) + uvar_bytes(b.clock as nat),
        },
        items_cols(b.items, k),
    )
}

#[verifier::opaque]
pub open spec fn sections_cols(v: Seq<ClientBlocksView>, k: nat) -> Cols
    decreases v.len(),
{
    if v.len() == 0 {
        only(no_streams())
    } else {
        let head = section_cols(v[0], k);
        cols_add(head, sections_cols(v.drop_first(), k + head.st.key_clock.len()))
    }
}

pub open spec fn blocks_cols(v: Seq<ClientBlocksView>) -> Cols {
    cols_add(only_rest(uvar_bytes(v.len())), sections_cols(v, 0))
}

/// The ranges of one client, each as the gap to the end `cur` of the one
/// before it and its length less one.
#[verifier::opaque]
pub open spec fn ranges_bytes_v2(v: Seq<Range>, cur: int) -> Seq<u8>
    decreases v.len(),
{
    if v.len() == 0 {
        Seq::empty()
    } else {
        uvar_bytes((v[0].start - cur) as nat) + uvar_bytes((v[0].len - 1) as nat) + ranges_bytes_v2(
            v.drop_first(),
            v[0].end(),
        )
    }
}

pub open spec fn entry_bytes_v2(e: (ClientID, Seq<Range>)) -> Seq<u8> {
    uvar_bytes(e.0 as nat) + uvar_bytes(e.1.len()) + ranges_bytes_v2(e.1, 0)
}

#[verifier::opaque]
pub open spec fn entries_bytes_v2(v: IdSetView) -> Seq<u8>
    decreases v.len(),
{
    if v.len() == 0 {
        Seq::empty()
    } else {
        entry_bytes_v2(v[0]) + entries_bytes_v2(v.drop_first())
    }
}

pub open spec fn ds_bytes_v2(v: IdSetView) -> Seq<u8> {
    uvar_bytes(v.len()) + entries_bytes_v2(v)
}

/// What an update writes.
pub open spec fn update_cols(u: UpdateView) -> Cols {
    cols_add(blocks_cols(u.blocks), only_rest(ds_bytes_v2(u.delete_set)))
}

/// The bytes of the columns: the flag, each column with its length in
/// front, and what stands behind the columns.
pub open spec fn cols_bytes(c: Cols) -> Seq<u8> {
    uvar_bytes(0) + span_bytes(diff_col_bytes(c.st.key_clock, 0)) + span_bytes(
        uint_col_bytes(c.st.client),
    ) + span_bytes(diff_col_bytes(c.st.left_clock, 0)) + span_bytes(
        diff_col_bytes(c.st.right_clock, 0),
    ) + span_bytes(rle_col_bytes(c.st.info)) + span_bytes(str_col_bytes(c.st.strings))
        + span_bytes(rle_col_bytes(c.st.parent_info)) + span_bytes(uint_col_bytes(c.st.type_ref))
        + span_bytes(uint_col_bytes(c.st.len)) + c.rest
}

/// The bytes of an update in the second format.
pub open spec fn update_bytes_v2(u: UpdateView) -> Seq<u8> {
    cols_bytes(update_cols(u))
}

/// How many keys the second format has room for.
pub open spec fn key_room() -> nat {
    0x1_0000_0000
}

/// A writer of the columns.
pub struct EncoderV2 {
    pub key_clock: Vec<u32>,
    pub client: Vec<u64>,
    pub left_clock: Vec<u32>,
    pub right_clock: Vec<u32>,
    pub info: Vec<u8>,
    pub strings: Vec<String>,
    pub parent_info: Vec<u8>,
    pub type_ref: Vec<u64>,
    pub len: Vec<u64>,
    pub rest: Vec<u8>,
}

impl EncoderV2 {
    /// What has been written.
    pub open spec fn view(&self) -> Cols {
        Cols {
            st: Streams {
                key_clock: self.key_clock@,
                client: self.client@,
                left_clock: self.left_clock@,
                right_clock: self.right_clock@,
                info: self.info@,
                strings: strs_view(self.strings@),
                parent_info: self.parent_info@,
                type_ref: self.type_ref@,
                len: self.len@,
            },
            rest: self.rest@,
        }
    }

    /// A writer that has written nothing.
    pub fn new() -> (r: EncoderV2)
        ensures
            r.view() == only(no_streams()),
    {
        let r = EncoderV2 {
            key_clock: Vec::new(),
            client: Vec::new(),
            left_clock: Vec::new(),
            right_clock: Vec::new(),
            info: Vec::new(),
            strings: Vec::new(),
            parent_info: Vec::new(),
            type_ref: Vec::new(),
            len: Vec::new(),
            rest: Vec::new(),
        };
        assert(r.view() =~~= only(no_streams()));
        r
    }

    fn write_opt_left(&mut self, id: &Option<ID>)
        ensures
            final(self).view() == cols_add(old(self).view(), only(opt_left_cols(*id))),
    {
        match id {
            Some(i) => {
                self.client.push(i.client);
                self.left_clock.push(i.clock);
            },
            None => {},
        }
        assert(self.view() =~~= cols_add(old(self).view(), only(opt_left_cols(*id))));
    }

    fn write_opt_right(&mut self, id: &Option<ID>)
        ensures
            final(self).view() == cols_add(old(self).view(), only(opt_right_cols(*id))),
    {
        match id {
            Some(i) => {
                self.client.push(i.client);
                self.right_clock.push(i.clock);
            },
            None => {},
        }
        assert(self.view() =~~= cols_add(old(self).view(), only(opt_right_cols(*id))));
    }

    fn write_naming(&mut self, it: &Item)
        ensures
            final(self).view() == cols_add(old(self).view(), only(naming_cols(it@))),
    {
        if it.origin.is_none() && it.right_origin.is_none() {
            match &it.parent {
                TypePtr::Named(name) => {
                    self.parent_info.push(1);
                    self.strings.push(name.clone());
                },
                TypePtr::Id(id) => {
                    self.parent_info.push(0);
                    self.client.push(id.client);
                    self.left_clock.push(id.clock);
                },
                TypePtr::Unknown => {},
            }
            match &it.parent_sub {
                Some(k) => {
                    self.strings.push(k.clone());
                },
                None => {},
            }
        }
        assert(self.view() =~~= cols_add(old(self).view(), only(naming_cols(it@))));
    }

    /// Writes content. There is no room for a key beyond the last clock
    /// of keys; then nothing is written.
    fn write_content(&mut self, c: &ItemContent) -> (ok: bool)
        ensures
            ok ==> final(self).view() == cols_add(
                old(self).view(),
                content_cols(c@, old(self).view().st.key_clock.len()),
            ),
            !ok ==> old(self).view().st.key_clock.len() + content_cols(c@, 0).st.key_clock.len()
                > key_room(),
    {
        let ghost k = self.view().st.key_clock.len();
        match c {
            ItemContent::Deleted(n) => {
                self.len.push(*n as u64);
            },
            ItemContent::String(s) => {
                self.strings.push(s.clone());
            },
            ItemContent::Type(b) => {
                match &b.name {
                    Some(name) => {
                        let count: usize = self.key_clock.len();
                        if count > u32::MAX as usize {
                            return false;
                        }
                        self.type_ref.push(b.type_ref as u64);
                        self.key_clock.push(count as u32);
                        self.strings.push(name.clone());
                    },
                    None => {
                        self.type_ref.push(b.type_ref as u64);
                    },
                }
            },
            ItemContent::Any(vs) => {
                self.len.push(vs.len() as u64);
                write_anys(&mut self.rest, vs);
            },
        }
        assert(self.view() =~~= cols_add(old(self).view(), content_cols(c@, k)));
        true
    }

    /// Writes a block.
    pub fn write_item(&mut self, it: &Item) -> (ok: bool)
        ensures
            ok ==> final(self).view() == cols_add(
                old(self).view(),
                item_cols(it@, old(self).view().st.key_clock.len()),
            ),
            !ok ==> old(self).view().st.key_clock.len() + item_cols(it@, 0).st.key_clock.len()
                > key_room(),
    {
        let ghost v0 = self.view();
        let ghost k = v0.st.key_clock.len();
        proof {
            reveal(item_cols);
        }
        self.info.push(info_byte(it));
        let ghost v1 = self.view();
        self.write_opt_left(&it.origin);
        self.write_opt_right(&it.right_origin);
        self.write_naming(it);
        let ghost v4 = self.view();
        assert(v4.st.key_clock == v0.st.key_clock);
        let ok = self.write_content(&it.content);
        proof {
            assert(v1 =~~= cols_add(
                v0,
                only(Streams { info: seq![info_of(it@)], ..no_streams() }),
            ));
            if ok {
                assert(self.view() =~~= cols_add(v0, item_cols(it@, k)));
            }
            assert(item_cols(it@, 0).st.key_clock.len() == content_cols(
                it@.content,
                0,
            ).st.key_clock.len());
        }
        ok
    }
}

/// A block writes as many keys whatever was written before it.
pub proof fn lemma_item_keys(it: ItemView, k: nat)
    ensures
        item_cols(it, k).st.key_clock.len() == item_cols(it, 0).st.key_clock.len(),
{
    reveal(item_cols);
}

impl EncoderV2 {
    /// Writes blocks, one behind the other. Where there is no room for
    /// the keys of all of them, the answer is no.
    pub fn write_items(&mut self, items: &Vec<Item>) -> (ok: bool)
        ensures
            ok ==> final(self).view() == cols_add(
                old(self).view(),
                items_cols(items_view(items@), old(self).view().st.key_clock.len()),
            ),
            !ok ==> cols_add(
                old(self).view(),
                items_cols(items_view(items@), old(self).view().st.key_clock.len()),
            ).st.key_clock.len() > key_room(),
    {
        let ghost all = items_view(items@);
        let ghost goal = cols_add(self.view(), items_cols(all, self.view().st.key_clock.len()));
        let mut i: usize = 0;
        assert(all.skip(0) =~= all);
        while i < items.len()
            invariant
                i <= items.len(),
                all == items_view(items@),
                goal == cols_add(
                    old(self).view(),
                    items_cols(all, old(self).view().st.key_clock.len()),
                ),
                goal == cols_add(
                    self.view(),
                    items_cols(all.skip(i as int), self.view().st.key_clock.len()),
                ),
            decreases items.len() - i,
        {
            let ghost v = self.view();
            let ghost k = v.st.key_clock.len();
            let ghost rest = all.skip(i as int);
            let ghost x = rest[0];
            let ghost next = all.skip(i + 1);
            proof {
                assert(rest.drop_first() =~= next);
                assert(x == items[i as int]@);
                assert(items_cols(rest, k) == cols_add(
                    item_cols(x, k),
                    items_cols(next, k + item_cols(x, k).st.key_clock.len()),
                )) by {
                    reveal(items_cols);
                }
                lemma_item_keys(x, k);
            }
            if !self.write_item(&items[i]) {
                proof {
                    let tail = items_cols(next, k + item_cols(x, k).st.key_clock.len());
                    assert(goal.st.key_clock.len() == k + item_cols(x, k).st.key_clock.len()
                        + tail.st.key_clock.len());
                }
                return false;
            }
            proof {
                lemma_cols_assoc(
                    v,
                    item_cols(x, k),
                    items_cols(next, k + item_cols(x, k).st.key_clock.len()),
                );
            }
            i = i + 1;
        }
        proof {
            let k = self.view().st.key_clock.len();
            assert(items_cols(all.skip(i as int), k) == only(no_streams())) by {
                reveal(items_cols);
            }
            lemma_cols_assoc(self.view(), only(no_streams()), only(no_streams()));
        }
        true
    }

    /// Writes one run of blocks.
    pub fn write_section(&mut self, b: &ClientBlocks) -> (ok: bool)
        ensures
            ok ==> final(self).view() == cols_add(
                old(self).view(),
                section_cols(b@, old(self).view().st.key_clock.len()),
            ),
            !ok ==> cols_add(
                old(self).view(),
                section_cols(b@, old(self).view().st.key_clock.len()),
            ).st.key_clock.len() > key_room(),
    {
        let ghost v0 = self.view();
        let ghost k = v0.st.key_clock.len();
        let ghost head = Cols {
            st: Streams { client: seq![b.client], ..no_streams() },
            rest: uvar_bytes(b@.items.len()) + uvar_bytes(b.clock as nat),
        };
        write_uvar(&mut self.rest, b.items.len() as u64);
        self.client.push(b.client);
        write_uvar(&mut self.rest, b.clock as u64);
        assert(self.view() =~~= cols_add(v0, head));
        let ok = self.write_items(&b.items);
        proof {
            lemma_cols_assoc(v0, head, items_cols(b@.items, k));
        }
        ok
    }

    /// Writes the runs of blocks of an update.
    pub fn write_blocks(&mut self, blocks: &Vec<ClientBlocks>) -> (ok: bool)
        requires
            old(self).view() == only(no_streams()),
        ensures
            ok ==> final(self).view() == blocks_cols(blocks_view(blocks@)),
            !ok ==> blocks_cols(blocks_view(blocks@)).st.key_clock.len() > key_room(),
    {
        let ghost all = blocks_view(blocks@);
        let ghost goal = blocks_cols(all);
        write_uvar(&mut self.rest, blocks.len() as u64);
        assert(self.view() =~~= only_rest(uvar_bytes(all.len())));
        let mut i: usize = 0;
        assert(all.skip(0) =~= all);
        while i < blocks.len()
            invariant
                i <= blocks.len(),
                all == blocks_view(blocks@),
                goal == blocks_cols(all),
                goal == cols_add(
                    self.view(),
                    sections_cols(all.skip(i as int), self.view().st.key_clock.len()),
                ),
            decreases blocks.len() - i,
        {
            let ghost v = self.view();
            let ghost k = v.st.key_clock.len();
            let ghost rest = all.skip(i as int);
            let ghost x = rest[0];
            let ghost next = all.skip(i + 1);
            proof {
                assert(rest.drop_first() =~= next);
                assert(x == blocks[i as int]@);
                assert(sections_cols(rest, k) == cols_add(
                    section_cols(x, k),
                    sections_cols(next, k + section_cols(x, k).st.key_clock.len()),
                )) by {
                    reveal(sections_cols);
                }
            }
            if !self.write_section(&blocks[i]) {
                proof {
                    let tail = sections_cols(next, k + section_cols(x, k).st.key_clock.len());
                    assert(goal.st.key_clock.len() == k + section_cols(x, k).st.key_clock.len()
                        + tail.st.key_clock.len());
                }
                return false;
            }
            proof {
                lemma_cols_assoc(
                    v,
                    section_cols(x, k),
                    sections_cols(next, k + section_cols(x, k).st.key_clock.len()),
                );
            }
            i = i + 1;
        }
        proof {
            let k = self.view().st.key_clock.len();
            assert(sections_cols(all.skip(i as int), k) == only(no_streams())) by {
                reveal(sections_cols);
            }
            lemma_cols_assoc(self.view(), only(no_streams()), only(no_streams()));
        }
        true
    }

    /// The bytes of what was written.
    pub fn finish(self) -> (r: Vec<u8>)
        ensures
            r@ == cols_bytes(self.view()),
            self.view().st.key_clock.len() <= key_room() ==> crate::law_v2::cols_fit(self.view()),
    {
        let ghost c = self.view();
        let n1: usize = self.client.len();
        let n2: usize = self.left_clock.len();
        let n3: usize = self.right_clock.len();
        let n4: usize = self.info.len();
        let n5: usize = self.parent_info.len();
        let n6: usize = self.type_ref.len();
        let n7: usize = self.len.len();
        let n8: usize = self.strings.len();
        let mut out: Vec<u8> = Vec::new();
        write_uvar(&mut out, 0);
        let col = write_diff_col(&self.key_clock);
        write_span(&mut out, col.as_slice());
        let col = write_uint_col(&self.client);
        write_span(&mut out, col.as_slice());
        let col = write_diff_col(&self.left_clock);
        write_span(&mut out, col.as_slice());
        let col = write_diff_col(&self.right_clock);
        write_span(&mut out, col.as_slice());
        let col = write_rle_col(&self.info);
        write_span(&mut out, col.as_slice());
        let col = write_str_col(&self.strings);
        write_span(&mut out, col.as_slice());
        let col = write_rle_col(&self.parent_info);
        write_span(&mut out, col.as_slice());
        let col = write_uint_col(&self.type_ref);
        write_span(&mut out, col.as_slice());
        let col = write_uint_col(&self.len);
        write_span(&mut out, col.as_slice());
        out.extend_from_slice(self.rest.as_slice());
        assert(out@ =~= cols_bytes(c));
        let total: usize = out.len();
        proof {
            assert forall|i: int| 0 <= i < c.st.strings.len() implies (
            #[trigger] c.st.strings[i]).len() <= u64::MAX by {
                assert(c.st.strings[i] == self.strings[i]@);
            }
        }
        out
    }
}

/// Appends the ranges of one client.
fn write_ranges_v2(out: &mut Vec<u8>, rs: &Vec<Range>)
    requires
        ranges_wf(rs@),
    ensures
        final(out)@ == old(out)@ + ranges_bytes_v2(rs@, 0),
{
    let ghost before = out@;
    let ghost all = rs@;
    let mut i: usize = 0;
    let mut cur: u32 = 0;
    assert(all.skip(0) =~= all);
    while i < rs.len()
        invariant
            i <= rs.len(),
            all == rs@,
            ranges_wf(all),
            cur == (if i == 0 {
                0
            } else {
                all[i - 1].end()
            }),
            before + ranges_bytes_v2(all, 0) == out@ + ranges_bytes_v2(
                all.skip(i as int),
                cur as int,
            ),
        decreases rs.len() - i,
    {
        let ghost rest = all.skip(i as int);
        let ghost at = out@;
        let r: Range = rs[i];
        proof {
            assert(all[i as int].wf());
            if i > 0 {
                assert(all[i - 1].end() < all[i as int].start);
            }
        }
        write_uvar(out, (r.start - cur) as u64);
        write_uvar(out, (r.len - 1) as u64);
        proof {
            assert(rest.drop_first() =~= all.skip(i + 1));
            assert(rest[0] == r);
            assert(ranges_bytes_v2(rest, cur as int) == uvar_bytes((r.start - cur) as nat)
                + uvar_bytes((r.len - 1) as nat) + ranges_bytes_v2(rest.drop_first(), r.end()))
                by {
                reveal(ranges_bytes_v2);
            }
            assert(out@ + ranges_bytes_v2(rest.drop_first(), r.end()) =~= at + ranges_bytes_v2(
                rest,
                cur as int,
            ));
        }
        cur = r.start + r.len;
        i = i + 1;
    }
    proof {
        assert(ranges_bytes_v2(all.skip(i as int), cur as int) == Seq::<u8>::empty()) by {
            reveal(ranges_bytes_v2);
        }
        assert(out@ + Seq::<u8>::empty() =~= out@);
    }
}

/// Appends a delete set in the second format.
pub fn write_ds_v2(out: &mut Vec<u8>, ds: &IdSet)
    requires
        ds.wf(),
    ensures
        final(out)@ == old(out)@ + ds_bytes_v2(ds@),
{
    let ghost before = out@;
    let ghost all = ds@;
    write_uvar(out, ds.clients.len() as u64);
    let ghost base = out@;
    let mut i: usize = 0;
    assert(all.skip(0) =~= all);
    while i < ds.clients.len()
        invariant
            i <= ds.clients.len(),
            all == ds@,
            ids_wf(all),
            base + entries_bytes_v2(all) == out@ + entries_bytes_v2(all.skip(i as int)),
        decreases ds.clients.len() - i,
    {
        let ghost rest = all.skip(i as int);
        let ghost cur = out@;
        assert(ranges_wf(all[i as int].1));
        assert(all[i as int] == ds.clients[i as int]@);
        write_uvar(out, ds.clients[i].client);
        write_uvar(out, ds.clients[i].ranges.len() as u64);
        write_ranges_v2(out, &ds.clients[i].ranges);
        proof {
            assert(rest.drop_first() =~= all.skip(i + 1));
            assert(rest[0] == ds.clients[i as int]@);
            assert(entries_bytes_v2(rest) == entry_bytes_v2(rest[0]) + entries_bytes_v2(
                rest.drop_first(),
            )) by {
                reveal(entries_bytes_v2);
            }
            assert(out@ =~= cur + entry_bytes_v2(rest[0]));
            assert(out@ + entries_bytes_v2(rest.drop_first()) =~= cur + entries_bytes_v2(rest));
        }
        i = i + 1;
    }
    proof {
        assert(entries_bytes_v2(all.skip(i as int)) == Seq::<u8>::empty()) by {
            reveal(entries_bytes_v2);
        }
        assert(out@ =~= before + ds_bytes_v2(all));
    }
}

impl Update {
    /// Writes the update in the second format. There is no answer where
    /// the update has more keys than the format has clocks for them.
    pub fn encode_v2(&self) -> (r: Option<Vec<u8>>)
        requires
            self.wf(),
        ensures
            match r {
                Some(b) => b@ == update_bytes_v2(self@) && crate::law_v2::cols_fit(
                    update_cols(self@),
                ),
                None => update_cols(self@).st.key_clock.len() > key_room(),
            },
    {
        let mut enc = EncoderV2::new();
        if !enc.write_blocks(&self.blocks) {
            return None;
        }
        let ghost v = enc.view();
        write_ds_v2(&mut enc.rest, &self.delete_set);
        assert(enc.view() =~~= update_cols(self@));
        if enc.key_clock.len() as u64 > 0x1_0000_0000u64 {
            return None;
        }
        Some(enc.finish())
    }
}

} // verus!
