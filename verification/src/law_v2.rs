//! The second binary format gives back what was written.

use crate::block::{ContentView, ItemView, TypePtrView};
use crate::codec_v1::{
    concat, content_ref, info_kind, info_left, info_of, info_right, info_sub, lemma_anys_round_trip,
    lemma_info,
};
use crate::codec_v2::{
    blocks_v2, col_at, content_v2, ds_v2, entries_v2, entry_v2, header_at, item_v2, items_v2,
    key_v2, left_id_v2, naming_v2, opt_left_id_v2, opt_right_id_v2, opt_str_v2, parent_v2,
    range_v2, ranges_v2, right_id_v2, section_v2, sections_v2, str_v2, streams_of, take,
    update_at_v2, Span, Spans, Streams,
};
use crate::columns::{
    diff_col, diff_col_bytes, join, lemma_diff_col_round_trip, lemma_rle_col_round_trip,
    lemma_str_col_round_trip, lemma_uint_col_round_trip, rle_col, rle_col_bytes, str_col,
    str_col_bytes, uint_col, uint_col_bytes,
};
use crate::encode_v2::{
    blocks_cols, cols_add, cols_bytes, content_cols, ds_bytes_v2, entries_bytes_v2, entry_bytes_v2,
    item_cols, items_cols, join_streams, key_room, left_id_cols, naming_cols, no_streams, only,
    only_rest, opt_left_cols, opt_right_cols, opt_str_cols, parent_cols, ranges_bytes_v2,
    right_id_cols, section_cols, sections_cols, str_cols, update_bytes_v2, update_cols, Cols,
};
use crate::id::{ClientID, ID};
use crate::id_set::{ids_wf, ranges_wf, IdSetView, Range};
use crate::text::writable;
use crate::update::{
    all_wire_form, blocks_wf, blocks_wire_form, chain, ids_sized, ClientBlocksView, UpdateView,
};
use crate::varint::{
    lemma_span_round_trip, lemma_u32_round_trip, lemma_u64_round_trip, span_at, span_bytes, u32_at,
    u64_at, uvar_bytes,
};
use vstd::prelude::*;

verus! {

/// The keys that a block writes.
pub open spec fn keys_of(it: ItemView) -> Seq<Seq<char>> {
    match it.content {
        ContentView::Type(b) => match b.name {
            Some(name) => seq![name],
            None => Seq::empty(),
        },
        _ => Seq::empty(),
    }
}

/// The keys that blocks write, one block after the other.
pub open spec fn keys_of_items(items: Seq<ItemView>) -> Seq<Seq<char>>
    decreases items.len(),
{
    if items.len() == 0 {
        Seq::empty()
    } else {
        keys_of(items[0]) + keys_of_items(items.drop_first())
    }
}

/// The keys that runs of blocks write.
pub open spec fn keys_of_blocks(v: Seq<ClientBlocksView>) -> Seq<Seq<char>>
    decreases v.len(),
{
    if v.len() == 0 {
        Seq::empty()
    } else {
        keys_of_items(v[0].items) + keys_of_blocks(v.drop_first())
    }
}

proof fn lemma_take<T>(v: T, t: Seq<T>)
    ensures
        take(seq![v] + t) == Some((v, t)),
{
    assert((seq![v] + t).drop_first() =~= t);
}

proof fn lemma_left_id(id: ID, t: Streams)
    ensures
        left_id_v2(join_streams(left_id_cols(id), t)) == Some((id, t)),
{
    let st = join_streams(left_id_cols(id), t);
    lemma_take(id.client, t.client);
    lemma_take(id.clock, t.left_clock);
    assert(st.client =~= seq![id.client] + t.client);
    assert(st.left_clock =~= seq![id.clock] + t.left_clock);
    assert((Streams { client: t.client, left_clock: t.left_clock, ..st }) =~~= t);
}

proof fn lemma_right_id(id: ID, t: Streams)
    ensures
        right_id_v2(join_streams(right_id_cols(id), t)) == Some((id, t)),
{
    let st = join_streams(right_id_cols(id), t);
    lemma_take(id.client, t.client);
    lemma_take(id.clock, t.right_clock);
    assert(st.client =~= seq![id.client] + t.client);
    assert(st.right_clock =~= seq![id.clock] + t.right_clock);
    assert((Streams { client: t.client, right_clock: t.right_clock, ..st }) =~~= t);
}

proof fn lemma_opt_left(id: Option<ID>, t: Streams)
    ensures
        opt_left_id_v2(join_streams(opt_left_cols(id), t), id is Some) == Some((id, t)),
{
    match id {
        Some(i) => lemma_left_id(i, t),
        None => {
            assert(join_streams(no_streams(), t) =~~= t);
        },
    }
}

proof fn lemma_opt_right(id: Option<ID>, t: Streams)
    ensures
        opt_right_id_v2(join_streams(opt_right_cols(id), t), id is Some) == Some((id, t)),
{
    match id {
        Some(i) => lemma_right_id(i, t),
        None => {
            assert(join_streams(no_streams(), t) =~~= t);
        },
    }
}

proof fn lemma_str(v: Seq<char>, t: Streams)
    ensures
        str_v2(join_streams(str_cols(v), t)) == Some((v, t)),
{
    let st = join_streams(str_cols(v), t);
    lemma_take(v, t.strings);
    assert(st.strings =~= seq![v] + t.strings);
    assert((Streams { strings: t.strings, ..st }) =~~= t);
}

proof fn lemma_opt_str(v: Option<Seq<char>>, t: Streams)
    ensures
        opt_str_v2(join_streams(opt_str_cols(v), t), v is Some) == Some((v, t)),
{
    match v {
        Some(k) => lemma_str(k, t),
        None => {
            assert(join_streams(no_streams(), t) =~~= t);
        },
    }
}

proof fn lemma_parent(p: TypePtrView, t: Streams)
    requires
        !(p is Unknown),
        p matches TypePtrView::Named(n) ==> writable(n),
    ensures
        parent_v2(join_streams(parent_cols(p), t)) == Some((p, t)),
{
    let st = join_streams(parent_cols(p), t);
    match p {
        TypePtrView::Named(name) => {
            let t1 = join_streams(str_cols(name), t);
            lemma_take(1u8, t.parent_info);
            assert(st.parent_info =~= seq![1u8] + t.parent_info);
            assert((Streams { parent_info: t.parent_info, ..st }) =~~= t1);
            lemma_str(name, t);
        },
        TypePtrView::Id(id) => {
            let t1 = join_streams(left_id_cols(id), t);
            lemma_take(0u8, t.parent_info);
            assert(st.parent_info =~= seq![0u8] + t.parent_info);
            assert((Streams { parent_info: t.parent_info, ..st }) =~~= t1);
            lemma_left_id(id, t);
        },
        TypePtrView::Unknown => {},
    }
}

proof fn lemma_naming(it: ItemView, t: Streams)
    requires
        it.wf(),
        it.wire_form(),
    ensures
        naming_v2(join_streams(naming_cols(it), t), it.has_origin(), it.parent_sub is Some) == Some(
            ((it.parent, it.parent_sub), t),
        ),
{
    let st = join_streams(naming_cols(it), t);
    if it.has_origin() {
        assert(st =~~= t);
    } else {
        let t1 = join_streams(opt_str_cols(it.parent_sub), t);
        assert(st =~~= join_streams(parent_cols(it.parent), t1));
        lemma_parent(it.parent, t1);
        lemma_opt_str(it.parent_sub, t);
    }
}

proof fn lemma_content(a: Seq<u8>, c: ContentView, b: Seq<u8>, t: Streams, keys: Seq<Seq<char>>)
    requires
        c.wf(),
        c.len() <= u32::MAX,
        c matches ContentView::Type(br) && br.name is Some ==> keys.len() <= u32::MAX,
    ensures
        content_v2(
            a + content_cols(c, keys.len()).rest + b,
            a.len() as int,
            join_streams(content_cols(c, keys.len()).st, t),
            keys,
            content_ref(c),
        ) == Some(
            (
                c,
                (a.len() + content_cols(c, keys.len()).rest.len()) as int,
                t,
                keys + keys_of(ItemView {
                    id: ID { client: 0, clock: 0 },
                    origin: None,
                    right_origin: None,
                    parent: TypePtrView::Unknown,
                    parent_sub: None,
                    content: c,
                }),
            ),
        ),
{
    let cc = content_cols(c, keys.len());
    let st = join_streams(cc.st, t);
    let s = a + cc.rest + b;
    match c {
        ContentView::Deleted(n) => {
            lemma_take(n as u64, t.len);
            assert(st.len =~= seq![n as u64] + t.len);
            assert((Streams { len: t.len, ..st }) =~~= t);
            assert(keys + Seq::<Seq<char>>::empty() =~= keys);
        },
        ContentView::String(v) => {
            lemma_str(v, t);
            assert(keys + Seq::<Seq<char>>::empty() =~= keys);
        },
        ContentView::Type(br) => {
            lemma_take(br.type_ref as u64, t.type_ref);
            assert(st.type_ref =~= seq![br.type_ref as u64] + t.type_ref);
            let st2 = Streams { type_ref: t.type_ref, ..st };
            match br.name {
                Some(name) => {
                    let k = keys.len() as u32;
                    lemma_take(k, t.key_clock);
                    assert(st2.key_clock =~= seq![k] + t.key_clock);
                    let st3 = Streams { key_clock: t.key_clock, ..st2 };
                    assert(st3 =~~= join_streams(str_cols(name), t));
                    lemma_str(name, t);
                    assert(keys.push(name) =~= keys + seq![name]);
                },
                None => {
                    assert(st2 =~~= t);
                    assert(keys + Seq::<Seq<char>>::empty() =~= keys);
                },
            }
        },
        ContentView::Any(vs) => {
            lemma_take(vs.len() as u64, t.len);
            assert(st.len =~= seq![vs.len() as u64] + t.len);
            assert((Streams { len: t.len, ..st }) =~~= t);
            lemma_anys_round_trip(a, vs, b);
            assert(keys + Seq::<Seq<char>>::empty() =~= keys);
        },
    }
}

/// Reading a block that was written gives the block back.
pub proof fn lemma_item_v2(a: Seq<u8>, it: ItemView, b: Seq<u8>, t: Streams, keys: Seq<Seq<char>>)
    requires
        it.wf(),
        it.wire_form(),
        keys_of(it).len() > 0 ==> keys.len() <= u32::MAX,
    ensures
        item_v2(
            a + item_cols(it, keys.len()).rest + b,
            a.len() as int,
            join_streams(item_cols(it, keys.len()).st, t),
            keys,
            it.id,
        ) == Some(
            (it, (a.len() + item_cols(it, keys.len()).rest.len()) as int, t, keys + keys_of(it)),
        ),
        item_cols(it, keys.len()).st.key_clock.len() == keys_of(it).len(),
{
    let k = keys.len();
    let c = item_cols(it, k);
    let cc = content_cols(it.content, k);
    let st = join_streams(c.st, t);
    let s = a + c.rest + b;
    let info = info_of(it);
    reveal(item_cols);
    reveal(item_v2);
    lemma_info(it);
    let t4 = join_streams(cc.st, t);
    let t3 = join_streams(naming_cols(it), t4);
    let t2 = join_streams(opt_right_cols(it.right_origin), t3);
    let t1 = join_streams(opt_left_cols(it.origin), t2);
    assert(take(st.info) == Some((info, t1.info)) && (Streams { info: t1.info, ..st }) == t1) by {
        lemma_take(info, t1.info);
        assert(st.info =~= seq![info] + t1.info);
        assert((Streams { info: t1.info, ..st }) =~~= t1);
    }
    lemma_opt_left(it.origin, t2);
    lemma_opt_right(it.right_origin, t3);
    lemma_naming(it, t4);
    assert(c.rest =~= cc.rest);
    lemma_content(a, it.content, b, t, keys);
}

/// How many keys the blocks write.
pub proof fn lemma_items_keys(items: Seq<ItemView>, k: nat)
    ensures
        items_cols(items, k).st.key_clock.len() == keys_of_items(items).len(),
    decreases items.len(),
{
    reveal(items_cols);
    reveal(item_cols);
    if items.len() > 0 {
        let head = item_cols(items[0], k);
        lemma_items_keys(items.drop_first(), k + head.st.key_clock.len());
    }
}

pub proof fn lemma_items_v2(
    a: Seq<u8>,
    items: Seq<ItemView>,
    b: Seq<u8>,
    t: Streams,
    keys: Seq<Seq<char>>,
    client: ClientID,
    clock: u32,
)
    requires
        chain(items, client, clock as int),
        all_wire_form(items),
        keys.len() + keys_of_items(items).len() <= key_room(),
    ensures
        items_v2(
            a + items_cols(items, keys.len()).rest + b,
            a.len() as int,
            join_streams(items_cols(items, keys.len()).st, t),
            keys,
            items.len(),
            client,
            clock,
        ) == Some(
            (
                items,
                (a.len() + items_cols(items, keys.len()).rest.len()) as int,
                t,
                keys + keys_of_items(items),
            ),
        ),
    decreases items.len(),
{
    let k = keys.len();
    let c = items_cols(items, k);
    let s = a + c.rest + b;
    let st = join_streams(c.st, t);
    if items.len() == 0 {
        assert(c == only(no_streams())) by {
            reveal(items_cols);
        }
        assert(items =~= Seq::<ItemView>::empty());
        assert(st =~~= t);
        assert(s =~= a + b);
        assert(keys + keys_of_items(items) =~= keys);
        assert(items_v2(s, a.len() as int, st, keys, 0, client, clock) == Some(
            (Seq::<ItemView>::empty(), a.len() as int, st, keys),
        )) by {
            reveal(items_v2);
        }
    } else {
        let it = items[0];
        let rest = items.drop_first();
        let head = item_cols(it, k);
        let keys2 = keys + keys_of(it);
        let tail = items_cols(rest, k + head.st.key_clock.len());
        let t1 = join_streams(tail.st, t);
        let q = (a.len() + head.rest.len()) as int;
        assert(c == cols_add(head, tail)) by {
            reveal(items_cols);
        }
        assert(it.wire_form());
        assert(item_v2(s, a.len() as int, st, keys, it.id) == Some((it, q, t1, keys2))
            && head.st.key_clock.len() == keys_of(it).len()) by {
            lemma_item_v2(a, it, tail.rest + b, t1, keys);
            assert(s =~= a + head.rest + (tail.rest + b));
            assert(st =~~= join_streams(head.st, t1));
        }
        assert(items_v2(s, q, t1, keys2, rest.len(), client, it.end() as u32) == Some(
            (rest, (a.len() + c.rest.len()) as int, t, keys2 + keys_of_items(rest)),
        )) by {
            assert forall|i: int| 0 <= i < rest.len() implies (#[trigger] rest[i]).wire_form() by {
                assert(items[i + 1].wire_form());
            }
            assert(keys2.len() == k + head.st.key_clock.len());
            assert(s =~= (a + head.rest) + tail.rest + b);
            lemma_items_v2(a + head.rest, rest, b, t, keys2, client, it.end() as u32);
        }
        assert(seq![it] + rest =~= items);
        assert(keys2 + keys_of_items(rest) =~= keys + keys_of_items(items));
        assert(it.id == (ID { client, clock }));
        assert(items_v2(s, a.len() as int, st, keys, items.len(), client, clock) == Some(
            (items, (a.len() + c.rest.len()) as int, t, keys + keys_of_items(items)),
        )) by {
            reveal(items_v2);
        }
    }
}

pub proof fn lemma_section_v2(
    a: Seq<u8>,
    v: ClientBlocksView,
    b: Seq<u8>,
    t: Streams,
    keys: Seq<Seq<char>>,
)
    requires
        v.wf(),
        all_wire_form(v.items),
        keys.len() + keys_of_items(v.items).len() <= key_room(),
    ensures
        section_v2(
            a + section_cols(v, keys.len()).rest + b,
            a.len() as int,
            join_streams(section_cols(v, keys.len()).st, t),
            keys,
        ) == Some(
            (
                v,
                (a.len() + section_cols(v, keys.len()).rest.len()) as int,
                t,
                keys + keys_of_items(v.items),
            ),
        ),
        section_cols(v, keys.len()).st.key_clock.len() == keys_of_items(v.items).len(),
{
    let k = keys.len();
    let c = section_cols(v, k);
    let ic = items_cols(v.items, k);
    let s = a + c.rest + b;
    let st = join_streams(c.st, t);
    let x1 = uvar_bytes(v.items.len());
    let x2 = uvar_bytes(v.clock as nat);
    let a2 = a + x1;
    let a3 = a2 + x2;
    let t1 = join_streams(ic.st, t);
    lemma_items_keys(v.items, k);
    assert(c.rest =~= x1 + x2 + ic.rest);
    assert(u64_at(s, a.len() as int) == Some((v.items.len() as u64, a2.len() as int))) by {
        assert(s =~= a + x1 + (x2 + ic.rest + b));
        lemma_u64_round_trip(a, v.items.len() as u64, x2 + ic.rest + b);
    }
    assert(take(st.client) == Some((v.client, t1.client)) && (Streams {
        client: t1.client,
        ..st
    }) == t1) by {
        lemma_take(v.client, t1.client);
        assert(st.client =~= seq![v.client] + t1.client);
        assert((Streams { client: t1.client, ..st }) =~~= t1);
    }
    assert(u32_at(s, a2.len() as int) == Some((v.clock, a3.len() as int))) by {
        assert(s =~= a2 + x2 + (ic.rest + b));
        lemma_u32_round_trip(a2, v.clock, ic.rest + b);
    }
    assert(items_v2(s, a3.len() as int, t1, keys, v.items.len(), v.client, v.clock) == Some(
        (v.items, (a3.len() + ic.rest.len()) as int, t, keys + keys_of_items(v.items)),
    )) by {
        assert(s =~= a3 + ic.rest + b);
        lemma_items_v2(a3, v.items, b, t, keys, v.client, v.clock);
    }
}

pub proof fn lemma_sections_keys(v: Seq<ClientBlocksView>, k: nat)
    ensures
        sections_cols(v, k).st.key_clock.len() == keys_of_blocks(v).len(),
    decreases v.len(),
{
    reveal(sections_cols);
    if v.len() > 0 {
        let head = section_cols(v[0], k);
        lemma_items_keys(v[0].items, k);
        lemma_sections_keys(v.drop_first(), k + head.st.key_clock.len());
    }
}

pub proof fn lemma_sections_v2(
    a: Seq<u8>,
    v: Seq<ClientBlocksView>,
    b: Seq<u8>,
    t: Streams,
    keys: Seq<Seq<char>>,
)
    requires
        blocks_wf(v),
        blocks_wire_form(v),
        keys.len() + keys_of_blocks(v).len() <= key_room(),
    ensures
        sections_v2(
            a + sections_cols(v, keys.len()).rest + b,
            a.len() as int,
            join_streams(sections_cols(v, keys.len()).st, t),
            keys,
            v.len(),
        ) == Some(
            (
                v,
                (a.len() + sections_cols(v, keys.len()).rest.len()) as int,
                t,
                keys + keys_of_blocks(v),
            ),
        ),
    decreases v.len(),
{
    let k = keys.len();
    let c = sections_cols(v, k);
    let s = a + c.rest + b;
    let st = join_streams(c.st, t);
    if v.len() == 0 {
        assert(c == only(no_streams())) by {
            reveal(sections_cols);
        }
        assert(v =~= Seq::<ClientBlocksView>::empty());
        assert(st =~~= t);
        assert(s =~= a + b);
        assert(keys + keys_of_blocks(v) =~= keys);
        assert(sections_v2(s, a.len() as int, st, keys, 0) == Some(
            (Seq::<ClientBlocksView>::empty(), a.len() as int, st, keys),
        )) by {
            reveal(sections_v2);
        }
    } else {
        let e = v[0];
        let rest = v.drop_first();
        let head = section_cols(e, k);
        let keys2 = keys + keys_of_items(e.items);
        let tail = sections_cols(rest, k + head.st.key_clock.len());
        let t1 = join_streams(tail.st, t);
        let q = (a.len() + head.rest.len()) as int;
        assert(c == cols_add(head, tail)) by {
            reveal(sections_cols);
        }
        assert(e.wf() && all_wire_form(e.items));
        assert(section_v2(s, a.len() as int, st, keys) == Some((e, q, t1, keys2))
            && head.st.key_clock.len() == keys_of_items(e.items).len()) by {
            lemma_section_v2(a, e, tail.rest + b, t1, keys);
            assert(s =~= a + head.rest + (tail.rest + b));
            assert(st =~~= join_streams(head.st, t1));
        }
        assert(sections_v2(s, q, t1, keys2, rest.len()) == Some(
            (rest, (a.len() + c.rest.len()) as int, t, keys2 + keys_of_blocks(rest)),
        )) by {
            assert forall|i: int| 0 <= i < rest.len() implies (#[trigger] rest[i]).wf()
                && all_wire_form(rest[i].items) by {
                assert(v[i + 1].wf() && all_wire_form(v[i + 1].items));
            }
            assert(keys2.len() == k + head.st.key_clock.len());
            assert(s =~= (a + head.rest) + tail.rest + b);
            lemma_sections_v2(a + head.rest, rest, b, t, keys2);
        }
        assert(seq![e] + rest =~= v);
        assert(keys2 + keys_of_blocks(rest) =~= keys + keys_of_blocks(v));
        assert(sections_v2(s, a.len() as int, st, keys, v.len()) == Some(
            (v, (a.len() + c.rest.len()) as int, t, keys + keys_of_blocks(v)),
        )) by {
            reveal(sections_v2);
        }
    }
}

pub proof fn lemma_ranges_v2(a: Seq<u8>, rs: Seq<Range>, b: Seq<u8>, cur: int)
    requires
        ranges_wf(rs),
        0 <= cur,
        rs.len() > 0 ==> cur <= rs[0].start,
    ensures
        ranges_v2(a + ranges_bytes_v2(rs, cur) + b, a.len() as int, rs.len(), cur) == Some(
            (rs, (a.len() + ranges_bytes_v2(rs, cur).len()) as int),
        ),
    decreases rs.len(),
{
    let s = a + ranges_bytes_v2(rs, cur) + b;
    reveal(ranges_v2);
    reveal(ranges_bytes_v2);
    if rs.len() == 0 {
        assert(rs =~= Seq::<Range>::empty());
    } else {
        let e = rs[0];
        let rest = rs.drop_first();
        let x1 = uvar_bytes((e.start - cur) as nat);
        let x2 = uvar_bytes((e.len - 1) as nat);
        let y = ranges_bytes_v2(rest, e.end());
        assert(e.wf());
        assert(range_v2(s, a.len() as int, cur) == Some(
            (e, (a.len() + x1.len() + x2.len()) as int),
        )) by {
            assert(s =~= a + x1 + (x2 + y + b));
            lemma_u64_round_trip(a, (e.start - cur) as u64, x2 + y + b);
            assert(s =~= (a + x1) + x2 + (y + b));
            lemma_u64_round_trip(a + x1, (e.len - 1) as u64, y + b);
        }
        assert forall|i: int| 0 <= i < rest.len() implies (#[trigger] rest[i]).wf() by {
            assert(rs[i + 1].wf());
        }
        assert forall|i: int, j: int| 0 <= i < j < rest.len() implies (#[trigger] rest[i]).end() < (
        #[trigger] rest[j]).start by {
            assert(rs[i + 1].end() < rs[j + 1].start);
        }
        if rest.len() > 0 {
            assert(rs[0].end() < rs[1].start);
        }
        assert(s =~= (a + x1 + x2) + y + b);
        lemma_ranges_v2(a + x1 + x2, rest, b, e.end());
        assert(seq![e] + rest =~= rs);
    }
}

pub proof fn lemma_entries_v2(a: Seq<u8>, v: IdSetView, b: Seq<u8>)
    requires
        ids_wf(v),
        ids_sized(v),
    ensures
        entries_v2(a + entries_bytes_v2(v) + b, a.len() as int, v.len()) == Some(
            (v, (a.len() + entries_bytes_v2(v).len()) as int),
        ),
    decreases v.len(),
{
    let s = a + entries_bytes_v2(v) + b;
    reveal(entries_v2);
    reveal(entries_bytes_v2);
    if v.len() == 0 {
        assert(v =~= Seq::<(ClientID, Seq<Range>)>::empty());
    } else {
        let e = v[0];
        let rest = v.drop_first();
        let x1 = uvar_bytes(e.0 as nat);
        let x2 = uvar_bytes(e.1.len());
        let x3 = ranges_bytes_v2(e.1, 0);
        let x = entry_bytes_v2(e);
        let y = entries_bytes_v2(rest);
        assert(ranges_wf(e.1) && e.1.len() <= u64::MAX);
        assert(entry_v2(s, a.len() as int) == Some((e, (a.len() + x.len()) as int))) by {
            assert(s =~= a + x1 + (x2 + x3 + y + b));
            lemma_u64_round_trip(a, e.0, x2 + x3 + y + b);
            assert(s =~= (a + x1) + x2 + (x3 + y + b));
            lemma_u64_round_trip(a + x1, e.1.len() as u64, x3 + y + b);
            assert(s =~= (a + x1 + x2) + x3 + (y + b));
            lemma_ranges_v2(a + x1 + x2, e.1, y + b, 0);
        }
        assert forall|i: int| 0 <= i < rest.len() implies ranges_wf((#[trigger] rest[i]).1)
            && rest[i].1.len() >= 1 && rest[i].1.len() <= u64::MAX by {
            assert(ranges_wf(v[i + 1].1));
            assert(v[i + 1].1.len() <= u64::MAX);
        }
        assert forall|i: int, j: int| 0 <= i < j < rest.len() implies (#[trigger] rest[i]).0 > (
        #[trigger] rest[j]).0 by {
            assert(v[i + 1].0 > v[j + 1].0);
        }
        assert(s =~= (a + x) + y + b);
        lemma_entries_v2(a + x, rest, b);
        assert(seq![e] + rest =~= v);
    }
}

/// What is written of columns can be written: the numbers of values and
/// of bytes fit, the strings as one can be written, and there is room for
/// the keys.
pub open spec fn cols_fit(c: Cols) -> bool {
    &&& cols_bytes(c).len() <= usize::MAX
    &&& c.st.key_clock.len() <= key_room()
    &&& c.st.client.len() <= u64::MAX
    &&& c.st.left_clock.len() <= u64::MAX
    &&& c.st.right_clock.len() <= u64::MAX
    &&& c.st.info.len() <= u64::MAX
    &&& c.st.parent_info.len() <= u64::MAX
    &&& c.st.type_ref.len() <= u64::MAX
    &&& c.st.len.len() <= u64::MAX
    &&& c.st.strings.len() <= u64::MAX
    &&& forall|i: int| 0 <= i < c.st.strings.len() ==> (#[trigger] c.st.strings[i]).len() <= u64::MAX
    &&& writable(join(c.st.strings))
}

/// One column that was written, with its length in front, is found again
/// where it stands.
proof fn lemma_col(s: Seq<u8>, a: Seq<u8>, x: Seq<u8>, r: Seq<u8>)
    requires
        s == a + (span_bytes(x) + r),
        s.len() <= usize::MAX,
    ensures
        col_at(s, a.len() as int) matches Some((sp, q)) && sp.of(s) == x && q == a.len()
            + span_bytes(x).len(),
        s == (a + span_bytes(x)) + r,
{
    assert(s =~= a + span_bytes(x) + r);
    lemma_span_round_trip(a, x, r);
}

/// The places of the columns that were written.
#[verifier::rlimit(80)]
proof fn lemma_header_spans(c: Cols)
    requires
        cols_bytes(c).len() <= usize::MAX,
    ensures
        header_at(cols_bytes(c)) matches Some((sp, p)) && 0 <= p <= cols_bytes(c).len()
            && cols_bytes(c).subrange(p, cols_bytes(c).len() as int) == c.rest && sp.key_clock.of(
            cols_bytes(c),
        ) == diff_col_bytes(c.st.key_clock, 0) && sp.client.of(cols_bytes(c)) == uint_col_bytes(
            c.st.client,
        ) && sp.left_clock.of(cols_bytes(c)) == diff_col_bytes(c.st.left_clock, 0)
            && sp.right_clock.of(cols_bytes(c)) == diff_col_bytes(c.st.right_clock, 0)
            && sp.info.of(cols_bytes(c)) == rle_col_bytes(c.st.info) && sp.strings.of(
            cols_bytes(c),
        ) == str_col_bytes(c.st.strings) && sp.parent_info.of(cols_bytes(c)) == rle_col_bytes(
            c.st.parent_info,
        ) && sp.type_ref.of(cols_bytes(c)) == uint_col_bytes(c.st.type_ref) && sp.len.of(
            cols_bytes(c),
        ) == uint_col_bytes(c.st.len),
{
    let s = cols_bytes(c);
    let e = Seq::<u8>::empty();
    let x0 = uvar_bytes(0);
    let c1 = diff_col_bytes(c.st.key_clock, 0);
    let c2 = uint_col_bytes(c.st.client);
    let c3 = diff_col_bytes(c.st.left_clock, 0);
    let c4 = diff_col_bytes(c.st.right_clock, 0);
    let c5 = rle_col_bytes(c.st.info);
    let c6 = str_col_bytes(c.st.strings);
    let c7 = rle_col_bytes(c.st.parent_info);
    let c8 = uint_col_bytes(c.st.type_ref);
    let c9 = uint_col_bytes(c.st.len);
    let r9 = c.rest;
    let r8 = span_bytes(c9) + r9;
    let r7 = span_bytes(c8) + r8;
    let r6 = span_bytes(c7) + r7;
    let r5 = span_bytes(c6) + r6;
    let r4 = span_bytes(c5) + r5;
    let r3 = span_bytes(c4) + r4;
    let r2 = span_bytes(c3) + r3;
    let r1 = span_bytes(c2) + r2;
    let r0 = span_bytes(c1) + r1;
    let a1 = e + x0;
    let a2 = a1 + span_bytes(c1);
    let a3 = a2 + span_bytes(c2);
    let a4 = a3 + span_bytes(c3);
    let a5 = a4 + span_bytes(c4);
    let a6 = a5 + span_bytes(c5);
    let a7 = a6 + span_bytes(c6);
    let a8 = a7 + span_bytes(c7);
    let a9 = a8 + span_bytes(c8);
    let a10 = a9 + span_bytes(c9);
    assert(s =~= e + x0 + r0);
    assert(s == a1 + r0);
    lemma_u64_round_trip(e, 0, r0);
    lemma_col(s, a1, c1, r1);
    lemma_col(s, a2, c2, r2);
    lemma_col(s, a3, c3, r3);
    lemma_col(s, a4, c4, r4);
    lemma_col(s, a5, c5, r5);
    lemma_col(s, a6, c6, r6);
    lemma_col(s, a7, c7, r7);
    lemma_col(s, a8, c8, r8);
    lemma_col(s, a9, c9, r9);
    assert(s == a10 + r9);
    assert(s.subrange(a10.len() as int, s.len() as int) =~= r9);
}

/// The columns that were written are found again, each with its values,
/// and what stands behind them begins where the columns end.
pub proof fn lemma_header(c: Cols)
    requires
        cols_fit(c),
    ensures
        header_at(cols_bytes(c)) matches Some((sp, p)) && 0 <= p <= cols_bytes(c).len()
            && cols_bytes(c).subrange(p, cols_bytes(c).len() as int) == c.rest && exists|t: Streams|
            streams_of(cols_bytes(c), sp) == join_streams(c.st, t),
{
    let s = cols_bytes(c);
    let e = Seq::<u8>::empty();
    lemma_header_spans(c);
    let (sp, p) = header_at(s).unwrap();
    let got = streams_of(s, sp);
    assert(got.key_clock == c.st.key_clock) by {
        assert(e + diff_col_bytes(c.st.key_clock, 0) =~= diff_col_bytes(c.st.key_clock, 0));
        lemma_diff_col_round_trip(e, c.st.key_clock, 0);
    }
    assert(got.client == c.st.client) by {
        assert(e + uint_col_bytes(c.st.client) =~= uint_col_bytes(c.st.client));
        lemma_uint_col_round_trip(e, c.st.client);
    }
    assert(got.left_clock == c.st.left_clock) by {
        assert(e + diff_col_bytes(c.st.left_clock, 0) =~= diff_col_bytes(c.st.left_clock, 0));
        lemma_diff_col_round_trip(e, c.st.left_clock, 0);
    }
    assert(got.right_clock == c.st.right_clock) by {
        assert(e + diff_col_bytes(c.st.right_clock, 0) =~= diff_col_bytes(c.st.right_clock, 0));
        lemma_diff_col_round_trip(e, c.st.right_clock, 0);
    }
    assert(got.info.len() >= c.st.info.len() && got.info.subrange(0, c.st.info.len() as int)
        == c.st.info) by {
        assert(e + rle_col_bytes(c.st.info) =~= rle_col_bytes(c.st.info));
        lemma_rle_col_round_trip(e, c.st.info);
    }
    assert(got.strings == c.st.strings) by {
        lemma_str_col_round_trip(c.st.strings);
    }
    assert(got.parent_info.len() >= c.st.parent_info.len() && got.parent_info.subrange(
        0,
        c.st.parent_info.len() as int,
    ) == c.st.parent_info) by {
        assert(e + rle_col_bytes(c.st.parent_info) =~= rle_col_bytes(c.st.parent_info));
        lemma_rle_col_round_trip(e, c.st.parent_info);
    }
    assert(got.type_ref == c.st.type_ref) by {
        assert(e + uint_col_bytes(c.st.type_ref) =~= uint_col_bytes(c.st.type_ref));
        lemma_uint_col_round_trip(e, c.st.type_ref);
    }
    assert(got.len == c.st.len) by {
        assert(e + uint_col_bytes(c.st.len) =~= uint_col_bytes(c.st.len));
        lemma_uint_col_round_trip(e, c.st.len);
    }
    let t = Streams {
        info: got.info.skip(c.st.info.len() as int),
        parent_info: got.parent_info.skip(c.st.parent_info.len() as int),
        ..no_streams()
    };
    assert(got =~~= join_streams(c.st, t));
}

/// An update that is written in the second format and read again is the
/// update it was: the same runs of blocks, block by block and field by
/// field, and the same ranges in the delete set.
pub proof fn law_update_round_trip_v2(u: UpdateView)
    requires
        u.wf(),
        cols_fit(update_cols(u)),
    ensures
        update_at_v2(update_bytes_v2(u)) == Some(u),
{
    crate::update::lemma_wf_wire_form(u);
    let c = update_cols(u);
    let s = cols_bytes(c);
    lemma_header(c);
    let (sp, p) = header_at(s).unwrap();
    let t = choose|t: Streams| streams_of(s, sp) == join_streams(c.st, t);
    let sc = sections_cols(u.blocks, 0);
    let x1 = uvar_bytes(u.blocks.len());
    let x3 = ds_bytes_v2(u.delete_set);
    let a = s.subrange(0, p);
    let e = Seq::<u8>::empty();
    let none = Seq::<Seq<char>>::empty();
    assert(c.rest =~= x1 + sc.rest + x3);
    assert(c.st =~~= sc.st);
    assert(s =~= a + c.rest);
    lemma_sections_keys(u.blocks, 0);
    let a2 = a + x1;
    let a3 = a2 + sc.rest;
    assert(u64_at(s, p) == Some((u.blocks.len() as u64, a2.len() as int))) by {
        assert(s =~= a + x1 + (sc.rest + x3));
        lemma_u64_round_trip(a, u.blocks.len() as u64, sc.rest + x3);
    }
    assert(sections_v2(s, a2.len() as int, streams_of(s, sp), none, u.blocks.len()) == Some(
        (u.blocks, a3.len() as int, t, none + keys_of_blocks(u.blocks)),
    )) by {
        assert(s =~= a2 + sc.rest + x3);
        lemma_sections_v2(a2, u.blocks, x3, t, none);
    }
    let y1 = uvar_bytes(u.delete_set.len());
    let y2 = entries_bytes_v2(u.delete_set);
    assert(ds_v2(s, a3.len() as int) == Some((u.delete_set, s.len() as int))) by {
        assert(s =~= a3 + y1 + (y2 + e));
        lemma_u64_round_trip(a3, u.delete_set.len() as u64, y2 + e);
        assert(s =~= (a3 + y1) + y2 + e);
        lemma_entries_v2(a3 + y1, u.delete_set, e);
    }
}

} // verus!
