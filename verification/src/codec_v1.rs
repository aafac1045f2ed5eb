//! The first binary format of updates.
//!
//! An update is written as the number of runs of blocks; for each run the
//! number of its blocks, the client and the clock of the first block; then
//! the blocks, and behind them the delete set. A block is an info byte, the
//! neighbours that it names, its container and key where it names no
//! neighbour, and its content. The info byte holds the kind of content in
//! its five low bits, and above them one bit each for a key, a right
//! neighbour and a left neighbour.

use crate::block::{
    kind_has_name, Branch, BranchView, ContentView, Item, ItemContent, ItemView, TypePtr,
    TypePtrView, TYPE_REFS_XML_TEXT,
};
use crate::id::ID;
use crate::text::{
    lemma_string_round_trip, read_string, string_at, string_bytes, writable, write_string,
};
use crate::value::{
    lemma_value_cut, lemma_value_round_trip, scan_value, value_at, Value, MAX_DEPTH,
};
use crate::varint::{
    lemma_u32_round_trip, lemma_u64_round_trip, read_u32, read_u64, u32_at, u64_at, uvar_bytes,
    write_bytes, write_uvar,
};
use vstd::prelude::*;
use vstd::slice::{slice_subrange, slice_to_vec};

verus! {

pub const REF_DELETED: u8 = 1;

pub const REF_STRING: u8 = 4;

pub const REF_TYPE: u8 = 7;

pub const REF_ANY: u8 = 8;

/// A list read from a buffer, with `a` put in front of it.
pub open spec fn prepend<T>(a: Seq<T>, r: Option<(Seq<T>, int)>) -> Option<(Seq<T>, int)> {
    match r {
        Some((t, q)) => Some((a + t, q)),
        None => None,
    }
}

pub proof fn lemma_prepend<T>(a: Seq<T>, x: T, r: Option<(Seq<T>, int)>)
    ensures
        prepend(a, prepend(seq![x], r)) == prepend(a.push(x), r),
        prepend(a, Some((Seq::<T>::empty(), 0int))) == Some((a, 0int)),
{
    match r {
        Some((t, q)) => {
            assert(a + (seq![x] + t) =~= a.push(x) + t);
        },
        None => {},
    }
    assert(a + Seq::<T>::empty() =~= a);
}

/// An identifier: the client, then the clock.
pub open spec fn id_at(s: Seq<u8>, pos: int) -> Option<(ID, int)> {
    match u64_at(s, pos) {
        Some((client, q)) => match u32_at(s, q) {
            Some((clock, q2)) => Some((ID { client, clock }, q2)),
            None => None,
        },
        None => None,
    }
}

pub open spec fn id_bytes(id: ID) -> Seq<u8> {
    uvar_bytes(id.client as nat) + uvar_bytes(id.clock as nat)
}

/// An identifier where `present` is set, and nothing where it is not.
pub open spec fn opt_id_at(s: Seq<u8>, pos: int, present: bool) -> Option<(Option<ID>, int)> {
    if present {
        match id_at(s, pos) {
            Some((id, q)) => Some((Some(id), q)),
            None => None,
        }
    } else {
        Some((None, pos))
    }
}

pub open spec fn opt_id_bytes(id: Option<ID>) -> Seq<u8> {
    match id {
        Some(i) => id_bytes(i),
        None => Seq::empty(),
    }
}

/// `n` values in a row, each as the bytes that it takes.
pub open spec fn anys_at(s: Seq<u8>, pos: int, n: nat) -> Option<(Seq<Seq<u8>>, int)>
    decreases n,
{
    if n == 0 {
        Some((Seq::empty(), pos))
    } else {
        match value_at(s, pos, MAX_DEPTH as nat) {
            Some(q) => prepend(seq![s.subrange(pos, q)], anys_at(s, q, (n - 1) as nat)),
            None => None,
        }
    }
}

/// The bytes of the values, one behind the other.
pub open spec fn concat(vs: Seq<Seq<u8>>) -> Seq<u8>
    decreases vs.len(),
{
    if vs.len() == 0 {
        Seq::empty()
    } else {
        vs[0] + concat(vs.drop_first())
    }
}

/// The content of the kind `kind` that starts at `pos`.
pub open spec fn content_at(s: Seq<u8>, pos: int, kind: u8) -> Option<(ContentView, int)> {
    if kind == REF_DELETED {
        match u32_at(s, pos) {
            Some((n, q)) => Some((ContentView::Deleted(n), q)),
            None => None,
        }
    } else if kind == REF_STRING {
        match string_at(s, pos) {
            Some((cs, q)) => Some((ContentView::String(cs), q)),
            None => None,
        }
    } else if kind == REF_TYPE {
        match u64_at(s, pos) {
            Some((t, q)) => if t > TYPE_REFS_XML_TEXT {
                None
            } else if kind_has_name(t as u8) {
                match string_at(s, q) {
                    Some((name, q2)) => Some(
                        (ContentView::Type(BranchView { type_ref: t as u8, name: Some(name) }), q2),
                    ),
                    None => None,
                }
            } else {
                Some((ContentView::Type(BranchView { type_ref: t as u8, name: None }), q))
            },
            None => None,
        }
    } else if kind == REF_ANY {
        match u64_at(s, pos) {
            Some((n, q)) => match anys_at(s, q, n as nat) {
                Some((vs, q2)) => Some((ContentView::Any(vs), q2)),
                None => None,
            },
            None => None,
        }
    } else {
        None
    }
}

/// The number that names the kind of the content.
pub open spec fn content_ref(c: ContentView) -> u8 {
    match c {
        ContentView::Deleted(_) => REF_DELETED,
        ContentView::String(_) => REF_STRING,
        ContentView::Type(_) => REF_TYPE,
        ContentView::Any(_) => REF_ANY,
    }
}

pub open spec fn content_bytes(c: ContentView) -> Seq<u8> {
    match c {
        ContentView::Deleted(n) => uvar_bytes(n as nat),
        ContentView::String(cs) => string_bytes(cs),
        ContentView::Type(b) => uvar_bytes(b.type_ref as nat) + (match b.name {
            Some(n) => string_bytes(n),
            None => Seq::empty(),
        }),
        ContentView::Any(vs) => uvar_bytes(vs.len()) + concat(vs),
    }
}

/// The container that a block names: a flag, then the name of a root
/// where the flag is one, or the identifier of a block where it is zero.
pub open spec fn parent_at(s: Seq<u8>, pos: int) -> Option<(TypePtrView, int)> {
    match u64_at(s, pos) {
        Some((flag, q)) => if flag == 1 {
            match string_at(s, q) {
                Some((name, q2)) => Some((TypePtrView::Named(name), q2)),
                None => None,
            }
        } else if flag == 0 {
            match id_at(s, q) {
                Some((id, q2)) => Some((TypePtrView::Id(id), q2)),
                None => None,
            }
        } else {
            None
        },
        None => None,
    }
}

pub open spec fn parent_bytes(p: TypePtrView) -> Seq<u8> {
    match p {
        TypePtrView::Named(name) => uvar_bytes(1) + string_bytes(name),
        TypePtrView::Id(id) => uvar_bytes(0) + id_bytes(id),
        TypePtrView::Unknown => Seq::empty(),
    }
}

/// A key where `present` is set.
pub open spec fn opt_string_at(s: Seq<u8>, pos: int, present: bool) -> Option<
    (Option<Seq<char>>, int),
> {
    if present {
        match string_at(s, pos) {
            Some((k, q)) => Some((Some(k), q)),
            None => None,
        }
    } else {
        Some((None, pos))
    }
}

pub open spec fn opt_string_bytes(k: Option<Seq<char>>) -> Seq<u8> {
    match k {
        Some(cs) => string_bytes(cs),
        None => Seq::empty(),
    }
}

/// The info byte of a block.
pub open spec fn info_of(it: ItemView) -> u8 {
    (content_ref(it.content) + (if it.parent_sub is Some {
        32int
    } else {
        0
    }) + (if it.right_origin is Some {
        64int
    } else {
        0
    }) + (if it.origin is Some {
        128int
    } else {
        0
    })) as u8
}

/// The kind of content that an info byte names.
pub open spec fn info_kind(info: u8) -> u8 {
    info % 32
}

/// Whether an info byte says that the block has a key.
pub open spec fn info_sub(info: u8) -> bool {
    (info / 32) % 2 == 1
}

/// Whether an info byte says that the block names a right neighbour.
pub open spec fn info_right(info: u8) -> bool {
    (info / 64) % 2 == 1
}

/// Whether an info byte says that the block names a left neighbour.
pub open spec fn info_left(info: u8) -> bool {
    info >= 128
}

/// What is read behind the neighbours of a block: container and key
/// where it names no neighbour, and neither where it names one.
pub open spec fn naming_at(s: Seq<u8>, pos: int, has_origin: bool, has_sub: bool) -> Option<
    ((TypePtrView, Option<Seq<char>>), int),
> {
    if has_origin {
        Some(((TypePtrView::Unknown, None), pos))
    } else {
        match parent_at(s, pos) {
            Some((parent, at3)) => match opt_string_at(s, at3, has_sub) {
                Some((sub, at4)) => Some(((parent, sub), at4)),
                None => None,
            },
            None => None,
        }
    }
}

/// The block with the identifier `id` that starts at `pos`. A block that
/// names a neighbour names neither container nor key; one that names none
/// names its container. A block that spans no position, or whose last clock
/// does not fit, is none.
pub open spec fn item_at(s: Seq<u8>, pos: int, id: ID) -> Option<(ItemView, int)> {
    if pos < 0 || pos >= s.len() {
        None
    } else {
        let info = s[pos];
        match opt_id_at(s, pos + 1, info_left(info)) {
            Some((origin, at1)) => match opt_id_at(s, at1, info_right(info)) {
                Some((right_origin, at2)) => match naming_at(
                    s,
                    at2,
                    info_left(info) || info_right(info),
                    info_sub(info),
                ) {
                    Some(((parent, parent_sub), at4)) => match content_at(s, at4, info_kind(info)) {
                        Some((content, at5)) => if content.len() >= 1 && id.clock + content.len()
                            <= u32::MAX {
                            Some(
                                (
                                    ItemView {
                                        id,
                                        origin,
                                        right_origin,
                                        parent,
                                        parent_sub,
                                        content,
                                    },
                                    at5,
                                ),
                            )
                        } else {
                            None
                        },
                        None => None,
                    },
                    None => None,
                },
                None => None,
            },
            None => None,
        }
    }
}

/// What a block says of its container: nothing where it names a
/// neighbour, else the container and the key.
pub open spec fn naming_bytes(it: ItemView) -> Seq<u8> {
    if it.has_origin() {
        Seq::empty()
    } else {
        parent_bytes(it.parent) + opt_string_bytes(it.parent_sub)
    }
}

pub open spec fn item_bytes(it: ItemView) -> Seq<u8> {
    seq![info_of(it)] + opt_id_bytes(it.origin) + opt_id_bytes(it.right_origin) + naming_bytes(it)
        + content_bytes(it.content)
}

/// Reads an identifier.
pub fn read_id(buf: &[u8], pos: usize) -> (r: Option<(ID, usize)>)
    ensures
        match r {
            Some((v, q)) => id_at(buf@, pos as int) == Some((v, q as int)) && pos < q <= buf.len(),
            None => id_at(buf@, pos as int) is None,
        },
{
    match read_u64(buf, pos) {
        Some((client, q)) => match read_u32(buf, q) {
            Some((clock, q2)) => Some((ID { client, clock }, q2)),
            None => None,
        },
        None => None,
    }
}

/// Appends an identifier.
pub fn write_id(out: &mut Vec<u8>, id: &ID)
    ensures
        final(out)@ == old(out)@ + id_bytes(*id),
{
    let ghost before = out@;
    write_uvar(out, id.client);
    write_uvar(out, id.clock as u64);
    assert(out@ =~= before + id_bytes(*id));
}

fn read_opt_id(buf: &[u8], pos: usize, present: bool) -> (r: Option<(Option<ID>, usize)>)
    requires
        pos <= buf.len(),
    ensures
        match r {
            Some((v, q)) => opt_id_at(buf@, pos as int, present) == Some((v, q as int)) && pos <= q
                <= buf.len(),
            None => opt_id_at(buf@, pos as int, present) is None,
        },
{
    if present {
        match read_id(buf, pos) {
            Some((id, q)) => Some((Some(id), q)),
            None => None,
        }
    } else {
        Some((None, pos))
    }
}

fn write_opt_id(out: &mut Vec<u8>, id: &Option<ID>)
    ensures
        final(out)@ == old(out)@ + opt_id_bytes(*id),
{
    let ghost before = out@;
    match id {
        Some(i) => write_id(out, i),
        None => {
            assert(out@ =~= before + opt_id_bytes(*id));
        },
    }
}

fn read_opt_string(buf: &[u8], pos: usize, present: bool) -> (r: Option<(Option<String>, usize)>)
    requires
        pos <= buf.len(),
    ensures
        match r {
            Some((v, q)) => opt_string_at(buf@, pos as int, present) == Some(
                (crate::text::opt_text(v), q as int),
            ) && pos <= q <= buf.len() && (v matches Some(k) ==> crate::text::writable(k@)),
            None => opt_string_at(buf@, pos as int, present) is None,
        },
{
    if present {
        match read_string(buf, pos) {
            Some((k, q)) => Some((Some(k), q)),
            None => None,
        }
    } else {
        Some((None, pos))
    }
}

/// Reads `n` values.
pub fn read_anys(buf: &[u8], pos: usize, n: u64) -> (r: Option<(Vec<Value>, usize)>)
    requires
        pos <= buf.len(),
    ensures
        match r {
            Some((v, q)) => anys_at(buf@, pos as int, n as nat) == Some(
                (crate::block::values_view(v@), q as int),
            ) && pos <= q <= buf.len() && crate::block::values_wf(crate::block::values_view(v@))
                && v.len() == n,
            None => anys_at(buf@, pos as int, n as nat) is None,
        },
{
    let mut out: Vec<Value> = Vec::new();
    let mut at: usize = pos;
    let mut left: u64 = n;
    let ghost s = buf@;
    proof {
        reveal(anys_at);
    }
    while left > 0
        invariant
            s == buf@,
            pos <= at <= buf.len(),
            left <= n,
            out.len() == n - left,
            crate::block::values_wf(crate::block::values_view(out@)),
            anys_at(s, pos as int, n as nat) == prepend(
                crate::block::values_view(out@),
                anys_at(s, at as int, left as nat),
            ),
        decreases left,
    {
        match scan_value(buf, at, MAX_DEPTH) {
            Some(q) => {
                let ghost before = crate::block::values_view(out@);
                let run = slice_subrange(buf, at, q);
                let v = Value { bytes: slice_to_vec(run) };
                proof {
                    lemma_value_cut(s, at as int, q as int);
                    lemma_prepend(before, v@, anys_at(s, q as int, (left - 1) as nat));
                }
                out.push(v);
                proof {
                    let after = crate::block::values_view(out@);
                    assert(after =~= before.push(v@));
                    assert forall|i: int| 0 <= i < after.len() implies crate::value::valid_value(
                        #[trigger] after[i],
                    ) by {
                        if i < before.len() {
                            assert(crate::value::valid_value(before[i]));
                        }
                    }
                }
                at = q;
                left = left - 1;
            },
            None => {
                return None;
            },
        }
    }
    proof {
        assert(crate::block::values_view(out@) + Seq::<Seq<u8>>::empty()
            =~= crate::block::values_view(out@));
    }
    Some((out, at))
}

/// Appends the values, one behind the other.
pub fn write_anys(out: &mut Vec<u8>, vs: &Vec<Value>)
    ensures
        final(out)@ == old(out)@ + concat(crate::block::values_view(vs@)),
{
    let ghost before = out@;
    let ghost all = crate::block::values_view(vs@);
    let mut i: usize = 0;
    assert(all.subrange(0, all.len() as int) =~= all);
    while i < vs.len()
        invariant
            i <= vs.len(),
            all == crate::block::values_view(vs@),
            before + concat(all) == out@ + concat(all.subrange(i as int, all.len() as int)),
        decreases vs.len() - i,
    {
        let ghost rest = all.subrange(i as int, all.len() as int);
        let ghost cur = out@;
        write_bytes(out, vs[i].as_bytes());
        proof {
            assert(rest.drop_first() =~= all.subrange(i + 1, all.len() as int));
            assert(rest[0] == vs[i as int]@);
            assert(out@ + concat(rest.drop_first()) =~= cur + concat(rest));
        }
        i = i + 1;
    }
    assert(out@ + concat(all.subrange(i as int, all.len() as int)) =~= out@);
}

/// Reads content of the kind `kind`.
pub fn read_content(buf: &[u8], pos: usize, kind: u8) -> (r: Option<(ItemContent, usize)>)
    requires
        pos <= buf.len(),
    ensures
        match r {
            Some((v, q)) => content_at(buf@, pos as int, kind) == Some((v@, q as int)) && pos <= q
                <= buf.len() && v.wf(),
            None => content_at(buf@, pos as int, kind) is None,
        },
{
    if kind == REF_DELETED {
        match read_u32(buf, pos) {
            Some((n, q)) => Some((ItemContent::Deleted(n), q)),
            None => None,
        }
    } else if kind == REF_STRING {
        match read_string(buf, pos) {
            Some((s, q)) => Some((ItemContent::String(s), q)),
            None => None,
        }
    } else if kind == REF_TYPE {
        match read_u64(buf, pos) {
            Some((t, q)) => if t > TYPE_REFS_XML_TEXT as u64 {
                None
            } else if t == 3 || t == 5 {
                match read_string(buf, q) {
                    Some((name, q2)) => Some(
                        (ItemContent::Type(Branch { type_ref: t as u8, name: Some(name) }), q2),
                    ),
                    None => None,
                }
            } else {
                Some((ItemContent::Type(Branch { type_ref: t as u8, name: None }), q))
            },
            None => None,
        }
    } else if kind == REF_ANY {
        match read_u64(buf, pos) {
            Some((n, q)) => match read_anys(buf, q, n) {
                Some((vs, q2)) => Some((ItemContent::Any(vs), q2)),
                None => None,
            },
            None => None,
        }
    } else {
        None
    }
}

/// Appends content.
pub fn write_content(out: &mut Vec<u8>, c: &ItemContent)
    ensures
        final(out)@ == old(out)@ + content_bytes(c@),
{
    let ghost before = out@;
    match c {
        ItemContent::Deleted(n) => write_uvar(out, *n as u64),
        ItemContent::String(s) => write_string(out, s.as_str()),
        ItemContent::Type(b) => {
            write_uvar(out, b.type_ref as u64);
            match &b.name {
                Some(n) => write_string(out, n.as_str()),
                None => {},
            }
            assert(out@ =~= before + content_bytes(c@));
        },
        ItemContent::Any(vs) => {
            write_uvar(out, vs.len() as u64);
            write_anys(out, vs);
            assert(out@ =~= before + content_bytes(c@));
        },
    }
}

fn read_parent(buf: &[u8], pos: usize) -> (r: Option<(TypePtr, usize)>)
    ensures
        match r {
            Some((v, q)) => parent_at(buf@, pos as int) == Some((v@, q as int)) && pos < q
                <= buf.len() && !(v@ is Unknown) && (v matches TypePtr::Named(n)
                ==> crate::text::writable(n@)),
            None => parent_at(buf@, pos as int) is None,
        },
{
    match read_u64(buf, pos) {
        Some((flag, q)) => if flag == 1 {
            match read_string(buf, q) {
                Some((name, q2)) => Some((TypePtr::Named(name), q2)),
                None => None,
            }
        } else if flag == 0 {
            match read_id(buf, q) {
                Some((id, q2)) => Some((TypePtr::Id(id), q2)),
                None => None,
            }
        } else {
            None
        },
        None => None,
    }
}

/// Reads the block with the identifier `id`.
pub fn read_item(buf: &[u8], pos: usize, id: ID) -> (r: Option<(Item, usize)>)
    ensures
        match r {
            Some((v, q)) => item_at(buf@, pos as int, id) == Some((v@, q as int)) && pos < q
                <= buf.len() && v.wf() && v@.wire_form(),
            None => item_at(buf@, pos as int, id) is None,
        },
{
    if pos >= buf.len() {
        return None;
    }
    let info: u8 = buf[pos];
    let kind: u8 = info % 32;
    let has_sub: bool = (info / 32) % 2 == 1;
    let has_right: bool = (info / 64) % 2 == 1;
    let has_left: bool = info >= 128;
    let (origin, at1) = match read_opt_id(buf, pos + 1, has_left) {
        Some(x) => x,
        None => {
            return None;
        },
    };
    let (right_origin, at2) = match read_opt_id(buf, at1, has_right) {
        Some(x) => x,
        None => {
            return None;
        },
    };
    let mut parent: TypePtr = TypePtr::Unknown;
    let mut parent_sub: Option<String> = None;
    let mut at4: usize = at2;
    if !has_left && !has_right {
        let (pa, at3) = match read_parent(buf, at2) {
            Some(x) => x,
            None => {
                return None;
            },
        };
        let (sub, q) = match read_opt_string(buf, at3, has_sub) {
            Some(x) => x,
            None => {
                return None;
            },
        };
        parent = pa;
        parent_sub = sub;
        at4 = q;
    }
    let (content, at5) = match read_content(buf, at4, kind) {
        Some(x) => x,
        None => {
            return None;
        },
    };
    let n: usize = content.len();
    if n < 1 || n > (u32::MAX - id.clock) as usize {
        return None;
    }
    Some((Item { id, origin, right_origin, parent, parent_sub, content }, at5))
}

fn write_naming(out: &mut Vec<u8>, it: &Item)
    ensures
        final(out)@ == old(out)@ + naming_bytes(it@),
{
    let ghost before = out@;
    if it.origin.is_none() && it.right_origin.is_none() {
        match &it.parent {
            TypePtr::Named(name) => {
                write_uvar(out, 1);
                write_string(out, name.as_str());
            },
            TypePtr::Id(id) => {
                write_uvar(out, 0);
                write_id(out, id);
            },
            TypePtr::Unknown => {},
        }
        let ghost mid = out@;
        assert(mid =~= before + parent_bytes(it@.parent));
        match &it.parent_sub {
            Some(k) => write_string(out, k.as_str()),
            None => {},
        }
        assert(out@ =~= mid + opt_string_bytes(it@.parent_sub));
        assert(out@ =~= before + naming_bytes(it@));
    } else {
        assert(out@ =~= before + naming_bytes(it@));
    }
}

/// The info byte of a block.
pub fn info_byte(it: &Item) -> (r: u8)
    ensures
        r == info_of(it@),
{
    let kind: u8 = match &it.content {
        ItemContent::Deleted(_) => REF_DELETED,
        ItemContent::String(_) => REF_STRING,
        ItemContent::Type(_) => REF_TYPE,
        ItemContent::Any(_) => REF_ANY,
    };
    let sub: u8 = if it.parent_sub.is_some() {
        32
    } else {
        0
    };
    let right: u8 = if it.right_origin.is_some() {
        64
    } else {
        0
    };
    let left: u8 = if it.origin.is_some() {
        128
    } else {
        0
    };
    kind + sub + right + left
}

/// Appends a block.
pub fn write_item(out: &mut Vec<u8>, it: &Item)
    ensures
        final(out)@ == old(out)@ + item_bytes(it@),
{
    let ghost before = out@;
    out.push(info_byte(it));
    let ghost s1 = out@;
    write_opt_id(out, &it.origin);
    let ghost s2 = out@;
    write_opt_id(out, &it.right_origin);
    let ghost s3 = out@;
    write_naming(out, it);
    let ghost s4 = out@;
    write_content(out, &it.content);
    proof {
        let v = it@;
        assert(s1 == before.push(info_of(v)));
        assert(s2 == s1 + opt_id_bytes(v.origin));
        assert(s3 == s2 + opt_id_bytes(v.right_origin));
        assert(s4 == s3 + naming_bytes(v));
        assert(out@ == s4 + content_bytes(v.content));
        assert(out@ =~= before + item_bytes(v));
    }
}

pub proof fn lemma_id_round_trip(a: Seq<u8>, id: ID, b: Seq<u8>)
    ensures
        id_at(a + id_bytes(id) + b, a.len() as int) == Some(
            (id, (a.len() + id_bytes(id).len()) as int),
        ),
{
    let s = a + id_bytes(id) + b;
    let u1 = uvar_bytes(id.client as nat);
    let u2 = uvar_bytes(id.clock as nat);
    assert(s =~= a + u1 + (u2 + b));
    lemma_u64_round_trip(a, id.client, u2 + b);
    assert(s =~= (a + u1) + u2 + b);
    lemma_u32_round_trip(a + u1, id.clock, b);
}

pub proof fn lemma_opt_id_round_trip(a: Seq<u8>, id: Option<ID>, b: Seq<u8>)
    ensures
        opt_id_at(a + opt_id_bytes(id) + b, a.len() as int, id is Some) == Some(
            (id, (a.len() + opt_id_bytes(id).len()) as int),
        ),
{
    match id {
        Some(i) => lemma_id_round_trip(a, i, b),
        None => {},
    }
}

pub proof fn lemma_opt_string_round_trip(a: Seq<u8>, k: Option<Seq<char>>, b: Seq<u8>)
    requires
        k matches Some(cs) ==> writable(cs),
    ensures
        opt_string_at(a + opt_string_bytes(k) + b, a.len() as int, k is Some) == Some(
            (k, (a.len() + opt_string_bytes(k).len()) as int),
        ),
{
    match k {
        Some(cs) => lemma_string_round_trip(a, cs, b),
        None => {},
    }
}

pub proof fn lemma_anys_round_trip(a: Seq<u8>, vs: Seq<Seq<u8>>, b: Seq<u8>)
    requires
        crate::block::values_wf(vs),
    ensures
        anys_at(a + concat(vs) + b, a.len() as int, vs.len()) == Some(
            (vs, (a.len() + concat(vs).len()) as int),
        ),
    decreases vs.len(),
{
    let s = a + concat(vs) + b;
    if vs.len() == 0 {
        assert(vs =~= Seq::<Seq<u8>>::empty());
    } else {
        let v = vs[0];
        let rest = vs.drop_first();
        assert(crate::value::valid_value(v));
        assert(s =~= a + v + (concat(rest) + b));
        lemma_value_round_trip(a, v, concat(rest) + b);
        assert forall|i: int| 0 <= i < rest.len() implies crate::value::valid_value(
            #[trigger] rest[i],
        ) by {
            assert(crate::value::valid_value(vs[i + 1]));
        }
        assert(s =~= (a + v) + concat(rest) + b);
        lemma_anys_round_trip(a + v, rest, b);
        assert(seq![v] + rest =~= vs);
    }
}

pub proof fn lemma_content_round_trip(a: Seq<u8>, c: ContentView, b: Seq<u8>)
    requires
        c.wf(),
        c.len() <= u32::MAX,
    ensures
        content_at(a + content_bytes(c) + b, a.len() as int, content_ref(c)) == Some(
            (c, (a.len() + content_bytes(c).len()) as int),
        ),
{
    let s = a + content_bytes(c) + b;
    match c {
        ContentView::Deleted(n) => {
            lemma_u32_round_trip(a, n, b);
        },
        ContentView::String(cs) => {
            lemma_string_round_trip(a, cs, b);
        },
        ContentView::Type(br) => {
            let u = uvar_bytes(br.type_ref as nat);
            let rest = match br.name {
                Some(n) => string_bytes(n),
                None => Seq::empty(),
            };
            assert(s =~= a + u + (rest + b));
            lemma_u64_round_trip(a, br.type_ref as u64, rest + b);
            match br.name {
                Some(n) => {
                    assert(s =~= (a + u) + string_bytes(n) + b);
                    lemma_string_round_trip(a + u, n, b);
                },
                None => {},
            }
        },
        ContentView::Any(vs) => {
            let u = uvar_bytes(vs.len());
            assert(s =~= a + u + (concat(vs) + b));
            lemma_u64_round_trip(a, vs.len() as u64, concat(vs) + b);
            assert(s =~= (a + u) + concat(vs) + b);
            lemma_anys_round_trip(a + u, vs, b);
        },
    }
}

pub proof fn lemma_parent_round_trip(a: Seq<u8>, p: TypePtrView, b: Seq<u8>)
    requires
        !(p is Unknown),
        p matches TypePtrView::Named(n) ==> writable(n),
    ensures
        parent_at(a + parent_bytes(p) + b, a.len() as int) == Some(
            (p, (a.len() + parent_bytes(p).len()) as int),
        ),
{
    let s = a + parent_bytes(p) + b;
    match p {
        TypePtrView::Named(name) => {
            let u = uvar_bytes(1);
            assert(s =~= a + u + (string_bytes(name) + b));
            lemma_u64_round_trip(a, 1, string_bytes(name) + b);
            assert(s =~= (a + u) + string_bytes(name) + b);
            lemma_string_round_trip(a + u, name, b);
        },
        TypePtrView::Id(id) => {
            let u = uvar_bytes(0);
            assert(s =~= a + u + (id_bytes(id) + b));
            lemma_u64_round_trip(a, 0, id_bytes(id) + b);
            assert(s =~= (a + u) + id_bytes(id) + b);
            lemma_id_round_trip(a + u, id, b);
        },
        TypePtrView::Unknown => {},
    }
}

pub proof fn lemma_naming_round_trip(a: Seq<u8>, it: ItemView, b: Seq<u8>)
    requires
        it.wf(),
        it.wire_form(),
    ensures
        naming_at(a + naming_bytes(it) + b, a.len() as int, it.has_origin(), it.parent_sub is Some)
            == Some(((it.parent, it.parent_sub), (a.len() + naming_bytes(it).len()) as int)),
{
    let s = a + naming_bytes(it) + b;
    if it.has_origin() {
    } else {
        let x = parent_bytes(it.parent);
        let y = opt_string_bytes(it.parent_sub);
        assert(s =~= a + x + (y + b));
        lemma_parent_round_trip(a, it.parent, y + b);
        assert(s =~= (a + x) + y + b);
        lemma_opt_string_round_trip(a + x, it.parent_sub, b);
    }
}

/// The flags of an info byte say what the block has.
pub proof fn lemma_info(it: ItemView)
    ensures
        info_kind(info_of(it)) == content_ref(it.content),
        info_sub(info_of(it)) == (it.parent_sub is Some),
        info_right(info_of(it)) == (it.right_origin is Some),
        info_left(info_of(it)) == (it.origin is Some),
{
}

/// Reading a block that was written gives the block back, whatever stands
/// before and behind it.
pub proof fn lemma_item_round_trip(a: Seq<u8>, it: ItemView, b: Seq<u8>)
    requires
        it.wf(),
        it.wire_form(),
    ensures
        item_at(a + item_bytes(it) + b, a.len() as int, it.id) == Some(
            (it, (a.len() + item_bytes(it).len()) as int),
        ),
{
    let s = a + item_bytes(it) + b;
    let info = info_of(it);
    let x1 = seq![info];
    let x2 = opt_id_bytes(it.origin);
    let x3 = opt_id_bytes(it.right_origin);
    let x4 = naming_bytes(it);
    let x5 = content_bytes(it.content);
    let pos = a.len() as int;
    let a2 = a + x1;
    let a3 = a2 + x2;
    let a4 = a3 + x3;
    let a5 = a4 + x4;
    lemma_info(it);
    assert(s[pos] == info);
    assert(opt_id_at(s, pos + 1, it.origin is Some) == Some((it.origin, a3.len() as int))) by {
        assert(s =~= a2 + x2 + (x3 + x4 + x5 + b));
        lemma_opt_id_round_trip(a2, it.origin, x3 + x4 + x5 + b);
    }
    assert(opt_id_at(s, a3.len() as int, it.right_origin is Some) == Some(
        (it.right_origin, a4.len() as int),
    )) by {
        assert(s =~= a3 + x3 + (x4 + x5 + b));
        lemma_opt_id_round_trip(a3, it.right_origin, x4 + x5 + b);
    }
    assert(naming_at(s, a4.len() as int, it.has_origin(), it.parent_sub is Some) == Some(
        ((it.parent, it.parent_sub), a5.len() as int),
    )) by {
        assert(s =~= a4 + x4 + (x5 + b));
        lemma_naming_round_trip(a4, it, x5 + b);
    }
    assert(content_at(s, a5.len() as int, content_ref(it.content)) == Some(
        (it.content, (a5.len() + x5.len()) as int),
    )) by {
        assert(s =~= a5 + x5 + b);
        lemma_content_round_trip(a5, it.content, b);
    }
    assert(a5.len() + x5.len() == a.len() + item_bytes(it).len());
}

} // verus!
