//! Blocks: the units of the operation log.
//!
//! A block starts at an identifier and spans as many positions as its content
//! is long. It names the neighbours between which it was inserted, and the
//! container it belongs to where no neighbour tells.

use crate::id::{same_opt_id, ID};
use crate::text::{note_writable, same_opt_text, same_text, writable};
use crate::value::{valid_value, values_equal, Value};
use vstd::prelude::*;
use vstd::string::StrSliceExecFns;

verus! {

pub const TYPE_REFS_ARRAY: u8 = 0;

pub const TYPE_REFS_MAP: u8 = 1;

pub const TYPE_REFS_TEXT: u8 = 2;

pub const TYPE_REFS_XML_ELEMENT: u8 = 3;

pub const TYPE_REFS_XML_FRAGMENT: u8 = 4;

pub const TYPE_REFS_XML_HOOK: u8 = 5;

pub const TYPE_REFS_XML_TEXT: u8 = 6;

/// The container that a block belongs to.
#[derive(Debug, PartialEq, Eq)]
pub enum TypePtr {
    /// Not named: the block's neighbours tell.
    Unknown,
    /// A root container, by its name.
    Named(String),
    /// The container that the block at this identifier opens.
    Id(ID),
}

pub enum TypePtrView {
    Unknown,
    Named(Seq<char>),
    Id(ID),
}

impl View for TypePtr {
    type V = TypePtrView;

    open spec fn view(&self) -> TypePtrView {
        match self {
            TypePtr::Unknown => TypePtrView::Unknown,
            TypePtr::Named(n) => TypePtrView::Named(n@),
            TypePtr::Id(id) => TypePtrView::Id(*id),
        }
    }
}

impl TypePtr {
    pub fn duplicate(&self) -> (r: TypePtr)
        ensures
            r@ == self@,
    {
        match self {
            TypePtr::Unknown => TypePtr::Unknown,
            TypePtr::Named(n) => TypePtr::Named(n.clone()),
            TypePtr::Id(id) => TypePtr::Id(*id),
        }
    }

    pub fn same(&self, other: &TypePtr) -> (r: bool)
        ensures
            r == (self@ == other@),
    {
        match (self, other) {
            (TypePtr::Unknown, TypePtr::Unknown) => true,
            (TypePtr::Named(a), TypePtr::Named(b)) => same_text(a, b),
            (TypePtr::Id(a), TypePtr::Id(b)) => a.client == b.client && a.clock == b.clock,
            _ => false,
        }
    }
}

/// A nested container: its kind, and its node name where the kind has one.
#[derive(Debug, PartialEq, Eq)]
pub struct Branch {
    pub type_ref: u8,
    pub name: Option<String>,
}

pub struct BranchView {
    pub type_ref: u8,
    pub name: Option<Seq<char>>,
}

impl View for Branch {
    type V = BranchView;

    open spec fn view(&self) -> BranchView {
        BranchView {
            type_ref: self.type_ref,
            name: match self.name {
                Some(n) => Some(n@),
                None => None,
            },
        }
    }
}

/// Whether containers of this kind carry a node name.
pub open spec fn kind_has_name(type_ref: u8) -> bool {
    type_ref == TYPE_REFS_XML_ELEMENT || type_ref == TYPE_REFS_XML_HOOK
}

impl Branch {
    pub fn new(type_ref: u8, name: Option<String>) -> (r: Branch)
        ensures
            r == (Branch { type_ref, name }),
    {
        Branch { type_ref, name }
    }

    pub fn duplicate(&self) -> (r: Branch)
        ensures
            r@ == self@,
    {
        Branch {
            type_ref: self.type_ref,
            name: match &self.name {
                Some(n) => Some(n.clone()),
                None => None,
            },
        }
    }

    pub fn same(&self, other: &Branch) -> (r: bool)
        ensures
            r == (self@ == other@),
    {
        self.type_ref == other.type_ref && same_opt_text(&self.name, &other.name)
    }
}

/// What a block holds.
#[derive(Debug, PartialEq, Eq)]
pub enum ItemContent {
    /// A tombstone over this many positions.
    Deleted(u32),
    /// A run of characters, one position each.
    String(String),
    /// Scalar values, one position each.
    Any(Vec<Value>),
    /// A nested container, one position.
    Type(Branch),
}

pub enum ContentView {
    Deleted(u32),
    String(Seq<char>),
    Any(Seq<Seq<u8>>),
    Type(BranchView),
}

/// The binary forms of a row of values.
pub open spec fn values_view(v: Seq<Value>) -> Seq<Seq<u8>> {
    Seq::new(v.len(), |i: int| v[i]@)
}

impl View for ItemContent {
    type V = ContentView;

    open spec fn view(&self) -> ContentView {
        match self {
            ItemContent::Deleted(n) => ContentView::Deleted(*n),
            ItemContent::String(s) => ContentView::String(s@),
            ItemContent::Any(v) => ContentView::Any(values_view(v@)),
            ItemContent::Type(b) => ContentView::Type(b@),
        }
    }
}

/// Each of the runs of bytes is one value.
pub open spec fn values_wf(v: Seq<Seq<u8>>) -> bool {
    forall|i: int| 0 <= i < v.len() ==> valid_value(#[trigger] v[i])
}

/// Two rows of values of one length whose values `lib0` holds to be equal,
/// one by one.
pub open spec fn values_agree(a: Seq<Seq<u8>>, b: Seq<Seq<u8>>) -> bool {
    a.len() == b.len() && forall|i: int| 0 <= i < a.len() ==> values_equal(#[trigger] a[i], b[i])
}

impl ContentView {
    /// The number of positions that the content spans.
    pub open spec fn len(self) -> nat {
        match self {
            ContentView::Deleted(n) => n as nat,
            ContentView::String(s) => s.len(),
            ContentView::Any(v) => v.len(),
            ContentView::Type(_) => 1,
        }
    }

    /// Content that can be written and read back.
    pub open spec fn wf(self) -> bool {
        match self {
            ContentView::Deleted(_) => true,
            ContentView::String(s) => writable(s),
            ContentView::Any(v) => values_wf(v),
            ContentView::Type(b) => b.type_ref <= TYPE_REFS_XML_TEXT && (b.name is Some
                <==> kind_has_name(b.type_ref)) && (b.name matches Some(n) ==> writable(n)),
        }
    }

    /// The first `k` positions of the content.
    pub open spec fn head(self, k: int) -> ContentView {
        match self {
            ContentView::Deleted(_) => ContentView::Deleted(k as u32),
            ContentView::String(s) => ContentView::String(s.subrange(0, k)),
            ContentView::Any(v) => ContentView::Any(v.subrange(0, k)),
            ContentView::Type(b) => self,
        }
    }

    /// What follows the first `k` positions of the content.
    pub open spec fn tail(self, k: int) -> ContentView {
        match self {
            ContentView::Deleted(n) => ContentView::Deleted((n - k) as u32),
            ContentView::String(s) => ContentView::String(s.subrange(k, s.len() as int)),
            ContentView::Any(v) => ContentView::Any(v.subrange(k, v.len() as int)),
            ContentView::Type(b) => self,
        }
    }

    /// What the content holds at the `n` positions from the position
    /// `from` on.
    pub open spec fn part(self, from: int, n: int) -> ContentView {
        self.tail(from).head(n)
    }

    /// A tombstone over the same positions.
    pub open spec fn erased(self) -> ContentView {
        ContentView::Deleted(self.len() as u32)
    }

    /// Equality of content, with scalar values compared as `lib0` compares
    /// them.
    pub open spec fn agrees(self, other: ContentView) -> bool {
        match (self, other) {
            (ContentView::Any(a), ContentView::Any(b)) => values_agree(a, b),
            (ContentView::Any(_), _) => false,
            (_, ContentView::Any(_)) => false,
            _ => self == other,
        }
    }
}

/// Whether two values have the same binary form.
pub fn same_value_bytes(a: &Value, b: &Value) -> (r: bool)
    ensures
        r == (a@ == b@),
{
    if a.bytes.len() != b.bytes.len() {
        return false;
    }
    let mut i: usize = 0;
    while i < a.bytes.len()
        invariant
            i <= a.bytes.len(),
            a.bytes.len() == b.bytes.len(),
            forall|j: int| 0 <= j < i ==> a.bytes[j] == b.bytes[j],
        decreases a.bytes.len() - i,
    {
        if a.bytes[i] != b.bytes[i] {
            return false;
        }
        i = i + 1;
    }
    assert(a@ =~= b@);
    true
}

/// Copies a row of values.
pub fn duplicate_values(v: &Vec<Value>) -> (r: Vec<Value>)
    ensures
        values_view(r@) == values_view(v@),
{
    let mut out: Vec<Value> = Vec::new();
    let mut i: usize = 0;
    while i < v.len()
        invariant
            i <= v.len(),
            out.len() == i,
            forall|j: int| 0 <= j < i ==> out[j]@ == v[j]@,
        decreases v.len() - i,
    {
        out.push(v[i].duplicate());
        i = i + 1;
    }
    assert(values_view(out@) =~= values_view(v@));
    out
}

impl ItemContent {
    pub open spec fn wf(&self) -> bool {
        self@.wf()
    }

    /// Whether the content can be written and read back.
    pub fn check(&self) -> (r: bool)
        ensures
            r == self.wf(),
    {
        match self {
            ItemContent::Deleted(_) => true,
            ItemContent::String(s) => {
                note_writable(s.as_str());
                true
            },
            ItemContent::Type(b) => {
                match &b.name {
                    Some(n) => {
                        note_writable(n.as_str());
                        b.type_ref == TYPE_REFS_XML_ELEMENT || b.type_ref == TYPE_REFS_XML_HOOK
                    },
                    None => b.type_ref <= TYPE_REFS_XML_TEXT && b.type_ref != TYPE_REFS_XML_ELEMENT
                        && b.type_ref != TYPE_REFS_XML_HOOK,
                }
            },
            ItemContent::Any(v) => {
                let ghost vs = values_view(v@);
                let mut i: usize = 0;
                while i < v.len()
                    invariant
                        i <= v.len(),
                        vs == values_view(v@),
                        self@ == ContentView::Any(vs),
                        forall|j: int| 0 <= j < i ==> valid_value(#[trigger] vs[j]),
                    decreases v.len() - i,
                {
                    if !v[i].check() {
                        assert(!valid_value(vs[i as int]));
                        return false;
                    }
                    i = i + 1;
                }
                true
            },
        }
    }

    /// The number of positions that the content spans.
    pub fn len(&self) -> (r: usize)
        ensures
            r == self@.len(),
    {
        match self {
            ItemContent::Deleted(n) => *n as usize,
            ItemContent::String(s) => s.as_str().unicode_len(),
            ItemContent::Any(v) => v.len(),
            ItemContent::Type(_) => 1,
        }
    }

    pub fn duplicate(&self) -> (r: ItemContent)
        ensures
            r@ == self@,
    {
        match self {
            ItemContent::Deleted(n) => ItemContent::Deleted(*n),
            ItemContent::String(s) => ItemContent::String(s.clone()),
            ItemContent::Any(v) => ItemContent::Any(duplicate_values(v)),
            ItemContent::Type(b) => ItemContent::Type(b.duplicate()),
        }
    }

    /// A copy of what the content holds at the `n` positions from the
    /// position `from` on.
    pub fn part(&self, from: usize, n: usize) -> (r: ItemContent)
        requires
            1 <= n,
            from + n <= self@.len(),
        ensures
            r@ == self@.part(from as int, n as int),
    {
        let whole = self.duplicate();
        let ghost w = whole@;
        let behind: ItemContent = if from > 0 {
            whole.split(from).1
        } else {
            whole
        };
        proof {
            if from == 0 {
                match w {
                    ContentView::String(t) => {
                        assert(t.subrange(0, t.len() as int) =~= t);
                    },
                    ContentView::Any(v) => {
                        assert(v.subrange(0, v.len() as int) =~= v);
                    },
                    _ => {},
                }
            }
        }
        assert(behind@ == w.tail(from as int));
        let ghost b = behind@;
        let total: usize = behind.len();
        if n < total {
            behind.split(n).0
        } else {
            proof {
                match b {
                    ContentView::String(t) => {
                        assert(t.subrange(0, t.len() as int) =~= t);
                    },
                    ContentView::Any(v) => {
                        assert(v.subrange(0, v.len() as int) =~= v);
                    },
                    _ => {},
                }
            }
            behind
        }
    }

    /// Whether the content is a tombstone.
    pub fn is_deleted(&self) -> (r: bool)
        ensures
            r == (self@ is Deleted),
    {
        match self {
            ItemContent::Deleted(_) => true,
            _ => false,
        }
    }

    /// Whether two contents are the same, scalar values compared byte by
    /// byte.
    pub fn equals(&self, other: &ItemContent) -> (r: bool)
        ensures
            r == (self@ == other@),
    {
        match (self, other) {
            (ItemContent::Deleted(a), ItemContent::Deleted(b)) => *a == *b,
            (ItemContent::String(a), ItemContent::String(b)) => same_text(a, b),
            (ItemContent::Type(a), ItemContent::Type(b)) => a.same(b),
            (ItemContent::Any(a), ItemContent::Any(b)) => {
                let ghost va = values_view(a@);
                let ghost vb = values_view(b@);
                if a.len() != b.len() {
                    assert(va.len() != vb.len());
                    return false;
                }
                let mut i: usize = 0;
                while i < a.len()
                    invariant
                        i <= a.len(),
                        a.len() == b.len(),
                        va == values_view(a@),
                        vb == values_view(b@),
                        self@ == ContentView::Any(va),
                        other@ == ContentView::Any(vb),
                        forall|j: int| 0 <= j < i ==> #[trigger] va[j] == vb[j],
                    decreases a.len() - i,
                {
                    assert(va[i as int] == a@[i as int]@ && vb[i as int] == b@[i as int]@);
                    if !same_value_bytes(&a[i], &b[i]) {
                        return false;
                    }
                    i = i + 1;
                }
                assert(va =~= vb);
                true
            },
            _ => false,
        }
    }

    /// Equality of content, with scalar values compared as `lib0` compares
    /// them.
    pub fn same(&self, other: &ItemContent) -> (r: bool)
        requires
            self.wf(),
            other.wf(),
        ensures
            r == self@.agrees(other@),
    {
        match (self, other) {
            (ItemContent::Deleted(a), ItemContent::Deleted(b)) => *a == *b,
            (ItemContent::String(a), ItemContent::String(b)) => same_text(a, b),
            (ItemContent::Type(a), ItemContent::Type(b)) => a.same(b),
            (ItemContent::Any(a), ItemContent::Any(b)) => {
                if a.len() != b.len() {
                    return false;
                }
                let ghost va = values_view(a@);
                let ghost vb = values_view(b@);
                assert forall|j: int| 0 <= j < a.len() implies (#[trigger] a@[j]).wf() by {
                    assert(valid_value(va[j]));
                }
                assert forall|j: int| 0 <= j < b.len() implies (#[trigger] b@[j]).wf() by {
                    assert(valid_value(vb[j]));
                }
                let mut i: usize = 0;
                while i < a.len()
                    invariant
                        i <= a.len(),
                        a.len() == b.len(),
                        va == values_view(a@),
                        vb == values_view(b@),
                        self@ == ContentView::Any(va),
                        other@ == ContentView::Any(vb),
                        forall|j: int| 0 <= j < a.len() ==> (#[trigger] a@[j]).wf(),
                        forall|j: int| 0 <= j < b.len() ==> (#[trigger] b@[j]).wf(),
                        forall|j: int| 0 <= j < i ==> values_equal(#[trigger] va[j], vb[j]),
                    decreases a.len() - i,
                {
                    assert(va[i as int] == a@[i as int]@ && vb[i as int] == b@[i as int]@);
                    if !a[i].same(&b[i]) {
                        return false;
                    }
                    i = i + 1;
                }
                true
            },
            _ => false,
        }
    }

    /// Cuts the content behind its first `k` positions.
    pub fn split(self, k: usize) -> (r: (ItemContent, ItemContent))
        requires
            0 < k < self@.len(),
        ensures
            r.0@ == self@.head(k as int),
            r.1@ == self@.tail(k as int),
    {
        match self {
            ItemContent::Deleted(n) => (
                ItemContent::Deleted(k as u32),
                ItemContent::Deleted(n - k as u32),
            ),
            ItemContent::String(s) => {
                let total: usize = s.as_str().unicode_len();
                let left = s.as_str().substring_char(0, k).to_owned();
                let right = s.as_str().substring_char(k, total).to_owned();
                (ItemContent::String(left), ItemContent::String(right))
            },
            ItemContent::Any(v) => {
                let mut left = v;
                let ghost whole = left@;
                let right = left.split_off(k);
                assert(values_view(left@) =~= values_view(whole).subrange(0, k as int));
                assert(values_view(right@) =~= values_view(whole).subrange(
                    k as int,
                    whole.len() as int,
                ));
                (ItemContent::Any(left), ItemContent::Any(right))
            },
            ItemContent::Type(b) => {
                let copy = b.duplicate();
                (ItemContent::Type(b), ItemContent::Type(copy))
            },
        }
    }
}

/// A block.
#[derive(Debug, PartialEq, Eq)]
pub struct Item {
    /// The first position that the block spans.
    pub id: ID,
    /// The last position of the block that stood to the left when this one
    /// was made; nothing at the start of the container.
    pub origin: Option<ID>,
    /// The first position of the block that stood to the right when this
    /// one was made; nothing at the end of the container.
    pub right_origin: Option<ID>,
    /// The container, where the block names it.
    pub parent: TypePtr,
    /// The key under which the block sits in a container that is a map.
    pub parent_sub: Option<String>,
    pub content: ItemContent,
}

pub struct ItemView {
    pub id: ID,
    pub origin: Option<ID>,
    pub right_origin: Option<ID>,
    pub parent: TypePtrView,
    pub parent_sub: Option<Seq<char>>,
    pub content: ContentView,
}

impl View for Item {
    type V = ItemView;

    open spec fn view(&self) -> ItemView {
        ItemView {
            id: self.id,
            origin: self.origin,
            right_origin: self.right_origin,
            parent: self.parent@,
            parent_sub: match self.parent_sub {
                Some(k) => Some(k@),
                None => None,
            },
            content: self.content@,
        }
    }
}

impl ItemView {
    /// The number of positions that the block spans.
    pub open spec fn len(self) -> nat {
        self.content.len()
    }

    /// The clock behind the block's last position.
    pub open spec fn end(self) -> int {
        self.id.clock + self.len()
    }

    /// The block's last position.
    pub open spec fn last_id(self) -> ID {
        ID { client: self.id.client, clock: (self.end() - 1) as u32 }
    }

    /// Whether the block spans the position `id`.
    pub open spec fn spans(self, id: ID) -> bool {
        id.within(self.id, self.len())
    }

    /// Whether the block names a neighbour.
    pub open spec fn has_origin(self) -> bool {
        self.origin is Some || self.right_origin is Some
    }

    /// A block that can stand in a store and be written: it spans at least
    /// one position, its clocks fit, its content can be written, and it names
    /// a neighbour, or else its container and, where it has one, its key.
    pub open spec fn wf(self) -> bool {
        &&& self.len() >= 1
        &&& self.end() <= u32::MAX
        &&& self.content.wf()
        &&& !self.has_origin() ==> !(self.parent is Unknown)
        &&& self.parent matches TypePtrView::Named(n) ==> writable(n)
        &&& self.parent_sub matches Some(k) ==> writable(k)
        &&& self.wire_form()
    }

    /// A block as it comes off the wire: where it names a neighbour it names
    /// neither container nor key.
    pub open spec fn wire_form(self) -> bool {
        self.has_origin() ==> self.parent is Unknown && self.parent_sub is None
    }

    /// The first `k` positions of the block.
    pub open spec fn head(self, k: int) -> ItemView {
        ItemView { content: self.content.head(k), ..self }
    }

    /// What follows the first `k` positions of the block: a block that has
    /// the last position of the head as its left neighbour, keeps the
    /// right neighbour, and names neither container nor key.
    pub open spec fn tail(self, k: int) -> ItemView {
        ItemView {
            id: ID { client: self.id.client, clock: (self.id.clock + k) as u32 },
            origin: Some(ID { client: self.id.client, clock: (self.id.clock + k - 1) as u32 }),
            right_origin: self.right_origin,
            parent: TypePtrView::Unknown,
            parent_sub: None,
            content: self.content.tail(k),
        }
    }

    /// The block with a tombstone in place of its content.
    pub open spec fn erased(self) -> ItemView {
        ItemView { content: self.content.erased(), ..self }
    }

    /// Equality of blocks, with scalar values compared as `lib0` compares
    /// them.
    pub open spec fn agrees(self, other: ItemView) -> bool {
        &&& self.id == other.id
        &&& self.origin == other.origin
        &&& self.right_origin == other.right_origin
        &&& self.parent == other.parent
        &&& self.parent_sub == other.parent_sub
        &&& self.content.agrees(other.content)
    }
}

/// Cutting well-formed content gives well-formed parts whose lengths add up.
pub proof fn lemma_content_split(c: ContentView, k: int)
    requires
        c.wf(),
        0 < k < c.len(),
        c.len() <= u32::MAX,
    ensures
        c.head(k).wf(),
        c.tail(k).wf(),
        c.head(k).len() == k,
        c.tail(k).len() == c.len() - k,
{
    match c {
        ContentView::String(s) => {
            crate::text::lemma_writable_part(s, 0, k);
            crate::text::lemma_writable_part(s, k, s.len() as int);
        },
        _ => {},
    }
}

/// Cutting a well-formed block gives two well-formed blocks that span the
/// same positions between them.
pub proof fn lemma_item_split(it: ItemView, k: int)
    requires
        it.wf(),
        0 < k < it.len(),
    ensures
        it.head(k).wf(),
        it.tail(k).wf(),
        it.head(k).id == it.id,
        it.head(k).end() == it.tail(k).id.clock,
        it.tail(k).end() == it.end(),
        it.tail(k).origin == Some(it.head(k).last_id()),
{
    lemma_content_split(it.content, k);
}

impl Item {
    pub fn new(
        id: ID,
        origin: Option<ID>,
        right_origin: Option<ID>,
        parent: TypePtr,
        parent_sub: Option<String>,
        content: ItemContent,
    ) -> (r: Item)
        ensures
            r == (Item { id, origin, right_origin, parent, parent_sub, content }),
    {
        Item { id, origin, right_origin, parent, parent_sub, content }
    }

    pub open spec fn wf(&self) -> bool {
        self@.wf()
    }

    /// The number of positions that the block spans.
    pub fn len(&self) -> (r: usize)
        ensures
            r == self@.len(),
    {
        self.content.len()
    }

    /// Whether the block is well formed.
    pub fn check(&self) -> (r: bool)
        ensures
            r == self.wf(),
    {
        let n: usize = self.content.len();
        if n < 1 || n > (u32::MAX - self.id.clock) as usize {
            return false;
        }
        if !self.content.check() {
            return false;
        }
        let named: bool = self.origin.is_some() || self.right_origin.is_some();
        match &self.parent {
            TypePtr::Unknown => {
                if !named {
                    return false;
                }
            },
            TypePtr::Named(name) => {
                note_writable(name.as_str());
                if named {
                    return false;
                }
            },
            TypePtr::Id(_) => {
                if named {
                    return false;
                }
            },
        }
        match &self.parent_sub {
            Some(k) => {
                note_writable(k.as_str());
                if named {
                    return false;
                }
            },
            None => {},
        }
        true
    }

    /// Whether the block is a tombstone.
    pub fn is_deleted(&self) -> (r: bool)
        ensures
            r == (self@.content is Deleted),
    {
        self.content.is_deleted()
    }

    pub fn duplicate(&self) -> (r: Item)
        ensures
            r@ == self@,
    {
        Item {
            id: self.id,
            origin: self.origin,
            right_origin: self.right_origin,
            parent: self.parent.duplicate(),
            parent_sub: match &self.parent_sub {
                Some(k) => Some(k.clone()),
                None => None,
            },
            content: self.content.duplicate(),
        }
    }

    /// Whether two blocks are the same, field by field, scalar values
    /// compared byte by byte.
    pub fn equals(&self, other: &Item) -> (r: bool)
        ensures
            r == (self@ == other@),
    {
        self.id.client == other.id.client && self.id.clock == other.id.clock && same_opt_id(
            &self.origin,
            &other.origin,
        ) && same_opt_id(&self.right_origin, &other.right_origin) && self.parent.same(
            &other.parent,
        ) && same_opt_text(&self.parent_sub, &other.parent_sub) && self.content.equals(
            &other.content,
        )
    }

    /// Equality of blocks, with scalar values compared as `lib0` compares
    /// them.
    pub fn same(&self, other: &Item) -> (r: bool)
        requires
            self.wf(),
            other.wf(),
        ensures
            r == self@.agrees(other@),
    {
        self.id.client == other.id.client && self.id.clock == other.id.clock && same_opt_id(
            &self.origin,
            &other.origin,
        ) && same_opt_id(&self.right_origin, &other.right_origin) && self.parent.same(
            &other.parent,
        ) && same_opt_text(&self.parent_sub, &other.parent_sub) && self.content.same(
            &other.content,
        )
    }

    /// Cuts the block behind its first `k` positions. The left part keeps
    /// the identifier, both neighbours, container and key; the right part
    /// starts `k` positions later, has the left part's last position as
    /// its left neighbour and keeps the right neighbour.
    pub fn split(self, k: usize) -> (r: (Item, Item))
        requires
            self.wf(),
            0 < k < self@.len(),
        ensures
            r.0@ == self@.head(k as int),
            r.1@ == self@.tail(k as int),
    {
        let Item { id, origin, right_origin, parent, parent_sub, content } = self;
        let (head, tail) = content.split(k);
        let left = Item { id, origin, right_origin, parent, parent_sub, content: head };
        let right = Item {
            id: ID { client: id.client, clock: id.clock + k as u32 },
            origin: Some(ID { client: id.client, clock: id.clock + (k - 1) as u32 }),
            right_origin,
            parent: TypePtr::Unknown,
            parent_sub: None,
            content: tail,
        };
        (left, right)
    }

    /// Puts a tombstone in place of the content.
    pub fn erase(&mut self)
        requires
            old(self).wf(),
        ensures
            final(self)@ == old(self)@.erased(),
            final(self).wf(),
    {
        let n: usize = self.content.len();
        self.content = ItemContent::Deleted(n as u32);
    }
}

} // verus!

