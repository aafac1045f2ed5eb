use lib0::any::Any;
use yrs::state_vector::Gap;
use yrs::{
    Branch, ClientBlocks, Doc, IdSet, Item, ItemContent, StateVector, Store, TypePtr, Update,
    Value, ID, TYPE_REFS_TEXT,
};

fn any(value: Any) -> Value {
    let mut bytes: Vec<u8> = Vec::new();
    value.encode(&mut bytes);
    Value::from_bytes(bytes).unwrap()
}

fn text(client: u64, clock: u32, origin: Option<ID>, right: Option<ID>, s: &str) -> Item {
    let parent = if origin.is_none() && right.is_none() {
        TypePtr::Named("t".into())
    } else {
        TypePtr::Unknown
    };
    Item::new(ID::new(client, clock), origin, right, parent, None, ItemContent::String(s.into()))
}

fn update(items: Vec<Item>) -> Update {
    let mut blocks: Vec<ClientBlocks> = Vec::new();
    for it in items {
        match blocks.last_mut() {
            Some(b) if b.client == it.id.client => b.items.push(it),
            _ => blocks.push(ClientBlocks { client: it.id.client, clock: it.id.clock, items: vec![it] }),
        }
    }
    Update { blocks, delete_set: IdSet::new() }
}

fn deletion(client: u64, clock: u32, len: u32) -> Update {
    let mut ds = IdSet::new();
    ds.insert(ID::new(client, clock), len);
    Update { blocks: vec![], delete_set: ds }
}

fn read(doc: &mut Doc) -> String {
    let t = doc.get_text("t");
    doc.text_of(&t)
}

#[test]
fn identifiers_are_ordered_by_client_then_clock() {
    assert!(ID::new(1, 9).before(&ID::new(2, 0)));
    assert!(ID::new(1, 3).before(&ID::new(1, 4)));
    assert!(!ID::new(1, 4).before(&ID::new(1, 4)));
    assert!(!ID::new(2, 0).before(&ID::new(1, 9)));
}

#[test]
fn blocks_are_cut_in_two() {
    let it = text(7, 10, Some(ID::new(1, 1)), Some(ID::new(2, 2)), "h\u{e9}llo");
    let (l, r) = it.split(2);
    assert_eq!(l, text(7, 10, Some(ID::new(1, 1)), Some(ID::new(2, 2)), "h\u{e9}"));
    assert_eq!(r, text(7, 12, Some(ID::new(7, 11)), Some(ID::new(2, 2)), "llo"));
    assert_eq!(l.len() + r.len(), 5);

    let tomb = Item::new(
        ID::new(7, 0),
        None,
        None,
        TypePtr::Named("t".into()),
        Some("k".into()),
        ItemContent::Deleted(9),
    );
    let (l, r) = tomb.split(4);
    assert_eq!(l.content, ItemContent::Deleted(4));
    assert_eq!(r.content, ItemContent::Deleted(5));
    assert_eq!(l.parent, TypePtr::Named("t".into()));
    assert_eq!(r.parent, TypePtr::Unknown);
    assert_eq!(r.parent_sub, None);
    assert_eq!(r.id, ID::new(7, 4));
    assert_eq!(r.origin, Some(ID::new(7, 3)));

    let vals = Item::new(
        ID::new(7, 0),
        None,
        None,
        TypePtr::Named("t".into()),
        None,
        ItemContent::Any(vec![any(Any::Null), any(Any::Bool(true)), any(Any::Bool(false))]),
    );
    let (l, r) = vals.split(1);
    assert_eq!(l.content, ItemContent::Any(vec![any(Any::Null)]));
    assert_eq!(r.content, ItemContent::Any(vec![any(Any::Bool(true)), any(Any::Bool(false))]));
}

#[test]
fn blocks_know_whether_they_are_well_formed() {
    assert!(text(1, 0, None, None, "a").check());
    assert!(!text(1, 0, None, None, "").check());
    assert!(!text(1, u32::MAX, None, None, "a").check());
    let lost = Item::new(ID::new(1, 0), None, None, TypePtr::Unknown, None, ItemContent::Deleted(1));
    assert!(!lost.check());
    let named = Item::new(
        ID::new(1, 0),
        None,
        None,
        TypePtr::Named("t".into()),
        None,
        ItemContent::Type(Branch::new(TYPE_REFS_TEXT, Some("n".into()))),
    );
    assert!(!named.check());
    let bad = Item::new(
        ID::new(1, 0),
        None,
        None,
        TypePtr::Named("t".into()),
        None,
        ItemContent::Any(vec![Value { bytes: vec![1, 2, 3] }]),
    );
    assert!(!bad.check());
}

#[test]
fn id_set_melts_ranges() {
    let mut ds = IdSet::new();
    ds.insert(ID::new(1, 10), 5);
    ds.insert(ID::new(1, 0), 3);
    ds.insert(ID::new(2, 7), 1);
    assert_eq!(ds.clients.len(), 2);
    assert_eq!(ds.clients[0].client, 2);
    assert_eq!(ds.clients[1].ranges.len(), 2);
    ds.insert(ID::new(1, 3), 7);
    assert_eq!(ds.clients[1].ranges.len(), 1);
    assert_eq!((ds.clients[1].ranges[0].start, ds.clients[1].ranges[0].len), (0, 15));
    let before = IdSet { clients: vec![] };
    assert!(before.check());
    ds.insert(ID::new(1, 4), 2);
    ds.insert(ID::new(1, 0), 0);
    assert_eq!((ds.clients[1].ranges[0].start, ds.clients[1].ranges[0].len), (0, 15));
    ds.insert(ID::new(1, 20), 1);
    ds.insert(ID::new(1, 16), 2);
    assert_eq!(ds.clients[1].ranges.len(), 3);
    ds.insert(ID::new(1, 14), 7);
    assert_eq!(ds.clients[1].ranges.len(), 1);
    assert_eq!((ds.clients[1].ranges[0].start, ds.clients[1].ranges[0].len), (0, 21));
    assert!(ds.is_deleted(&ID::new(1, 0)));
    assert!(ds.is_deleted(&ID::new(1, 20)));
    assert!(!ds.is_deleted(&ID::new(1, 21)));
    assert!(ds.is_deleted(&ID::new(2, 7)));
    assert!(!ds.is_deleted(&ID::new(2, 6)));
    assert!(!ds.is_deleted(&ID::new(3, 0)));
    assert!(ds.check());
}

#[test]
fn id_sets_are_merged() {
    let mut a = IdSet::new();
    a.insert(ID::new(1, 0), 2);
    a.insert(ID::new(3, 5), 1);
    let mut b = IdSet::new();
    b.insert(ID::new(1, 2), 2);
    b.insert(ID::new(2, 0), 1);
    let mut ab = IdSet::new();
    ab.merge(&a);
    ab.merge(&b);
    let mut ba = IdSet::new();
    ba.merge(&b);
    ba.merge(&a);
    assert_eq!(ab, ba);
    let mut twice = IdSet::new();
    twice.merge(&ab);
    twice.merge(&ab);
    assert_eq!(twice, ab);
    assert_eq!(ab.clients.len(), 3);
    assert_eq!((ab.clients[2].ranges[0].start, ab.clients[2].ranges[0].len), (0, 4));
}

#[test]
fn state_vector_counts_clocks() {
    let mut sv = StateVector::default();
    assert_eq!(sv.get(7), 0);
    sv.inc_by(7, 3);
    sv.inc_by(7, 2);
    sv.inc_by(9, 0);
    assert_eq!(sv.get(7), 5);
    assert_eq!(sv.get(9), 0);
    assert_eq!(sv.entries.len(), 1);
    sv.inc_by(7, u32::MAX);
    assert_eq!(sv.get(7), u32::MAX);
    assert!(sv.contains(&ID::new(7, 4)));
    assert!(!sv.contains(&ID::new(8, 0)));
    let mut other = StateVector::default();
    other.inc_by(9, 1);
    other.inc_by(7, u32::MAX);
    assert_ne!(sv, other);
    sv.inc_by(9, 1);
    assert_eq!(sv, other);
    sv.set(9, 0);
    assert_eq!(sv.entries.len(), 1);
}

#[test]
fn state_vectors_are_compared() {
    let mut a = StateVector::default();
    a.inc_by(1, 5);
    a.inc_by(2, 3);
    a.inc_by(3, 1);
    let mut b = StateVector::default();
    b.inc_by(1, 2);
    b.inc_by(2, 3);
    b.inc_by(4, 9);
    assert_eq!(
        a.diff(&b),
        vec![Gap { client: 3, from: 0, to: 1 }, Gap { client: 1, from: 2, to: 5 }]
    );
    assert_eq!(b.diff(&a), vec![Gap { client: 4, from: 0, to: 9 }]);
    assert_eq!(a.diff(&a), vec![]);
}

#[test]
fn blocks_with_the_same_neighbours_stand_in_the_order_of_their_clients() {
    let a = update(vec![text(1, 0, None, None, "aa")]);
    let b = update(vec![text(2, 0, None, None, "bb")]);
    let c = update(vec![text(3, 0, None, None, "c")]);
    let orders: Vec<Vec<&Update>> = vec![
        vec![&a, &b, &c],
        vec![&a, &c, &b],
        vec![&b, &a, &c],
        vec![&b, &c, &a],
        vec![&c, &a, &b],
        vec![&c, &b, &a],
    ];
    let mut states: Vec<Vec<u8>> = Vec::new();
    for order in orders {
        let mut doc = Doc::new();
        for u in order {
            doc.apply_update(u);
        }
        assert_eq!(read(&mut doc), "aabbc");
        states.push(doc.encode_state_as_update_v1());
    }
    assert!(states.iter().all(|s| s == &states[0]));
}

#[test]
fn replicas_that_edit_on_their_own_come_to_the_same_text() {
    // both replicas begin with "xy" of client 1
    let base = update(vec![text(1, 0, None, None, "xy")]);
    // client 2 puts "22" between x and y, client 3 puts "3" there too,
    // client 4 puts "4" behind what client 2 wrote, client 3 goes on behind its own
    let two = update(vec![text(2, 0, Some(ID::new(1, 0)), Some(ID::new(1, 1)), "22")]);
    let three = update(vec![
        text(3, 0, Some(ID::new(1, 0)), Some(ID::new(1, 1)), "3"),
        text(3, 1, Some(ID::new(3, 0)), Some(ID::new(1, 1)), "!"),
    ]);
    let four = update(vec![text(4, 0, Some(ID::new(2, 1)), Some(ID::new(1, 1)), "4")]);
    let del = deletion(1, 1, 1);
    let all: Vec<&Update> = vec![&base, &two, &three, &four, &del];
    let mut texts: Vec<String> = Vec::new();
    let mut states: Vec<Vec<u8>> = Vec::new();
    let perms: Vec<[usize; 5]> = vec![
        [0, 1, 2, 3, 4],
        [0, 2, 1, 3, 4],
        [4, 3, 2, 1, 0],
        [3, 1, 4, 0, 2],
        [2, 4, 0, 3, 1],
        [1, 3, 0, 4, 2],
    ];
    for p in perms {
        let mut doc = Doc::new();
        for k in p {
            doc.apply_update(all[k]);
        }
        assert!(doc.store.pending.is_empty());
        assert!(doc.store.pending_ds.clients.is_empty());
        texts.push(read(&mut doc));
        states.push(doc.encode_state_as_update_v1());
    }
    assert_eq!(texts[0], "x2243!");
    assert!(texts.iter().all(|t| t == &texts[0]));
    assert!(states.iter().all(|s| s == &states[0]));
}

#[test]
fn an_update_applied_twice_changes_nothing() {
    let u = Update::decode_v1(&[
        1, 5, 152, 234, 173, 126, 0, 1, 1, 4, 116, 121, 112, 101, 3, 68, 152, 234, 173, 126, 0, 2,
        97, 98, 193, 152, 234, 173, 126, 4, 152, 234, 173, 126, 0, 1, 129, 152, 234, 173, 126, 2,
        1, 132, 152, 234, 173, 126, 6, 2, 104, 105, 1, 152, 234, 173, 126, 2, 0, 3, 5, 2,
    ])
    .unwrap();
    let mut once = Doc::new();
    once.apply_update(&u);
    let mut twice = Doc::new();
    twice.apply_update(&u);
    twice.apply_update(&u);
    assert_eq!(once, twice);
    let t = once.get_text("type");
    assert_eq!(once.text_of(&t), "abhi");
    assert_eq!(once.state_vector().get(264992024), 9);

    let mut doc = Doc::new();
    let ins = update(vec![text(1, 0, None, None, "hello")]);
    let del = deletion(1, 1, 3);
    doc.apply_update(&ins);
    doc.apply_update(&del);
    let state = doc.encode_state_as_update_v1();
    doc.apply_update(&del);
    doc.apply_update(&ins);
    assert_eq!(doc.encode_state_as_update_v1(), state);
    assert_eq!(read(&mut doc), "ho");
}

#[test]
fn blocks_wait_for_what_they_depend_on() {
    let first = update(vec![text(1, 0, None, None, "ab")]);
    let second = update(vec![text(1, 2, Some(ID::new(1, 1)), None, "cd")]);
    let third = update(vec![text(2, 0, Some(ID::new(1, 3)), None, "!")]);
    let mut doc = Doc::new();
    doc.apply_update(&third);
    assert_eq!(read(&mut doc), "");
    assert_eq!(doc.store.pending.len(), 1);
    assert_eq!(doc.state_vector().get(2), 0);
    doc.apply_update(&second);
    assert_eq!(doc.store.pending.len(), 2);
    doc.apply_update(&first);
    assert_eq!(doc.store.pending.len(), 0);
    assert_eq!(read(&mut doc), "abcd!");
    assert_eq!(doc.state_vector().get(1), 4);
    assert_eq!(doc.state_vector().get(2), 1);
}

#[test]
fn deletions_wait_for_what_they_delete() {
    let del = deletion(1, 1, 4);
    let first = update(vec![text(1, 0, None, None, "abc")]);
    let second = update(vec![text(1, 3, Some(ID::new(1, 2)), None, "def")]);
    let mut doc = Doc::new();
    doc.apply_update(&del);
    assert_eq!(doc.store.pending_ds, del.delete_set);
    doc.apply_update(&first);
    assert_eq!(read(&mut doc), "a");
    let mut rest = IdSet::new();
    rest.insert(ID::new(1, 3), 2);
    assert_eq!(doc.store.pending_ds, rest);
    doc.apply_update(&second);
    assert_eq!(read(&mut doc), "af");
    assert!(doc.store.pending_ds.clients.is_empty());
    // the blocks were cut where the range begins and ends
    let lens: Vec<usize> = doc.store.clients[0].1.items.iter().map(|it| it.len()).collect();
    assert_eq!(lens, vec![1, 2, 2, 1]);
    let mut dead = IdSet::new();
    dead.insert(ID::new(1, 1), 4);
    assert_eq!(doc.store.delete_set(), dead);
}

#[test]
fn a_block_that_is_known_in_part_is_taken_in_from_where_the_store_ends() {
    let mut doc = Doc::new();
    doc.apply_update(&update(vec![text(1, 0, None, None, "ab")]));
    doc.apply_update(&update(vec![text(1, 0, None, None, "abcd")]));
    assert_eq!(read(&mut doc), "abcd");
    assert_eq!(doc.state_vector().get(1), 4);
    assert_eq!(doc.store.clients[0].1.items[1].origin, Some(ID::new(1, 1)));
}

#[test]
fn a_replica_catches_up_with_what_it_lacks() {
    let mut a = Doc::new();
    a.apply_update(&update(vec![text(1, 0, None, None, "hello")]));
    a.apply_update(&update(vec![text(2, 0, Some(ID::new(1, 4)), None, " world")]));
    a.apply_update(&deletion(1, 0, 1));
    let mut b = Doc::new();
    b.apply_update(&update(vec![text(1, 0, None, None, "hel")]));

    let diff = a.store.diff_update(&b.state_vector());
    assert_eq!(diff.blocks.len(), 2);
    assert_eq!((diff.blocks[0].client, diff.blocks[0].clock), (2, 0));
    assert_eq!((diff.blocks[1].client, diff.blocks[1].clock), (1, 3));
    assert_eq!(diff.blocks[1].items[0].origin, Some(ID::new(1, 2)));
    b.apply_update(&diff);
    assert_eq!(b.state_vector(), a.state_vector());
    assert_eq!(read(&mut b), "ello world");
    assert_eq!(read(&mut a), "ello world");

    let nothing = a.store.diff_update(&a.state_vector());
    assert!(nothing.blocks.is_empty());
    let whole = a.store.diff_update(&StateVector::default());
    assert_eq!(whole.blocks, a.store.to_update().blocks);
}

#[test]
fn an_empty_store_has_nothing() {
    let mut doc = Doc::new();
    assert_eq!(doc.state_vector(), StateVector::default());
    assert_eq!(doc.encode_state_as_update_v1(), vec![0, 0]);
    assert_eq!(read(&mut doc), "");
    let store = Store::new();
    assert!(store.find(&ID::new(1, 0)).is_none());
    assert_eq!(store.get_state(1), 0);
}

#[test]
fn containers_keep_their_blocks_apart() {
    let mut doc = Doc::new();
    let one = doc.get_text("one");
    let two = doc.get_text("two");
    assert_ne!(one, two);
    assert_eq!(doc.get_text("one"), one);
    let a = Item::new(
        ID::new(1, 0),
        None,
        None,
        TypePtr::Named("one".into()),
        None,
        ItemContent::String("first".into()),
    );
    let b = Item::new(
        ID::new(1, 5),
        None,
        None,
        TypePtr::Named("two".into()),
        None,
        ItemContent::String("second".into()),
    );
    let nested = Item::new(
        ID::new(1, 11),
        None,
        None,
        TypePtr::Named("one".into()),
        None,
        ItemContent::Type(Branch::new(TYPE_REFS_TEXT, None)),
    );
    let inner = Item::new(
        ID::new(1, 12),
        None,
        None,
        TypePtr::Id(ID::new(1, 11)),
        None,
        ItemContent::String("inner".into()),
    );
    doc.apply_update(&update(vec![a, b, nested, inner]));
    assert_eq!(doc.text_of(&one), "first");
    assert_eq!(doc.text_of(&two), "second");
    assert_eq!(doc.store.types.len(), 3);
    assert_eq!(doc.store.text(2), "inner");
}

#[test]
fn a_block_that_waits_is_not_kept_twice() {
    let late = update(vec![text(1, 2, Some(ID::new(1, 1)), None, "cd")]);
    let mut once = Doc::new();
    once.apply_update(&late);
    let mut twice = Doc::new();
    twice.apply_update(&late);
    twice.apply_update(&late);
    assert_eq!(once, twice);
    assert_eq!(twice.store.pending.len(), 1);
    let first = update(vec![text(1, 0, None, None, "ab")]);
    twice.apply_update(&first);
    assert_eq!(read(&mut twice), "abcd");
    assert!(twice.store.pending.is_empty());
}

#[test]
fn positions_of_a_container_are_found_in_their_blocks() {
    let mut doc = Doc::new();
    doc.apply_update(&update(vec![text(1, 0, None, None, "abc")]));
    doc.apply_update(&update(vec![text(2, 0, Some(ID::new(1, 0)), Some(ID::new(1, 1)), "xy")]));
    let t = doc.get_text("t");
    assert_eq!(doc.text_of(&t), "axybc");
    // clients stand in falling order: client 2 first
    assert_eq!(doc.store.locate(t.seq, 0), Some((1, 0, 0)));
    assert_eq!(doc.store.locate(t.seq, 2), Some((0, 0, 1)));
    assert_eq!(doc.store.locate(t.seq, 4), Some((1, 0, 2)));
    assert_eq!(doc.store.locate(t.seq, 5), None);
    assert_eq!(doc.store.locate(9, 0), None);
    assert_eq!(doc.store.slot(&ID::new(1, 2)), Some((Some(ID::new(1, 1)), None)));
    assert_eq!(doc.store.slot(&ID::new(2, 0)), Some((Some(ID::new(1, 0)), Some(ID::new(1, 1)))));
    assert_eq!(doc.store.slot(&ID::new(3, 0)), None);
}

#[test]
fn a_document_is_written_in_both_formats() {
    let mut a = Doc::new();
    a.apply_update(&update(vec![text(1, 0, None, None, "hello")]));
    a.apply_update(&update(vec![text(2, 0, Some(ID::new(1, 4)), None, "!")]));
    a.apply_update(&deletion(1, 1, 2));
    let v1 = a.encode_state_as_update_v1();
    let v2 = a.encode_state_as_update_v2().unwrap();
    let from_v1 = Update::decode_v1(&v1).unwrap();
    let from_v2 = Update::decode_v2(&v2).unwrap();
    assert_eq!(from_v1, from_v2);
    assert_eq!(from_v1, a.store.to_update());
    let mut b = Doc::new();
    b.apply_update(&from_v2);
    assert_eq!(read(&mut b), "hlo!");
    assert_eq!(b.encode_state_as_update_v1(), v1);

    let mut c = Doc::new();
    c.apply_update(&update(vec![text(1, 0, None, None, "he")]));
    let diff = Update::decode_v1(&a.encode_diff_v1(&c.state_vector())).unwrap();
    assert_eq!(diff, a.diff(&c.state_vector()));
    c.apply_update(&diff);
    // the same positions, though the tombstones are cut otherwise
    assert_eq!(read(&mut c), "hlo!");
    assert_eq!(c.state_vector(), a.state_vector());
    assert_eq!(c.store.delete_set(), a.store.delete_set());
}

#[test]
fn a_clock_used_twice_is_found() {
    let mut doc = Doc::new();
    doc.apply_update(&update(vec![text(1, 0, None, None, "ab")]));
    let same = update(vec![text(1, 0, None, None, "ab")]);
    let other = update(vec![text(2, 0, None, None, "zz"), text(1, 0, None, None, "xy")]);
    assert_eq!(doc.store.first_clash(&same), None);
    assert_eq!(doc.store.first_clash(&other), Some(ID::new(1, 0)));
    assert!(doc.store.is_clash(&text(1, 0, None, None, "xy")));
    // a block that reaches further clashes where it holds something else
    // at the positions that the store has, and only there
    assert!(doc.store.is_clash(&text(1, 0, None, None, "xyz")));
    assert!(!doc.store.is_clash(&text(1, 0, None, None, "abz")));
    assert!(doc.store.is_clash(&text(1, 1, Some(ID::new(1, 0)), None, "x")));
    assert!(!doc.store.is_clash(&text(1, 1, Some(ID::new(1, 0)), None, "bz")));
    assert!(!doc.store.is_clash(&text(1, 2, None, None, "xy")));
    // the store keeps what it has
    doc.apply_update(&other);
    assert_eq!(read(&mut doc), "abzz");
}

#[test]
fn a_store_knows_whether_it_is_well_formed() {
    let mut doc = Doc::new();
    assert!(doc.store.check());
    doc.apply_update(&update(vec![text(2, 0, None, None, "ab"), text(1, 0, None, None, "cd")]));
    doc.apply_update(&deletion(2, 1, 1));
    assert!(doc.store.check());

    // clients that do not fall
    let mut swapped = Doc::new();
    swapped.apply_update(&update(vec![text(2, 0, None, None, "ab"), text(1, 0, None, None, "cd")]));
    swapped.store.clients.swap(0, 1);
    assert!(!swapped.store.check());

    // a block in a container that is not there
    let mut lost = Doc::new();
    lost.apply_update(&update(vec![text(1, 0, None, None, "ab")]));
    lost.store.types.clear();
    assert!(!lost.store.check());

    // blocks that leave a gap
    let mut gap = Doc::new();
    gap.apply_update(&update(vec![text(1, 0, None, None, "ab")]));
    gap.store.clients[0].1.items[0].id.clock = 1;
    assert!(!gap.store.check());

    // a block that waits and is not well formed
    let mut waiting = Doc::new();
    waiting.store.pending.push(text(1, 0, None, None, ""));
    assert!(!waiting.store.check());
}

#[test]
fn documents_that_apply_the_same_hold_the_same() {
    let first = update(vec![text(1, 0, None, None, "abc"), text(2, 0, None, None, "xy")]);
    let late = update(vec![text(3, 2, Some(ID::new(3, 1)), None, "!")]);
    let cut = deletion(1, 1, 1);

    let mut once = Doc::new();
    let mut twice = Doc::new();
    for u in [&first, &late, &cut] {
        once.apply_update(u);
        twice.apply_update(u);
        twice.apply_update(u);
    }
    assert_eq!(once.store, twice.store);
    assert_eq!(once.encode_state_as_update_v1(), twice.encode_state_as_update_v1());
    assert_eq!(once.encode_state_as_update_v2(), twice.encode_state_as_update_v2());
    assert_eq!(read(&mut once), "acxy");
    assert_eq!(once.store.pending.len(), 1);
}

#[test]
fn an_observer_sees_the_update_once_it_is_applied() {
    let mut doc = Doc::new();
    let t = doc.get_text("t");
    let u = update(vec![text(1, 0, None, None, "ab")]);
    let mut seen: Vec<(String, usize)> = Vec::new();
    doc.apply_update_with(&u, |d: &Doc, got: &Update| {
        seen.push((d.text_of(&t), got.blocks.len()));
    });
    assert_eq!(seen, vec![("ab".to_string(), 1)]);
}

#[test]
fn containers_keep_their_places_when_updates_are_applied() {
    let mut doc = Doc::new();
    let t = doc.get_text("t");
    let other = doc.get_text("other");
    doc.apply_update(&update(vec![text(1, 0, None, None, "ab")]));
    assert_eq!(doc.get_text("t"), t);
    assert_eq!(doc.get_text("other"), other);
    assert_eq!(doc.text_of(&t), "ab");
    assert_eq!(doc.text_of(&other), "");
}

#[test]
fn a_document_writes_the_text_payload_as_it_read_it() {
    let payload: Vec<u8> = vec![
        1, 5, 152, 234, 173, 126, 0, 1, 1, 4, 116, 121, 112, 101, 3, 68, 152, 234, 173, 126, 0, 2,
        97, 98, 193, 152, 234, 173, 126, 4, 152, 234, 173, 126, 0, 1, 129, 152, 234, 173, 126, 2,
        1, 132, 152, 234, 173, 126, 6, 2, 104, 105, 1, 152, 234, 173, 126, 2, 0, 3, 5, 2,
    ];
    let u = Update::decode_v1(&payload).unwrap();
    assert!(u.check());
    let mut doc = Doc::new();
    let t = doc.get_text("type");
    assert!(doc.store.check());
    assert_eq!(doc.store.first_clash(&u), None);
    doc.apply_update(&u);
    assert!(doc.store.check());
    assert_eq!(doc.text_of(&t), "abhi");
    assert_eq!(doc.store.pending.len(), 0);
    assert_eq!(doc.store.clients.len(), 1);
    assert_eq!(doc.store.clients[0].1.items, u.blocks[0].items);
    assert_eq!(doc.store.delete_set(), u.delete_set);
    assert_eq!(doc.encode_state_as_update_v1(), payload);
    // the positions of the container, in document order
    let clocks: Vec<u32> = doc.store.types[t.seq].order.iter().map(|id| id.clock).collect();
    assert_eq!(clocks, vec![3, 4, 5, 0, 1, 2, 6, 7, 8]);
}
