use lib0::any::Any;
use std::cell::Cell;
use std::rc::Rc;
use yrs::{
    roundtrip_v1, roundtrip_v2, Branch, ClientID, DeleteSet, Doc, IdSet, Item, ItemContent, StateVector,
    TypePtr, Update, Value, ID, TYPE_REFS_XML_ELEMENT, TYPE_REFS_XML_TEXT,
};

fn any(value: Any) -> Value {
    let mut bytes: Vec<u8> = Vec::new();
    value.encode(&mut bytes);
    Value::from_bytes(bytes).unwrap()
}

#[test]
fn text_insert_delete() {
    let update: &[u8] = &[
        1, 5, 152, 234, 173, 126, 0, 1, 1, 4, 116, 121, 112, 101, 3, 68, 152, 234, 173, 126, 0, 2,
        97, 98, 193, 152, 234, 173, 126, 4, 152, 234, 173, 126, 0, 1, 129, 152, 234, 173, 126, 2,
        1, 132, 152, 234, 173, 126, 6, 2, 104, 105, 1, 152, 234, 173, 126, 2, 0, 3, 5, 2,
    ];
    const CLIENT_ID: ClientID = 264992024;
    let expected_blocks = vec![
        Item::new(
            ID::new(CLIENT_ID, 0),
            None,
            None,
            TypePtr::Named("type".into()),
            None,
            ItemContent::Deleted(3),
        ),
        Item::new(
            ID::new(CLIENT_ID, 3),
            None,
            Some(ID::new(CLIENT_ID, 0)),
            TypePtr::Unknown,
            None,
            ItemContent::String("ab".into()),
        ),
        Item::new(
            ID::new(CLIENT_ID, 5),
            Some(ID::new(CLIENT_ID, 4)),
            Some(ID::new(CLIENT_ID, 0)),
            TypePtr::Unknown,
            None,
            ItemContent::Deleted(1),
        ),
        Item::new(
            ID::new(CLIENT_ID, 6),
            Some(ID::new(CLIENT_ID, 2)),
            None,
            TypePtr::Unknown,
            None,
            ItemContent::Deleted(1),
        ),
        Item::new(
            ID::new(CLIENT_ID, 7),
            Some(ID::new(CLIENT_ID, 6)),
            None,
            TypePtr::Unknown,
            None,
            ItemContent::String("hi".into()),
        ),
    ];
    let expected_ds = {
        let mut ds = IdSet::new();
        ds.insert(ID::new(CLIENT_ID, 0), 3);
        ds.insert(ID::new(CLIENT_ID, 5), 2);
        DeleteSet::from(ds)
    };
    let visited = Rc::new(Cell::new(false));
    let setter = visited.clone();

    let mut doc = Doc::new();
    let txt = doc.get_text("type");
    let decoded = Update::decode_v1(update).unwrap();
    doc.apply_update_with(&decoded, move |_, u: &Update| {
        let mut n = 0;
        for section in u.blocks.iter() {
            for (actual, expected) in section.items.iter().zip(expected_blocks.as_slice()) {
                assert_eq!(actual, expected);
                n += 1;
            }
        }
        assert_eq!(n, 5);
        assert_eq!(&u.delete_set, &expected_ds);
        setter.set(true);
    });
    assert_eq!(doc.text_of(&txt), "abhi".to_string());
    assert!(visited.get());
}

#[test]
fn state_vector() {
    let payload: &[u8] = &[2, 178, 219, 218, 44, 3, 190, 212, 225, 6, 2];
    let mut expected = StateVector::default();
    expected.inc_by(14182974, 2);
    expected.inc_by(93760946, 3);

    let sv = StateVector::decode_v1(payload).unwrap();
    assert_eq!(sv, expected);

    let serialized = sv.encode_v1();
    assert_eq!(serialized.as_slice(), payload);
}

#[test]
fn map_set() {
    const CLIENT_ID: ClientID = 440166001;
    let expected = vec![
        Item::new(
            ID::new(CLIENT_ID, 0),
            None,
            None,
            TypePtr::Named("test".into()),
            Some("k1".into()),
            ItemContent::Any(vec![any(Any::String("v1".into()))]),
        ),
        Item::new(
            ID::new(CLIENT_ID, 1),
            None,
            None,
            TypePtr::Named("test".into()),
            Some("k2".into()),
            ItemContent::Any(vec![any(Any::String("v2".into()))]),
        ),
    ];

    let payload: &[u8] = &[
        1, 2, 241, 204, 241, 209, 1, 0, 40, 1, 4, 116, 101, 115, 116, 2, 107, 49, 1, 119, 2, 118,
        49, 40, 1, 4, 116, 101, 115, 116, 2, 107, 50, 1, 119, 2, 118, 50, 0,
    ];
    assert!(roundtrip_v1(payload, &expected), "failed to round-trip V1");

    let payload: &[u8] = &[
        0, 0, 5, 177, 153, 227, 163, 3, 0, 0, 1, 40, 17, 12, 116, 101, 115, 116, 107, 49, 116, 101,
        115, 116, 107, 50, 4, 2, 4, 2, 1, 1, 0, 2, 65, 0, 1, 2, 0, 119, 2, 118, 49, 119, 2, 118,
        50, 0,
    ];
    assert!(roundtrip_v2(payload, &expected), "failed to round-trip V2");
}

#[test]
fn array_insert() {
    const CLIENT_ID: ClientID = 2525665872;
    let expected = vec![Item::new(
        ID::new(CLIENT_ID, 0),
        None,
        None,
        TypePtr::Named("test".into()),
        None,
        ItemContent::Any(vec![any(Any::String("a".into())), any(Any::String("b".into()))]),
    )];

    let payload: &[u8] = &[
        1, 1, 208, 180, 170, 180, 9, 0, 8, 1, 4, 116, 101, 115, 116, 2, 119, 1, 97, 119, 1, 98, 0,
    ];
    assert!(roundtrip_v1(payload, &expected), "failed to round-trip V1");

    let payload: &[u8] = &[
        0, 0, 5, 144, 233, 212, 232, 18, 0, 0, 1, 8, 6, 4, 116, 101, 115, 116, 4, 1, 1, 0, 1, 2, 1,
        1, 0, 119, 1, 97, 119, 1, 98, 0,
    ];
    assert!(roundtrip_v2(payload, &expected), "failed to round-trip V2");
}

#[test]
fn xml_fragment_insert() {
    const CLIENT_ID: ClientID = 2459881872;
    let expected = vec![
        Item::new(
            ID::new(CLIENT_ID, 0),
            None,
            None,
            TypePtr::Named("fragment-name".into()),
            None,
            ItemContent::Type(Branch::new(TYPE_REFS_XML_TEXT, None)),
        ),
        Item::new(
            ID::new(CLIENT_ID, 1),
            Some(ID::new(CLIENT_ID, 0)),
            None,
            TypePtr::Unknown,
            None,
            ItemContent::Type(Branch::new(TYPE_REFS_XML_ELEMENT, Some("node-name".into()))),
        ),
    ];

    let payload: &[u8] = &[
        1, 2, 144, 163, 251, 148, 9, 0, 7, 1, 13, 102, 114, 97, 103, 109, 101, 110, 116, 45, 110,
        97, 109, 101, 6, 135, 144, 163, 251, 148, 9, 0, 3, 9, 110, 111, 100, 101, 45, 110, 97, 109,
        101, 0,
    ];
    assert!(roundtrip_v1(payload, &expected), "failed to round-trip V1");

    let payload: &[u8] = &[
        0, 1, 0, 6, 208, 198, 246, 169, 18, 0, 1, 0, 0, 3, 7, 0, 135, 25, 22, 102, 114, 97, 103,
        109, 101, 110, 116, 45, 110, 97, 109, 101, 110, 111, 100, 101, 45, 110, 97, 109, 101, 13,
        9, 1, 1, 2, 6, 3, 0, 1, 2, 0, 0,
    ];
    assert!(roundtrip_v2(payload, &expected), "failed to round-trip V2");
}
