use lib0::any::Any;
use std::collections::HashMap;
use yrs::columns::{
    write_diff_col, write_rle_col, write_str_col, write_uint_col, DiffCursor, RleCursor,
    StringCursor, UintCursor,
};
use yrs::text::{read_string, write_string};
use yrs::varint::{read_i64, read_span, read_u32, read_u64, write_ivar, write_uvar};
use yrs::{
    roundtrip_v1, roundtrip_v2, Branch, ClientBlocks, IdSet, Item, ItemContent, StateVector,
    TypePtr, Update, Value, ID, TYPE_REFS_ARRAY, TYPE_REFS_XML_ELEMENT,
};

fn any(value: Any) -> Value {
    let mut bytes: Vec<u8> = Vec::new();
    value.encode(&mut bytes);
    Value::from_bytes(bytes).unwrap()
}

fn uvar(v: u64) -> Vec<u8> {
    let mut out = Vec::new();
    write_uvar(&mut out, v);
    out
}

#[test]
fn unsigned_numbers_have_their_bytes() {
    assert_eq!(uvar(0), vec![0]);
    assert_eq!(uvar(127), vec![127]);
    assert_eq!(uvar(128), vec![128, 1]);
    assert_eq!(uvar(264992024), vec![152, 234, 173, 126]);
    assert_eq!(uvar(u64::MAX), vec![255, 255, 255, 255, 255, 255, 255, 255, 255, 1]);
    assert_eq!(read_u64(&[152, 234, 173, 126, 9], 0), Some((264992024, 4)));
    assert_eq!(read_u64(&uvar(u64::MAX), 0), Some((u64::MAX, 10)));
    assert_eq!(read_u32(&[255, 255, 255, 255, 15], 0), Some((u32::MAX, 5)));
}

#[test]
fn unsigned_numbers_that_do_not_fit_are_refused() {
    assert_eq!(read_u32(&[255, 255, 255, 255, 16], 0), None);
    assert_eq!(read_u64(&[255, 255, 255, 255, 255, 255, 255, 255, 255, 2], 0), None);
    assert_eq!(read_u64(&[128, 128, 128, 128, 128, 128, 128, 128, 128, 128, 0], 0), None);
    assert_eq!(read_u64(&[128], 0), None);
    assert_eq!(read_u64(&[], 0), None);
    assert_eq!(read_u64(&[1], 1), None);
}

#[test]
fn signed_numbers_keep_sign_and_magnitude() {
    let mut out = Vec::new();
    write_ivar(&mut out, false, 440166001);
    assert_eq!(out, vec![177, 153, 227, 163, 3]);
    let mut out = Vec::new();
    write_ivar(&mut out, true, 1);
    assert_eq!(out, vec![65]);
    let mut out = Vec::new();
    write_ivar(&mut out, true, 0);
    assert_eq!(out, vec![64]);
    assert_eq!(read_i64(&[64], 0), Some(((true, 0), 1)));
    assert_eq!(read_i64(&[177, 153, 227, 163, 3], 0), Some(((false, 440166001), 5)));
    let mut out = Vec::new();
    write_ivar(&mut out, true, u64::MAX);
    assert_eq!(read_i64(&out, 0), Some(((true, u64::MAX), out.len())));
}

#[test]
fn strings_are_read_back() {
    let mut out = vec![7u8];
    write_string(&mut out, "h\u{e9}llo \u{1f600}");
    assert_eq!(out[1], 11);
    assert_eq!(read_string(&out, 1), Some(("h\u{e9}llo \u{1f600}".to_string(), out.len())));
    assert_eq!(read_span(&out, 1), Some((2, out.len())));
}

#[test]
fn strings_that_are_no_utf8_are_refused() {
    assert_eq!(read_string(&[2, 0xc3, 0x28], 0), None);
    assert_eq!(read_string(&[1, 0xff], 0), None);
    assert_eq!(read_string(&[3, 97, 98], 0), None);
    assert_eq!(read_string(&[2, 97, 98], 0), Some(("ab".to_string(), 3)));
}

#[test]
fn values_are_found_where_they_end() {
    assert!(Value::from_bytes(vec![127]).is_some());
    assert!(Value::from_bytes(vec![126]).is_some());
    assert!(Value::from_bytes(vec![120]).is_some());
    assert!(Value::from_bytes(vec![125, 65]).is_some());
    assert!(Value::from_bytes(vec![124, 0, 0, 0, 0]).is_some());
    assert!(Value::from_bytes(vec![123, 0, 0, 0, 0, 0, 0, 0, 0]).is_some());
    assert!(Value::from_bytes(vec![119, 2, 118, 49]).is_some());
    assert!(Value::from_bytes(vec![117, 2, 126, 119, 1, 97]).is_some());
    assert!(Value::from_bytes(vec![118, 1, 1, 107, 125, 1]).is_some());
    assert!(Value::from_bytes(vec![116, 3, 1, 2, 3]).is_some());
}

#[test]
fn bytes_that_are_no_value_are_refused() {
    assert!(Value::from_bytes(vec![]).is_none());
    assert!(Value::from_bytes(vec![30]).is_none());
    assert!(Value::from_bytes(vec![126, 126]).is_none());
    assert!(Value::from_bytes(vec![124, 0, 0, 0]).is_none());
    assert!(Value::from_bytes(vec![119, 2, 0xc3, 0x28]).is_none());
    assert!(Value::from_bytes(vec![117, 3, 126, 126]).is_none());
    assert!(Value::from_bytes(vec![117, 255, 255, 255, 255, 255, 255, 255, 255, 255, 1]).is_none());
    let mut deep = vec![117u8, 1].repeat(65);
    deep.push(126);
    assert!(Value::from_bytes(deep).is_none());
    let mut shallow = vec![117u8, 1].repeat(64);
    shallow.push(126);
    assert!(Value::from_bytes(shallow).is_some());
}

#[test]
fn values_are_compared_by_what_they_hold() {
    let a = any(Any::String("v1".into()));
    let b = any(Any::String("v1".into()));
    let c = any(Any::String("v2".into()));
    assert!(a.same(&b));
    assert!(!a.same(&c));
    // the same map, written with its keys in either order
    let one = Value::from_bytes(vec![118, 2, 1, 97, 125, 1, 1, 98, 125, 2]).unwrap();
    let other = Value::from_bytes(vec![118, 2, 1, 98, 125, 2, 1, 97, 125, 1]).unwrap();
    assert_ne!(one, other);
    assert!(one.same(&other));
    let mut m = HashMap::new();
    m.insert("a".to_string(), Any::Number(1.0));
    m.insert("b".to_string(), Any::Number(2.0));
    assert!(one.same(&any(Any::Map(Box::new(m)))));
    // the number one as an integer and as a float
    let int = Value::from_bytes(vec![125, 1]).unwrap();
    let float = Value::from_bytes(vec![124, 0x3f, 0x80, 0, 0]).unwrap();
    assert!(int.same(&float));
    assert!(!int.same(&Value::from_bytes(vec![125, 2]).unwrap()));
}

#[test]
fn number_column_shortens_runs() {
    assert_eq!(write_uint_col(&vec![1, 1]), vec![65, 0]);
    assert_eq!(write_uint_col(&vec![4, 2, 4, 2]), vec![4, 2, 4, 2]);
    assert_eq!(write_uint_col(&vec![0, 0, 0]), vec![64, 1]);
    assert_eq!(write_uint_col(&vec![]), Vec::<u8>::new());
    let col = write_uint_col(&vec![7, 7, 7, 9, 0, 0, 300]);
    let mut cur = UintCursor::new();
    let mut got = Vec::new();
    while let Some(v) = cur.next(&col) {
        got.push(v);
    }
    assert_eq!(got, vec![7, 7, 7, 9, 0, 0, 300]);
}

#[test]
fn clock_column_writes_steps() {
    assert_eq!(write_diff_col(&vec![0]), vec![0]);
    assert_eq!(write_diff_col(&vec![0, 1, 2, 3]), vec![0, 3, 1]);
    assert_eq!(write_diff_col(&vec![5, 3]), vec![10, 68]);
    let col = write_diff_col(&vec![5, 6, 7, 3, 3, 3, 100, 0]);
    let mut cur = DiffCursor::new();
    let mut got = Vec::new();
    while let Some(v) = cur.next(&col) {
        got.push(v);
    }
    assert_eq!(got, vec![5, 6, 7, 3, 3, 3, 100, 0]);
    // a step below the clock zero ends the column
    let mut cur = DiffCursor::new();
    assert_eq!(cur.next(&[66]), None);
}

#[test]
fn byte_column_leaves_out_the_last_length() {
    assert_eq!(write_rle_col(&vec![40, 40]), vec![40]);
    assert_eq!(write_rle_col(&vec![7, 135]), vec![7, 0, 135]);
    assert_eq!(write_rle_col(&vec![1, 1, 1, 0]), vec![1, 2, 0]);
    let col = write_rle_col(&vec![1, 1, 1, 0, 0, 9]);
    let mut cur = RleCursor::new();
    let got: Vec<u8> = (0..8).map(|_| cur.next(&col).unwrap()).collect();
    assert_eq!(got, vec![1, 1, 1, 0, 0, 9, 9, 9]);
    let mut cur = RleCursor::new();
    assert_eq!(cur.next(&[]), None);
}

#[test]
fn string_column_joins_the_strings() {
    let col = write_str_col(&vec!["test".to_string(), "k1".to_string(), "".to_string()]);
    assert_eq!(col, vec![6, 116, 101, 115, 116, 107, 49, 4, 2, 0]);
    let mut cur = StringCursor::new(&col);
    assert_eq!(cur.next(&col), Some("test".to_string()));
    assert_eq!(cur.next(&col), Some("k1".to_string()));
    assert_eq!(cur.next(&col), Some("".to_string()));
    assert_eq!(cur.next(&col), None);
    let col = write_str_col(&vec!["\u{e9}\u{1f600}".to_string(), "z".to_string()]);
    let mut cur = StringCursor::new(&col);
    assert_eq!(cur.next(&col), Some("\u{e9}\u{1f600}".to_string()));
    assert_eq!(cur.next(&col), Some("z".to_string()));
}

fn sample_update() -> Update {
    let mut ds = IdSet::new();
    ds.insert(ID::new(9, 4), 2);
    ds.insert(ID::new(3, 0), 1);
    ds.insert(ID::new(9, 10), 5);
    Update {
        blocks: vec![
            ClientBlocks {
                client: 9,
                clock: 2,
                items: vec![
                    Item::new(
                        ID::new(9, 2),
                        None,
                        None,
                        TypePtr::Named("root".into()),
                        Some("key".into()),
                        ItemContent::Any(vec![
                            any(Any::Number(1.5)),
                            any(Any::Array(Box::new([Any::Null, Any::Bool(true)]))),
                        ]),
                    ),
                    Item::new(
                        ID::new(9, 4),
                        Some(ID::new(3, 7)),
                        Some(ID::new(9, 0)),
                        TypePtr::Unknown,
                        None,
                        ItemContent::String("h\u{e9}llo".into()),
                    ),
                    Item::new(
                        ID::new(9, 9),
                        Some(ID::new(9, 8)),
                        None,
                        TypePtr::Unknown,
                        None,
                        ItemContent::Type(Branch::new(TYPE_REFS_XML_ELEMENT, Some("p".into()))),
                    ),
                    Item::new(
                        ID::new(9, 10),
                        None,
                        None,
                        TypePtr::Id(ID::new(9, 9)),
                        None,
                        ItemContent::Type(Branch::new(TYPE_REFS_ARRAY, None)),
                    ),
                    Item::new(
                        ID::new(9, 11),
                        None,
                        Some(ID::new(9, 10)),
                        TypePtr::Unknown,
                        None,
                        ItemContent::Deleted(7),
                    ),
                ],
            },
            ClientBlocks { client: 3, clock: 0, items: vec![] },
        ],
        delete_set: ds,
    }
}

#[test]
fn first_format_gives_back_what_was_written() {
    let u = sample_update();
    let bytes = u.encode_v1();
    assert_eq!(Update::decode_v1(&bytes), Some(u));
}

#[test]
fn second_format_gives_back_what_was_written() {
    let u = sample_update();
    let bytes = u.encode_v2().unwrap();
    assert_eq!(Update::decode_v2(&bytes), Some(u));
}

#[test]
fn both_formats_hold_the_same_update() {
    let u = sample_update();
    let one = Update::decode_v1(&u.encode_v1()).unwrap();
    let two = Update::decode_v2(&u.encode_v2().unwrap()).unwrap();
    assert_eq!(one, two);
    assert_ne!(u.encode_v1(), u.encode_v2().unwrap());
}

#[test]
fn delete_set_is_written_as_clocks_in_the_first_format_and_as_gaps_in_the_second() {
    let mut ds = IdSet::new();
    ds.insert(ID::new(5, 0), 3);
    ds.insert(ID::new(5, 5), 2);
    let u = Update { blocks: vec![], delete_set: ds };
    assert_eq!(u.encode_v1(), vec![0, 1, 5, 2, 0, 3, 5, 2]);
    assert_eq!(u.encode_v2().unwrap(), vec![0, 0, 0, 0, 0, 0, 1, 0, 0, 0, 0, 0, 1, 5, 2, 0, 2, 2, 1]);
}

#[test]
fn delete_set_out_of_order_is_put_in_order() {
    // ranges (5,2) and then (0,3) of client 1, and after them client 2
    let u = Update::decode_v1(&[0, 2, 1, 2, 5, 2, 0, 3, 2, 1, 4, 4]).unwrap();
    let mut ds = IdSet::new();
    ds.insert(ID::new(1, 0), 3);
    ds.insert(ID::new(1, 5), 2);
    ds.insert(ID::new(2, 4), 4);
    assert_eq!(u.delete_set, ds);
    assert_eq!(u.encode_v1(), vec![0, 2, 2, 1, 4, 4, 1, 2, 0, 3, 5, 2]);
}

#[test]
fn malformed_payloads_are_refused() {
    let good: &[u8] = &[
        1, 2, 241, 204, 241, 209, 1, 0, 40, 1, 4, 116, 101, 115, 116, 2, 107, 49, 1, 119, 2, 118,
        49, 40, 1, 4, 116, 101, 115, 116, 2, 107, 50, 1, 119, 2, 118, 50, 0,
    ];
    assert!(Update::decode_v1(good).is_some());
    // cut short
    for n in 0..good.len() {
        assert!(Update::decode_v1(&good[..n]).is_none(), "prefix of {} bytes", n);
    }
    // bytes behind the update
    let mut long = good.to_vec();
    long.push(0);
    assert!(Update::decode_v1(&long).is_none());
    // a kind of content that there is not
    let mut bad = good.to_vec();
    bad[8] = 32 + 15;
    assert!(Update::decode_v1(&bad).is_none());
    // a number that never ends
    assert!(Update::decode_v1(&[255, 255, 255, 255, 255, 255, 255, 255, 255, 255, 255, 0]).is_none());
    // a block without positions
    assert!(Update::decode_v1(&[1, 1, 1, 0, 1, 1, 1, 116, 0, 0]).is_none());
    // a kind of container that there is not
    assert!(Update::decode_v1(&[1, 1, 1, 0, 7, 1, 1, 116, 7, 0]).is_none());
    // a range of the delete set without clocks
    assert!(Update::decode_v1(&[0, 1, 1, 1, 0, 0]).is_none());
    assert!(Update::decode_v1(&[0, 1, 1, 1, 0, 1]).is_some());
}

#[test]
fn malformed_payloads_of_the_second_format_are_refused() {
    let good: &[u8] = &[
        0, 0, 5, 177, 153, 227, 163, 3, 0, 0, 1, 40, 17, 12, 116, 101, 115, 116, 107, 49, 116, 101,
        115, 116, 107, 50, 4, 2, 4, 2, 1, 1, 0, 2, 65, 0, 1, 2, 0, 119, 2, 118, 49, 119, 2, 118,
        50, 0,
    ];
    assert!(Update::decode_v2(good).is_some());
    for n in 0..good.len() {
        assert!(Update::decode_v2(&good[..n]).is_none(), "prefix of {} bytes", n);
    }
    let mut long = good.to_vec();
    long.push(0);
    assert!(Update::decode_v2(&long).is_none());
    let mut flagged = good.to_vec();
    flagged[0] = 1;
    assert!(Update::decode_v2(&flagged).is_none());
    let mut kind = good.to_vec();
    kind[11] = 32 + 15;
    assert!(Update::decode_v2(&kind).is_none());
}

#[test]
fn round_trip_answers_no_where_something_differs() {
    let expected = vec![Item::new(
        ID::new(2525665872, 0),
        None,
        None,
        TypePtr::Named("test".into()),
        None,
        ItemContent::Any(vec![any(Any::String("a".into())), any(Any::String("b".into()))]),
    )];
    let v1: &[u8] = &[
        1, 1, 208, 180, 170, 180, 9, 0, 8, 1, 4, 116, 101, 115, 116, 2, 119, 1, 97, 119, 1, 98, 0,
    ];
    let v2: &[u8] = &[
        0, 0, 5, 144, 233, 212, 232, 18, 0, 0, 1, 8, 6, 4, 116, 101, 115, 116, 4, 1, 1, 0, 1, 2, 1,
        1, 0, 119, 1, 97, 119, 1, 98, 0,
    ];
    assert!(roundtrip_v1(v1, &expected));
    assert!(roundtrip_v2(v2, &expected));
    // another block expected
    let other = vec![Item::new(
        ID::new(2525665872, 0),
        None,
        None,
        TypePtr::Named("test".into()),
        None,
        ItemContent::Any(vec![any(Any::String("a".into())), any(Any::String("c".into()))]),
    )];
    assert!(!roundtrip_v1(v1, &other));
    assert!(!roundtrip_v2(v2, &other));
    assert!(!roundtrip_v1(v1, &vec![]));
    // the same update, with a number written longer than need be
    let padded: &[u8] = &[
        1, 129, 0, 208, 180, 170, 180, 9, 0, 8, 1, 4, 116, 101, 115, 116, 2, 119, 1, 97, 119, 1,
        98, 0,
    ];
    assert!(Update::decode_v1(padded).is_some());
    assert!(!roundtrip_v1(padded, &expected));
    // one format is not the other
    assert!(!roundtrip_v1(v2, &expected));
    assert!(!roundtrip_v2(v1, &expected));
    // a block expected that is not well formed
    let empty = vec![Item::new(
        ID::new(1, 0),
        None,
        None,
        TypePtr::Named("t".into()),
        None,
        ItemContent::Deleted(0),
    )];
    assert!(!roundtrip_v1(v1, &empty));
}

#[test]
fn state_vector_is_written_with_falling_clients() {
    let mut sv = StateVector::default();
    sv.inc_by(14182974, 2);
    sv.inc_by(93760946, 3);
    sv.inc_by(5, 1);
    let bytes = sv.encode_v1();
    assert_eq!(bytes, vec![3, 178, 219, 218, 44, 3, 190, 212, 225, 6, 2, 5, 1]);
    assert_eq!(StateVector::decode_v1(&bytes), Some(sv));
    // pairs in another order, and one client twice: the last pair counts
    let other = StateVector::decode_v1(&[3, 5, 9, 190, 212, 225, 6, 2, 5, 1]).unwrap();
    assert_eq!(other.get(5), 1);
    assert_eq!(other.get(14182974), 2);
    assert_eq!(other.encode_v1(), vec![2, 190, 212, 225, 6, 2, 5, 1]);
    assert_eq!(StateVector::decode_v1(&[1, 5]), None);
    assert_eq!(StateVector::decode_v1(&[0, 0]), None);
    assert_eq!(StateVector::decode_v1(&[0]), Some(StateVector::default()));
}
