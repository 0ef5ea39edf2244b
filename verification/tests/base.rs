use result_verifier::digest::fingerprint;
use result_verifier::fixed::{push_decimal_number, push_rounded, quotient, Decimal};
use result_verifier::node::{create_node_id, node_of_digest, NodeId};
use result_verifier::ordered_map::OrderedMap;
use result_verifier::text::{push_decimal, push_decimal_int, push_padded};
use result_verifier::time::{DateTime, Duration};

#[test]
fn fingerprints_are_sha256_in_hexadecimal() {
    assert_eq!(
        fingerprint(b"abc"),
        "ba7816bf8f01cfea414140de5dae2223b00361a396177a9cb410ff61f20015ad"
    );
    assert_eq!(
        fingerprint(b""),
        "e3b0c44298fc1c149afbf4c8996fb92427ae41e4649b934ca495991b7852b855"
    );
}

#[test]
fn nodes_are_named_by_digest() {
    let id = create_node_id("abc");
    assert_eq!(id.to_text(), "0xba7816bf8f01cfea414140de5dae2223b00361a3");
    assert_eq!(NodeId::from_array(id.into_array()), id);
    assert!(create_node_id("abd") != id);
    let digest: Vec<u8> = (100..132).collect();
    assert_eq!(node_of_digest(&digest).into_array().to_vec(), digest[..20].to_vec());
}

#[test]
fn numbers_are_written_in_decimal() {
    let mut text = String::new();
    push_decimal(&mut text, 0);
    text.push(' ');
    push_decimal(&mut text, 9_870_123_456);
    text.push(' ');
    push_decimal_int(&mut text, -42);
    text.push(' ');
    push_padded(&mut text, 7, 3);
    assert_eq!(text, "0 9870123456 -42 007");
}

#[test]
fn decimals_are_no_longer_than_need_be() {
    let show = |micros: i64| {
        let mut text = String::new();
        push_decimal_number(&mut text, Decimal { micros });
        text
    };
    assert_eq!(show(20_000_000), "20");
    assert_eq!(show(1_100_000), "1.1");
    assert_eq!(show(-500_000), "-0.5");
    assert_eq!(show(1), "0.000001");
    assert_eq!(show(0), "0");
    assert_eq!(show(i64::MIN), "-9223372036854.775808");
}

#[test]
fn quotients_are_rounded_to_the_nearest() {
    let show = |num: i128, den: u128, places: u32| {
        let mut text = String::new();
        push_rounded(&mut text, num, den, places);
        text
    };
    assert_eq!(show(2, 3, 2), "0.67");
    assert_eq!(show(-1, 3, 3), "-0.333");
    assert_eq!(show(1, 8, 2), "0.12");
    assert_eq!(show(3, 8, 2), "0.38");
    assert_eq!(show(999, 1000, 1), "1.0");
    assert_eq!(show(5, 1, 6), "5.000000");
    assert_eq!(
        quotient(Decimal { micros: 1_000_000 }, Decimal { micros: 3_000_000 }).micros,
        333_333
    );
    assert_eq!(
        quotient(Decimal { micros: -1_000_000 }, Decimal { micros: 3_000_000 }).micros,
        -333_334
    );
    assert_eq!(quotient(Decimal { micros: i64::MAX }, Decimal { micros: 1 }).micros, i64::MAX);
}

#[test]
fn instants_have_a_range_and_leap_seconds() {
    assert!(DateTime::from_timestamp(i64::MAX, 0).is_none());
    assert!(DateTime::from_timestamp(0, 1_000_000_000).is_none());
    let leap = DateTime::from_timestamp(59, 1_500_000_000).unwrap();
    assert_eq!((leap.timestamp(), leap.timestamp_subsec_nanos()), (59, 1_500_000_000));
    assert!(DateTime::from_timestamp(59, 2_000_000_000).is_none());
    let first = chrono::DateTime::<chrono::Utc>::MIN_UTC;
    let last = chrono::DateTime::<chrono::Utc>::MAX_UTC;
    assert!(DateTime::from_timestamp(first.timestamp(), 0).is_some());
    assert!(DateTime::from_timestamp(first.timestamp() - 1, 0).is_none());
    assert!(DateTime::from_timestamp(last.timestamp(), 999_999_999).is_some());
    assert!(DateTime::from_timestamp(last.timestamp() + 1, 0).is_none());
}

#[test]
fn elapsed_time_agrees_with_chrono() {
    let parts = [
        (0i64, 0u32),
        (59, 1_500_000_000),
        (60, 250_000_000),
        (86_399, 1_000_000_000),
        (86_400, 0),
        (-1, 999_999_999),
        (-86_401, 1_200_000_000),
        (1_703_932_200, 123_456_789),
    ];
    for a in parts {
        for b in parts {
            let ours = DateTime::from_timestamp(a.0, a.1)
                .unwrap()
                .since(&DateTime::from_timestamp(b.0, b.1).unwrap());
            let x = chrono::DateTime::from_timestamp(a.0, a.1).unwrap();
            let y = chrono::DateTime::from_timestamp(b.0, b.1).unwrap();
            let theirs = x - y;
            assert_eq!(ours.nanos, theirs.num_nanoseconds().unwrap() as i128);
            let secs = DateTime::from_timestamp(a.0, a.1)
                .unwrap()
                .seconds_since(&DateTime::from_timestamp(b.0, b.1).unwrap());
            assert_eq!(secs, theirs.num_seconds());
            assert_eq!(ours.to_text(), format!("{:?}", theirs));
        }
        let t = DateTime::from_timestamp(a.0, a.1).unwrap();
        let later = t.later_by(100);
        let model =
            chrono::DateTime::from_timestamp(a.0, a.1).unwrap() + chrono::Duration::seconds(100);
        assert_eq!(
            (later.timestamp(), later.timestamp_subsec_nanos()),
            (model.timestamp(), model.timestamp_subsec_nanos())
        );
        assert_eq!(t.later_by(0), t);
    }
    let last = DateTime::from_timestamp(8_210_266_876_799, 5).unwrap();
    assert_eq!(last.later_by(1).timestamp_subsec_nanos(), 999_999_999);
}

#[test]
fn lengths_of_time_have_units() {
    assert_eq!(Duration::seconds(-3).nanos, -3_000_000_000);
    assert_eq!(Duration::from_secs(60), Duration::seconds(60));
    assert_eq!(Duration::milliseconds(100).nanos, 100_000_000);
}

#[test]
fn maps_keep_the_order_of_arrival() {
    let mut map: OrderedMap<String, usize> = OrderedMap::new();
    assert!(map.is_empty());
    map.insert("b".to_string(), 1);
    map.insert("a".to_string(), 2);
    map.insert("b".to_string(), 3);
    assert_eq!(map.len(), 2);
    assert_eq!((map.key_at(0).as_str(), *map.value_at(0)), ("b", 3));
    assert_eq!((map.key_at(1).as_str(), *map.value_at(1)), ("a", 2));
    assert_eq!(map.position(&"a".to_string()), Some(1));
    assert!(map.contains_key(&"b".to_string()));
    assert_eq!(map.get(&"c".to_string()), None);
    let mut other = 9;
    map.swap_value(0, &mut other);
    assert_eq!((other, map.get(&"b".to_string())), (3, Some(&9)));
    assert_eq!(map.clone(), map);
}
