use glean_core::common_metric_data::{CommonMetricData, Lifetime};
use glean_core::error_recording::{count_one_more, error_counter, ErrorType};
use glean_core::keys::{append_bytes, build_storage_key, compare_keys, KeyOrder, KEY_SEPARATOR};
use glean_core::metrics::{Metric, TAG_BOOLEAN, TAG_COUNTER, TAG_STRING, TAG_UUID};
use glean_core::store::{copy_bytes, Entry, Store, Writer};

fn entry(key: &[u8], value: &[u8]) -> Entry {
    Entry { key: key.to_vec(), value: value.to_vec() }
}

#[test]
fn compare_keys_orders_lexicographically() {
    assert_eq!(compare_keys(b"", b""), KeyOrder::Equal);
    assert_eq!(compare_keys(b"", b"a"), KeyOrder::Less);
    assert_eq!(compare_keys(b"a", b""), KeyOrder::Greater);
    assert_eq!(compare_keys(b"abc", b"abc"), KeyOrder::Equal);
    assert_eq!(compare_keys(b"ab", b"abc"), KeyOrder::Less);
    assert_eq!(compare_keys(b"abc", b"ab"), KeyOrder::Greater);
    assert_eq!(compare_keys(b"abd", b"abc"), KeyOrder::Greater);
    assert_eq!(compare_keys(b"abc", b"abd"), KeyOrder::Less);
    assert_eq!(compare_keys(b"b", b"abc"), KeyOrder::Greater);
    assert_eq!(compare_keys(&[0x7f], &[0x80]), KeyOrder::Less);
    assert_eq!(compare_keys(&[0xff], &[0x00, 0xff]), KeyOrder::Greater);
}

#[test]
fn compare_keys_agrees_with_slice_order() {
    let keys: [&[u8]; 8] = [b"", b"a", b"a#", b"a#b", b"aa", b"b", b"metrics#x", &[0xff, 0x00]];
    for a in keys {
        for b in keys {
            let expected = match a.cmp(b) {
                std::cmp::Ordering::Less => KeyOrder::Less,
                std::cmp::Ordering::Equal => KeyOrder::Equal,
                std::cmp::Ordering::Greater => KeyOrder::Greater,
            };
            assert_eq!(compare_keys(a, b), expected);
        }
    }
}

#[test]
fn storage_key_of_ping_lifetime_names_the_ping() {
    assert_eq!(KEY_SEPARATOR, b'#');
    assert_eq!(
        build_storage_key(Lifetime::Ping, b"metrics", b"counter#a"),
        b"metrics#counter#a".to_vec()
    );
    assert_eq!(build_storage_key(Lifetime::Ping, b"", b"k"), b"#k".to_vec());
    assert_eq!(build_storage_key(Lifetime::Ping, b"p", b""), b"p#".to_vec());
}

#[test]
fn storage_key_of_other_lifetimes_is_the_key() {
    assert_eq!(build_storage_key(Lifetime::Application, b"metrics", b"k"), b"k".to_vec());
    assert_eq!(build_storage_key(Lifetime::User, b"metrics", b"cat.k"), b"cat.k".to_vec());
    assert_eq!(build_storage_key(Lifetime::User, b"metrics", b""), Vec::<u8>::new());
}

#[test]
fn append_and_copy_bytes() {
    let mut dst = vec![1u8, 2];
    append_bytes(&mut dst, &[3, 4, 5]);
    assert_eq!(dst, vec![1, 2, 3, 4, 5]);
    append_bytes(&mut dst, &[]);
    assert_eq!(dst, vec![1, 2, 3, 4, 5]);
    assert_eq!(copy_bytes(&[9, 8]), vec![9, 8]);
    assert_eq!(copy_bytes(&[]), Vec::<u8>::new());
}

#[test]
fn lifetime_store_names() {
    assert_eq!(Lifetime::Ping.as_str(), "ping");
    assert_eq!(Lifetime::Application.as_str(), "app");
    assert_eq!(Lifetime::User.as_str(), "user");
}

#[test]
fn metric_encodings_are_exact() {
    assert_eq!((TAG_BOOLEAN, TAG_COUNTER, TAG_STRING, TAG_UUID), (0, 1, 2, 3));
    assert_eq!(Metric::Boolean(true).encode(), vec![0, 1]);
    assert_eq!(Metric::Boolean(false).encode(), vec![0, 0]);
    assert_eq!(Metric::Counter(1).encode(), vec![1, 1, 0, 0, 0]);
    assert_eq!(Metric::Counter(258).encode(), vec![1, 2, 1, 0, 0]);
    assert_eq!(Metric::Counter(-1).encode(), vec![1, 255, 255, 255, 255]);
    assert_eq!(Metric::Counter(i32::MIN).encode(), vec![1, 0, 0, 0, 128]);
    assert_eq!(Metric::Counter(i32::MAX).encode(), vec![1, 255, 255, 255, 127]);
    assert_eq!(Metric::String("".to_string()).encode(), vec![2]);
    assert_eq!(Metric::String("h\u{e9}".to_string()).encode(), vec![2, 0x68, 0xc3, 0xa9]);
    assert_eq!(Metric::Uuid("ab".to_string()).encode(), vec![3, 97, 98]);
}

#[test]
fn metric_decode_inverts_encode() {
    let values = [
        Metric::Boolean(true),
        Metric::Boolean(false),
        Metric::Counter(0),
        Metric::Counter(-7),
        Metric::Counter(i32::MAX),
        Metric::Counter(i32::MIN),
        Metric::String(String::new()),
        Metric::String("gr\u{fc}\u{df}e \u{1f980}".to_string()),
        Metric::Uuid("6b3f7c1e-0000-4000-8000-000000000001".to_string()),
    ];
    for value in values {
        assert_eq!(Metric::decode(&value.encode()), Some(value));
    }
}

#[test]
fn metric_decode_of_given_bytes() {
    assert_eq!(Metric::decode(&[0, 1]), Some(Metric::Boolean(true)));
    assert_eq!(Metric::decode(&[1, 0, 1, 0, 0]), Some(Metric::Counter(256)));
    assert_eq!(Metric::decode(&[2, 0x68, 0xc3, 0xa9]), Some(Metric::String("h\u{e9}".to_string())));
    assert_eq!(Metric::decode(&[3]), Some(Metric::Uuid(String::new())));
}

#[test]
fn metric_decode_rejects_what_is_no_encoding() {
    assert_eq!(Metric::decode(&[]), None);
    assert_eq!(Metric::decode(&[4]), None);
    assert_eq!(Metric::decode(&[255, 0]), None);
    assert_eq!(Metric::decode(&[0]), None);
    assert_eq!(Metric::decode(&[0, 2]), None);
    assert_eq!(Metric::decode(&[0, 1, 0]), None);
    assert_eq!(Metric::decode(&[1]), None);
    assert_eq!(Metric::decode(&[1, 0, 0, 0]), None);
    assert_eq!(Metric::decode(&[1, 0, 0, 0, 0, 0]), None);
    assert_eq!(Metric::decode(&[2, 0xc3]), None);
    assert_eq!(Metric::decode(&[2, 0xff]), None);
    assert_eq!(Metric::decode(&[3, 0xed, 0xa0, 0x80]), None);
    assert_eq!(Metric::decode(&[3, 0xc0, 0x80]), None);
}

#[test]
fn identifier_joins_category_and_name() {
    let bare = CommonMetricData::new("", "client_id", vec!["core".to_string()], Lifetime::User);
    assert_eq!(bare.identifier(), "client_id");
    let scoped = CommonMetricData::new("ui", "clicks", Vec::new(), Lifetime::Ping);
    assert_eq!(scoped.identifier(), "ui.clicks");
    assert_eq!(scoped.category, "ui");
    assert_eq!(scoped.name, "clicks");
    assert_eq!(scoped.lifetime, Lifetime::Ping);
    let nameless = CommonMetricData::new("ui", "", Vec::new(), Lifetime::Ping);
    assert_eq!(nameless.identifier(), "ui.");
}

#[test]
fn error_names_and_counters() {
    assert_eq!(ErrorType::InvalidValue.as_str(), "invalid_value");
    assert_eq!(ErrorType::InvalidLabel.as_str(), "invalid_label");
    assert_eq!(ErrorType::InvalidState.as_str(), "invalid_state");
    assert_eq!(ErrorType::InvalidOverflow.as_str(), "invalid_overflow");
    let meta = CommonMetricData::new(
        "ui",
        "clicks",
        vec!["events".to_string(), "baseline".to_string()],
        Lifetime::Application,
    );
    let counter = error_counter(&meta, ErrorType::InvalidLabel);
    assert_eq!(counter.category, "ui.clicks");
    assert_eq!(counter.name, "invalid_label");
    assert_eq!(counter.send_in_pings, vec!["events".to_string(), "baseline".to_string()]);
    assert_eq!(counter.lifetime, Lifetime::Application);
    assert_eq!(counter.identifier(), "ui.clicks.invalid_label");
}

#[test]
fn count_one_more_saturates() {
    assert_eq!(count_one_more(None), Metric::Counter(1));
    assert_eq!(count_one_more(Some(Metric::Counter(41))), Metric::Counter(42));
    assert_eq!(count_one_more(Some(Metric::Counter(-1))), Metric::Counter(0));
    assert_eq!(count_one_more(Some(Metric::Counter(i32::MAX))), Metric::Counter(i32::MAX));
    assert_eq!(count_one_more(Some(Metric::Boolean(true))), Metric::Counter(1));
}

#[test]
fn store_put_get_delete() {
    let mut store = Store::new();
    assert_eq!(store.len(), 0);
    assert_eq!(store.get(b"a"), None);
    store.put(b"b".to_vec(), vec![2]);
    store.put(b"a".to_vec(), vec![1]);
    store.put(b"c".to_vec(), vec![3]);
    assert_eq!(store.len(), 3);
    assert_eq!(store.get(b"a"), Some(&vec![1]));
    assert_eq!(store.get(b"b"), Some(&vec![2]));
    assert_eq!(store.get(b"c"), Some(&vec![3]));
    assert_eq!(store.get(b"ab"), None);
    store.put(b"b".to_vec(), vec![20, 21]);
    assert_eq!(store.len(), 3);
    assert_eq!(store.get(b"b"), Some(&vec![20, 21]));
    assert!(store.delete(b"a"));
    assert!(!store.delete(b"a"));
    assert!(!store.delete(b"zz"));
    assert_eq!(store.len(), 2);
    assert_eq!(store.get(b"a"), None);
    assert_eq!(store.into_entries(), vec![entry(b"b", &[20, 21]), entry(b"c", &[3])]);
}

#[test]
fn store_lists_in_key_order_from_a_start() {
    let mut store = Store::new();
    for key in [&b"m"[..], b"zebra", b"", b"alpha", b"mango", b"l"] {
        store.put(key.to_vec(), key.to_vec());
    }
    let all: Vec<Vec<u8>> = store.entries_from(b"").into_iter().map(|e| e.key).collect();
    assert_eq!(
        all,
        vec![
            b"".to_vec(),
            b"alpha".to_vec(),
            b"l".to_vec(),
            b"m".to_vec(),
            b"mango".to_vec(),
            b"zebra".to_vec(),
        ]
    );
    let from_m: Vec<Vec<u8>> = store.entries_from(b"m").into_iter().map(|e| e.key).collect();
    assert_eq!(from_m, vec![b"m".to_vec(), b"mango".to_vec(), b"zebra".to_vec()]);
    let from_ma: Vec<Vec<u8>> = store.entries_from(b"ma").into_iter().map(|e| e.key).collect();
    assert_eq!(from_ma, vec![b"mango".to_vec(), b"zebra".to_vec()]);
    assert!(store.entries_from(b"zebras").is_empty());
}

#[test]
fn store_from_entries_keeps_the_later_value() {
    let store = Store::from_entries(&vec![
        entry(b"k", &[1]),
        entry(b"a", &[2]),
        entry(b"k", &[3]),
        entry(b"a", &[4]),
        entry(b"z", &[5]),
    ]);
    assert_eq!(store.len(), 3);
    assert_eq!(
        store.duplicate().into_entries(),
        vec![entry(b"a", &[4]), entry(b"k", &[3]), entry(b"z", &[5])]
    );
    assert_eq!(Store::from_entries(&Vec::new()).len(), 0);
}

#[test]
fn store_of_many_keys_stays_sorted() {
    let mut store = Store::new();
    let mut expected: Vec<Vec<u8>> = Vec::new();
    let mut x: u32 = 12345;
    for _ in 0..300 {
        x = x.wrapping_mul(1103515245).wrapping_add(12345);
        let key = vec![(x >> 16) as u8 % 7, (x >> 8) as u8 % 5];
        store.put(key.clone(), vec![x as u8]);
        if !expected.contains(&key) {
            expected.push(key);
        }
    }
    expected.sort();
    let listed: Vec<Vec<u8>> = store.entries_from(b"").into_iter().map(|e| e.key).collect();
    assert_eq!(listed, expected);
    assert_eq!(store.len(), expected.len());
    for key in &expected {
        assert!(store.get(key).is_some());
    }
    for key in &expected {
        assert!(store.delete(key));
    }
    assert_eq!(store.len(), 0);
}

#[test]
fn writer_stages_on_a_copy() {
    let mut store = Store::new();
    store.put(b"a".to_vec(), vec![1]);
    let mut writer = Writer::begin(&store);
    writer.put(b"b", &[2]);
    assert!(writer.delete(b"a"));
    assert_eq!(writer.get(b"b"), Some(&vec![2]));
    assert_eq!(writer.get(b"a"), None);
    assert_eq!(store.get(b"a"), Some(&vec![1]));
    assert_eq!(store.get(b"b"), None);
    let committed = writer.commit();
    assert_eq!(committed.into_entries(), vec![entry(b"b", &[2])]);
    assert_eq!(store.into_entries(), vec![entry(b"a", &[1])]);
}

#[test]
fn ping_names_without_separator_keep_keys_apart() {
    let pairs: [(&[u8], &[u8]); 5] =
        [(b"a", b"b#c"), (b"a", b"b"), (b"ab", b"c"), (b"", b"a#b"), (b"a", b"")];
    for (i, (ping_a, key_a)) in pairs.iter().enumerate() {
        for (j, (ping_b, key_b)) in pairs.iter().enumerate() {
            let same = build_storage_key(Lifetime::Ping, ping_a, key_a)
                == build_storage_key(Lifetime::Ping, ping_b, key_b);
            assert_eq!(same, i == j);
        }
    }
    assert_eq!(
        build_storage_key(Lifetime::Ping, b"a#b", b"c"),
        build_storage_key(Lifetime::Ping, b"a", b"b#c")
    );
}
