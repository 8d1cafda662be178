use glean_core::database::Database;
use glean_core::error_recording::record_error;
use glean_core::internal_metrics::{
    client_id, first_run, generate_client_id_if_missing, initialize_core_metrics, keep_or_adopt,
    set_first_run,
};
use glean_core::{
    CommonMetricData, Entry, ErrorType, InitError, Inner, Lifetime, Metric, StoreImage, Writer,
};

fn empty_image() -> StoreImage {
    StoreImage { ping: Vec::new(), application: Vec::new(), user: Vec::new() }
}

fn ready() -> Inner {
    let mut inner = Inner::new();
    assert_eq!(inner.initialize("/data", Some(empty_image())), Ok(()));
    inner
}

fn listed(inner: &Inner, lifetime: Lifetime, start: &str) -> Vec<(Vec<u8>, Metric)> {
    inner.entries_from(lifetime, start).into_iter().map(|e| (e.key, e.metric)).collect()
}

#[test]
fn new_coordinator_is_inert() {
    let inner = Inner::new();
    assert!(!inner.is_initialized());
    assert!(inner.is_upload_enabled());
    for lifetime in [Lifetime::Ping, Lifetime::Application, Lifetime::User] {
        assert!(inner.snapshot(lifetime).is_empty());
        assert!(inner.entries_from(lifetime, "").is_empty());
    }
}

#[test]
fn coordinator_initialize_outcomes() {
    let mut inner = Inner::new();
    assert_eq!(inner.initialize("", Some(empty_image())), Err(InitError::EmptyDataPath));
    assert_eq!(inner.initialize("", None), Err(InitError::EmptyDataPath));
    assert_eq!(inner.initialize("/data", None), Err(InitError::StoreUnavailable));
    assert!(!inner.is_initialized());
    assert_eq!(inner.initialize("/data", Some(empty_image())), Ok(()));
    assert!(inner.is_initialized());
    assert_eq!(inner.initialize("/data", Some(empty_image())), Err(InitError::AlreadyInitialized));
    assert_eq!(inner.initialize("/data", None), Err(InitError::AlreadyInitialized));
    assert_eq!(inner.initialize("", None), Err(InitError::AlreadyInitialized));
    assert!(inner.is_initialized());
}

#[test]
fn coordinator_initialize_loads_the_image() {
    let image = StoreImage {
        ping: vec![Entry { key: b"p#k".to_vec(), value: Metric::Counter(1).encode() }],
        application: vec![Entry { key: b"k".to_vec(), value: Metric::Counter(2).encode() }],
        user: vec![Entry { key: b"k".to_vec(), value: Metric::Counter(3).encode() }],
    };
    let mut inner = Inner::new();
    inner.set_upload_enabled(false);
    assert_eq!(inner.initialize("/data", Some(image.clone())), Ok(()));
    assert!(!inner.is_upload_enabled());
    assert_eq!(inner.snapshot(Lifetime::Ping), image.ping);
    assert_eq!(inner.snapshot(Lifetime::Application), image.application);
    assert_eq!(inner.snapshot(Lifetime::User), image.user);
    assert_eq!(listed(&inner, Lifetime::User, ""), vec![(b"k".to_vec(), Metric::Counter(3))]);
}

#[test]
fn coordinator_drops_writes_before_initialize() {
    let mut inner = Inner::new();
    inner.record(Lifetime::User, "core", "k", &Metric::Counter(1));
    inner.record_with(Lifetime::User, "core", "k", &|_current: Option<Metric>| -> Metric {
        panic!("the transform is not called before initialization")
    });
    inner.write_with_store(Lifetime::User, |_writer: Writer| -> Option<Writer> {
        panic!("no transaction is opened before initialization")
    });
    inner.record_metric(&first_run(), &Metric::Boolean(true));
    initialize_core_metrics(&mut inner, true, "id");
    assert!(inner.snapshot(Lifetime::User).is_empty());
    assert!(!inner.is_initialized());
}

#[test]
fn coordinator_record_is_not_gated_by_upload() {
    let mut inner = ready();
    inner.set_upload_enabled(false);
    inner.record(Lifetime::Ping, "p", "k", &Metric::Counter(1));
    assert_eq!(listed(&inner, Lifetime::Ping, ""), vec![(b"p#k".to_vec(), Metric::Counter(1))]);
}

#[test]
fn coordinator_record_with_is_a_read_modify_write() {
    let mut inner = ready();
    let add_ten = |current: Option<Metric>| match current {
        Some(Metric::Counter(n)) => Metric::Counter(n + 10),
        _ => Metric::Counter(10),
    };
    inner.record_with(Lifetime::Ping, "p", "k", &add_ten);
    inner.record(Lifetime::Ping, "p", "other", &Metric::Boolean(true));
    inner.record_with(Lifetime::Ping, "p", "k", &add_ten);
    inner.record_with(Lifetime::Ping, "q", "k", &add_ten);
    assert_eq!(
        listed(&inner, Lifetime::Ping, ""),
        vec![
            (b"p#k".to_vec(), Metric::Counter(20)),
            (b"p#other".to_vec(), Metric::Boolean(true)),
            (b"q#k".to_vec(), Metric::Counter(10)),
        ]
    );
}

#[test]
fn serial_transforms_compose_in_call_order() {
    let mut inner = ready();
    let double = |current: Option<Metric>| match current {
        Some(Metric::Counter(n)) => Metric::Counter(n * 2),
        _ => Metric::Counter(0),
    };
    let add_three = |current: Option<Metric>| match current {
        Some(Metric::Counter(n)) => Metric::Counter(n + 3),
        _ => Metric::Counter(3),
    };
    inner.record_with(Lifetime::User, "core", "n", &add_three);
    inner.record_with(Lifetime::User, "core", "n", &double);
    inner.record_with(Lifetime::User, "core", "n", &add_three);
    inner.record_with(Lifetime::User, "core", "n", &double);
    assert_eq!(listed(&inner, Lifetime::User, "n"), vec![(b"n".to_vec(), Metric::Counter(18))]);
}

#[test]
fn first_run_and_client_id_metadata() {
    let meta = first_run();
    assert_eq!(meta.category, "");
    assert_eq!(meta.name, "first_run");
    assert_eq!(meta.send_in_pings, vec!["core".to_string()]);
    assert_eq!(meta.lifetime, Lifetime::User);
    let meta: CommonMetricData = client_id();
    assert_eq!(meta.category, "");
    assert_eq!(meta.name, "client_id");
    assert_eq!(meta.send_in_pings, vec!["core".to_string()]);
    assert_eq!(meta.lifetime, Lifetime::User);
}

#[test]
fn keep_or_adopt_keeps_a_stored_identifier() {
    assert_eq!(keep_or_adopt(None, "new"), Metric::Uuid("new".to_string()));
    assert_eq!(
        keep_or_adopt(Some(Metric::Uuid("old".to_string())), "new"),
        Metric::Uuid("old".to_string())
    );
    assert_eq!(
        keep_or_adopt(Some(Metric::String("old".to_string())), "new"),
        Metric::Uuid("new".to_string())
    );
    assert_eq!(keep_or_adopt(Some(Metric::Counter(1)), "new"), Metric::Uuid("new".to_string()));
}

#[test]
fn bootstrap_on_the_coordinator_state() {
    let mut inner = ready();
    set_first_run(&mut inner, true);
    assert_eq!(
        inner.snapshot(Lifetime::User),
        vec![Entry { key: b"first_run".to_vec(), value: vec![0, 1] }]
    );
    generate_client_id_if_missing(&mut inner, "id-1");
    generate_client_id_if_missing(&mut inner, "id-2");
    assert_eq!(
        listed(&inner, Lifetime::User, ""),
        vec![
            (b"client_id".to_vec(), Metric::Uuid("id-1".to_string())),
            (b"first_run".to_vec(), Metric::Boolean(true)),
        ]
    );
    initialize_core_metrics(&mut inner, false, "id-3");
    assert_eq!(
        listed(&inner, Lifetime::User, ""),
        vec![
            (b"client_id".to_vec(), Metric::Uuid("id-1".to_string())),
            (b"first_run".to_vec(), Metric::Boolean(false)),
        ]
    );
    assert!(inner.snapshot(Lifetime::Ping).is_empty());
    assert!(inner.snapshot(Lifetime::Application).is_empty());
}

#[test]
fn bootstrap_twice_on_a_populated_store_keeps_the_identifier() {
    let image = StoreImage {
        ping: Vec::new(),
        application: Vec::new(),
        user: vec![
            Entry { key: b"client_id".to_vec(), value: Metric::Uuid("kept".to_string()).encode() },
            Entry { key: b"other".to_vec(), value: Metric::Counter(1).encode() },
        ],
    };
    let mut inner = Inner::new();
    assert_eq!(inner.initialize("/data", Some(image)), Ok(()));
    initialize_core_metrics(&mut inner, false, "candidate-1");
    let once = inner.snapshot(Lifetime::User);
    initialize_core_metrics(&mut inner, false, "candidate-2");
    assert_eq!(inner.snapshot(Lifetime::User), once);
    assert_eq!(
        listed(&inner, Lifetime::User, "client_id"),
        vec![
            (b"client_id".to_vec(), Metric::Uuid("kept".to_string())),
            (b"first_run".to_vec(), Metric::Boolean(false)),
            (b"other".to_vec(), Metric::Counter(1)),
        ]
    );
}

#[test]
fn coordinator_visits_in_key_order() {
    let mut inner = ready();
    inner.record(Lifetime::Application, "", "b", &Metric::Counter(2));
    inner.record(Lifetime::Application, "", "a", &Metric::Counter(1));
    inner.record(Lifetime::Application, "", "c", &Metric::Counter(3));
    let mut seen: Vec<(Vec<u8>, Metric)> = Vec::new();
    inner.iter_store_from(Lifetime::Application, "b", |key: &[u8], metric: &Metric| {
        seen.push((key.to_vec(), metric.clone()));
    });
    assert_eq!(
        seen,
        vec![(b"b".to_vec(), Metric::Counter(2)), (b"c".to_vec(), Metric::Counter(3))]
    );
}

#[test]
fn database_is_inert_until_opened() {
    let mut db = Database::new();
    assert!(!db.is_open());
    db.record(Lifetime::Ping, "p", "k", &Metric::Counter(1));
    assert!(db.snapshot(Lifetime::Ping).is_empty());
    db.initialize(&empty_image());
    assert!(db.is_open());
    db.record(Lifetime::Ping, "p", "k", &Metric::Counter(1));
    assert_eq!(
        db.snapshot(Lifetime::Ping),
        vec![Entry { key: b"p#k".to_vec(), value: vec![1, 1, 0, 0, 0] }]
    );
    assert!(db.snapshot(Lifetime::User).is_empty());
}

#[test]
fn faults_are_counted_per_ping_and_dropped_when_not_recording() {
    let meta = CommonMetricData::new(
        "ui",
        "clicks",
        vec!["events".to_string(), "baseline".to_string()],
        Lifetime::Ping,
    );
    let mut inner = Inner::new();
    record_error(&mut inner, &meta, ErrorType::InvalidState);
    assert!(inner.snapshot(Lifetime::Ping).is_empty());
    assert_eq!(inner.initialize("/data", Some(empty_image())), Ok(()));
    inner.set_upload_enabled(false);
    record_error(&mut inner, &meta, ErrorType::InvalidState);
    assert!(inner.snapshot(Lifetime::Ping).is_empty());
    inner.set_upload_enabled(true);
    inner.record(Lifetime::Ping, "events", "ui.clicks.invalid_state", &Metric::Counter(i32::MAX - 1));
    record_error(&mut inner, &meta, ErrorType::InvalidState);
    record_error(&mut inner, &meta, ErrorType::InvalidState);
    assert_eq!(
        listed(&inner, Lifetime::Ping, ""),
        vec![
            (b"baseline#ui.clicks.invalid_state".to_vec(), Metric::Counter(2)),
            (b"events#ui.clicks.invalid_state".to_vec(), Metric::Counter(i32::MAX)),
        ]
    );
    let same_key = CommonMetricData::new(
        "",
        "n",
        vec!["a".to_string(), "b".to_string()],
        Lifetime::User,
    );
    record_error(&mut inner, &same_key, ErrorType::InvalidLabel);
    assert_eq!(
        listed(&inner, Lifetime::User, ""),
        vec![(b"n.invalid_label".to_vec(), Metric::Counter(2))]
    );
}
