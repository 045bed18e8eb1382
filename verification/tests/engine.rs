use fetche::config::{derive_identity, Config, ConfigInput, RawConfig};
use fetche::db::{
    bool_to_sqlite, create_or_activate_config, deactivate_all_configs, get_active_configs,
    get_config, latest_fetched_at, list_configs, record_downtime, record_fetch,
    record_fetch_config, sqlite_to_bool, Store,
};
use fetche::fetch_result::{FetchRecord, Status};
use fetche::scheduler::{build_record, classify, tick, FetchOutcome};

fn input(url: &str, interval: i64, json: bool) -> ConfigInput {
    ConfigInput {
        source_url: url.to_owned(),
        fetch_interval_s: interval,
        try_parse_json: json,
    }
}

fn sample(hash: u64, at: i64, status: Status, body: Option<&str>) -> FetchRecord {
    FetchRecord {
        config: hash,
        fetched_at: at,
        created_at: at,
        source_url: "http://example.test/health".to_owned(),
        status,
        body_text: body.map(|s| s.to_owned()),
        valid_json: None,
        from_db: true,
    }
}

#[test]
fn identity_is_deterministic() {
    let a = derive_identity("http://example.test/health", 60, false);
    let b = derive_identity("http://example.test/health", 60, false);
    assert_eq!(a, b);
    assert_eq!(a, 0x26c3d61fbce7c849);
    assert_eq!(
        derive_identity("http://example.test/health", 60, true),
        0x26c3d51fbce7c696
    );
    assert_eq!(derive_identity("", 1, false), 0x69fdb4a58d3a233d);
}

#[test]
fn identity_depends_on_every_field() {
    let base = derive_identity("http://example.test/health", 60, false);
    assert_ne!(base, derive_identity("http://example.test/health", 61, false));
    assert_ne!(base, derive_identity("http://example.test/health", 60, true));
    assert_ne!(base, derive_identity("http://example.test/healtj", 60, false));
}

#[test]
fn config_from_input_uses_derived_identity() {
    let c = Config::from(input("http://example.test/health", 60, false));
    assert_eq!(c.hash, 0x26c3d61fbce7c849);
    assert!(c.active);
    assert_eq!(c.last_fetched, None);
}

#[test]
fn dedup_stores_one_row_for_identical_writes() {
    let mut store = Store::new();
    let c = Config::from(input("http://example.test/health", 60, false));
    let h = c.hash;
    create_or_activate_config(&mut store, c);
    let first = sample(h, 100, Status::HttpOk(200), Some("ok"));
    let second = sample(h, 160, Status::HttpOk(200), Some("ok"));
    assert_eq!(record_fetch(&mut store, first), None);
    assert_eq!(record_fetch(&mut store, second), Some(60));
    assert_eq!(store.samples.len(), 1);
    assert_eq!(store.samples[0].fetched_at, 100);
}

#[test]
fn changed_state_is_appended() {
    let mut store = Store::new();
    let c = Config::from(input("http://example.test/health", 60, false));
    let h = c.hash;
    create_or_activate_config(&mut store, c);
    record_fetch(&mut store, sample(h, 100, Status::HttpOk(200), Some("ok")));
    record_fetch(&mut store, sample(h, 160, Status::HttpErr(500), Some("boom")));
    assert_eq!(store.samples.len(), 2);
    assert_eq!(latest_fetched_at(&store, h), Some(160));
}

#[test]
fn downtime_marker_sits_on_the_grid() {
    let mut store = Store::new();
    let c = Config::from(input("http://example.test/health", 30, false));
    let h = c.hash;
    create_or_activate_config(&mut store, c);
    record_fetch_config(&mut store, h, 1000);
    let elapsed = record_downtime(&mut store, h, 1100);
    assert_eq!(elapsed, Some(100));
    assert_eq!(store.samples.len(), 1);
    let marker = &store.samples[0];
    assert!(matches!(marker.status, Status::Unknown));
    assert_eq!(marker.fetched_at, 1030);
    assert_eq!(marker.created_at, 1100);
    assert_eq!(marker.body_text, None);
    assert!(marker.from_db);
}

#[test]
fn no_downtime_marker_inside_tolerance() {
    let mut store = Store::new();
    let c = Config::from(input("http://example.test/health", 30, false));
    let h = c.hash;
    create_or_activate_config(&mut store, c);
    record_fetch_config(&mut store, h, 1000);
    assert_eq!(record_downtime(&mut store, h, 1031), Some(31));
    assert_eq!(store.samples.len(), 0);
    assert_eq!(record_downtime(&mut store, h, 1000), Some(0));
    assert_eq!(store.samples.len(), 0);
}

#[test]
fn never_polled_config_reports_no_gap() {
    let mut store = Store::new();
    let c = Config::from(input("http://example.test/health", 30, false));
    let h = c.hash;
    create_or_activate_config(&mut store, c);
    assert_eq!(record_downtime(&mut store, h, 1100), None);
    assert_eq!(store.samples.len(), 0);
}

#[test]
fn tick_first_poll_writes_baseline_and_marks_attempt() {
    let mut store = Store::new();
    let c = Config::from(input("http://example.test/health", 30, false));
    let h = c.hash;
    create_or_activate_config(&mut store, c);
    let since = tick(
        &mut store,
        h,
        1000,
        FetchOutcome::Response {
            code: 200,
            body: Some("ok".to_owned()),
        },
    );
    assert_eq!(since, None);
    assert_eq!(store.samples.len(), 1);
    assert!(matches!(store.samples[0].status, Status::HttpOk(200)));
    assert_eq!(get_config(&store, h).unwrap().last_fetched, Some(1000));
}

#[test]
fn tick_before_interval_does_nothing() {
    let mut store = Store::new();
    let c = Config::from(input("http://example.test/health", 30, false));
    let h = c.hash;
    create_or_activate_config(&mut store, c);
    tick(&mut store, h, 1000, FetchOutcome::Response { code: 200, body: None });
    let since = tick(&mut store, h, 1010, FetchOutcome::Response { code: 200, body: None });
    assert_eq!(since, Some(10));
    assert_eq!(store.samples.len(), 1);
    assert_eq!(get_config(&store, h).unwrap().last_fetched, Some(1000));
}

#[test]
fn tick_advances_last_fetched_even_when_write_is_deduped() {
    let mut store = Store::new();
    let c = Config::from(input("http://example.test/health", 30, false));
    let h = c.hash;
    create_or_activate_config(&mut store, c);
    tick(&mut store, h, 1000, FetchOutcome::Response { code: 200, body: None });
    tick(&mut store, h, 1030, FetchOutcome::Response { code: 200, body: None });
    assert_eq!(store.samples.len(), 1);
    assert_eq!(get_config(&store, h).unwrap().last_fetched, Some(1030));
}

#[test]
fn transport_failure_is_recorded_and_still_advances_last_fetched() {
    let mut store = Store::new();
    let c = Config::from(input("http://example.test/health", 30, false));
    let h = c.hash;
    create_or_activate_config(&mut store, c);
    tick(&mut store, h, 1000, FetchOutcome::Response { code: 200, body: None });
    tick(&mut store, h, 1030, FetchOutcome::TransportFailure);
    assert_eq!(store.samples.len(), 2);
    assert!(matches!(store.samples[1].status, Status::Error));
    assert_eq!(store.samples[1].body_text, None);
    assert_eq!(get_config(&store, h).unwrap().last_fetched, Some(1030));
}

#[test]
fn inactive_config_is_never_polled() {
    let mut store = Store::new();
    let c = Config::from(input("http://example.test/health", 30, false));
    let h = c.hash;
    create_or_activate_config(&mut store, c);
    deactivate_all_configs(&mut store);
    for k in 0..5 {
        let since = tick(
            &mut store,
            h,
            1000 + k * 60,
            FetchOutcome::Response { code: 200, body: None },
        );
        assert_eq!(since, None);
    }
    assert_eq!(store.samples.len(), 0);
    assert_eq!(get_config(&store, h).unwrap().last_fetched, None);
    assert!(!get_config(&store, h).unwrap().active);
}

#[test]
fn reactivation_preserves_history_and_last_fetched() {
    let mut store = Store::new();
    let c = Config::from(input("http://example.test/health", 30, false));
    let h = c.hash;
    create_or_activate_config(&mut store, c);
    tick(&mut store, h, 1000, FetchOutcome::Response { code: 200, body: None });
    deactivate_all_configs(&mut store);
    let again = Config::from(input("http://example.test/health", 30, false));
    assert_eq!(again.hash, h);
    create_or_activate_config(&mut store, again);
    let c2 = get_config(&store, h).unwrap();
    assert!(c2.active);
    assert_eq!(c2.last_fetched, Some(1000));
    assert_eq!(store.samples.len(), 1);
    assert_eq!(store.configs.len(), 1);
}

#[test]
fn active_configs_lists_only_active() {
    let mut store = Store::new();
    let a = Config::from(input("http://one.test/", 30, false));
    let b = Config::from(input("http://two.test/", 60, false));
    let ha = a.hash;
    let hb = b.hash;
    create_or_activate_config(&mut store, a);
    create_or_activate_config(&mut store, b);
    assert_eq!(get_active_configs(&store), vec![ha, hb]);
    deactivate_all_configs(&mut store);
    assert_eq!(get_active_configs(&store), Vec::<u64>::new());
    let b2 = Config::from(input("http://two.test/", 60, false));
    create_or_activate_config(&mut store, b2);
    assert_eq!(get_active_configs(&store), vec![hb]);
}

#[test]
fn classify_splits_on_the_two_hundreds() {
    assert!(matches!(classify(200), Status::HttpOk(200)));
    assert!(matches!(classify(299), Status::HttpOk(299)));
    assert!(matches!(classify(199), Status::HttpErr(199)));
    assert!(matches!(classify(300), Status::HttpErr(300)));
    assert!(matches!(classify(404), Status::HttpErr(404)));
}

#[test]
fn build_record_validates_json_only_when_asked() {
    let mut c = Config::from(input("http://example.test/health", 30, true));
    let now = 5000;
    let r = build_record(
        &c,
        FetchOutcome::Response { code: 200, body: Some("{\"a\":1}".to_owned()) },
        now,
    );
    assert_eq!(r.valid_json, Some(true));
    let r = build_record(
        &c,
        FetchOutcome::Response { code: 200, body: Some("not json".to_owned()) },
        now,
    );
    assert_eq!(r.valid_json, Some(false));
    let r = build_record(&c, FetchOutcome::Response { code: 200, body: None }, now);
    assert_eq!(r.valid_json, None);
    c.try_parse_json = false;
    let r = build_record(
        &c,
        FetchOutcome::Response { code: 200, body: Some("{\"a\":1}".to_owned()) },
        now,
    );
    assert_eq!(r.valid_json, None);
    let r = build_record(&c, FetchOutcome::TransportFailure, now);
    assert!(matches!(r.status, Status::Error));
    assert_eq!(r.body_text, None);
    assert_eq!(r.valid_json, None);
    assert_eq!(r.fetched_at, now);
    assert_eq!(r.created_at, now);
}

#[test]
fn raw_boolean_conversions() {
    assert_eq!(bool_to_sqlite(true), 1);
    assert_eq!(bool_to_sqlite(false), 0);
    assert!(sqlite_to_bool(1));
    assert!(!sqlite_to_bool(0));
    assert!(!sqlite_to_bool(7));
    assert!(!sqlite_to_bool(-1));
}

#[test]
fn raw_config_round_trip() {
    let c = Config::from(input("http://example.test/health", 60, true));
    let h = c.hash;
    let raw = RawConfig::from(c);
    assert_eq!(raw.hash, h as i64);
    assert_eq!(raw.try_parse_json, 1);
    assert_eq!(raw.active, 1);
    let back = Config::try_from(raw).unwrap();
    assert_eq!(back.hash, h);
    assert!(back.try_parse_json);
    assert!(back.active);
    assert_eq!(back.last_fetched, None);
}

#[test]
fn raw_config_rejects_bad_rows() {
    let c = Config::from(input("http://example.test/health", 60, true));
    let mut raw = RawConfig::from(c);
    raw.fetch_interval_s = 0;
    assert!(Config::try_from(raw).is_err());
    let c = Config::from(input("http://example.test/health", 60, true));
    let mut raw = RawConfig::from(c);
    raw.last_fetched = Some(i64::MAX);
    assert!(Config::try_from(raw).is_err());
}

#[test]
fn downtime_marker_is_idempotent_under_dedup() {
    // When the latest stored record is already an Unknown marker with the
    // same URL, a fresh downtime write is dropped as a duplicate.
    let mut store = Store::new();
    let c = Config::from(input("http://example.test/health", 30, false));
    let h = c.hash;
    create_or_activate_config(&mut store, c);
    let earlier = FetchRecord {
        config: h,
        fetched_at: 130,
        created_at: 160,
        source_url: "http://example.test/health".to_owned(),
        status: Status::Unknown,
        body_text: None,
        valid_json: None,
        from_db: true,
    };
    record_fetch(&mut store, earlier);
    record_fetch_config(&mut store, h, 200);
    let elapsed = record_downtime(&mut store, h, 300);
    assert_eq!(elapsed, Some(100));
    assert_eq!(store.samples.len(), 1);
    assert_eq!(store.samples[0].fetched_at, 130);
}

#[test]
fn clock_skew_never_moves_last_fetched_backwards() {
    let mut store = Store::new();
    let c = Config::from(input("http://example.test/health", 30, false));
    let h = c.hash;
    create_or_activate_config(&mut store, c);
    tick(&mut store, h, 1000, FetchOutcome::Response { code: 200, body: None });
    let since = tick(&mut store, h, 900, FetchOutcome::Response { code: 200, body: None });
    assert_eq!(since, Some(-100));
    assert_eq!(store.samples.len(), 1);
    assert_eq!(get_config(&store, h).unwrap().last_fetched, Some(1000));
}

#[test]
fn list_configs_returns_every_row() {
    let mut store = Store::new();
    let a = Config::from(input("http://one.test/", 30, false));
    let b = Config::from(input("http://two.test/", 60, true));
    let ha = a.hash;
    create_or_activate_config(&mut store, a);
    create_or_activate_config(&mut store, b);
    deactivate_all_configs(&mut store);
    let all = list_configs(&store);
    assert_eq!(all.len(), 2);
    assert_eq!(all[0].hash, ha);
    assert!(!all[0].active);
    assert!(all[1].try_parse_json);
}
