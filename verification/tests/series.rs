use fetche::config::{Config, ConfigInput};
use fetche::fetch_result::{
    decode_status, encode_status, FetchRecord, PublicFetchRecord, PublicFetchRecordBody,
    RawFetchRecord, Status,
};
use fetche::db::{create_or_activate_config, record_fetch, record_fetch_config, Store};
use fetche::query::{flatten_sorted, reconstruct, run_query, Query};

fn config(url: &str, interval: i64, json: bool) -> Config {
    Config::from(ConfigInput {
        source_url: url.to_owned(),
        fetch_interval_s: interval,
        try_parse_json: json,
    })
}

fn stored(hash: u64, at: i64, status: Status) -> FetchRecord {
    FetchRecord {
        config: hash,
        fetched_at: at,
        created_at: at,
        source_url: "http://example.test/health".to_owned(),
        status,
        body_text: None,
        valid_json: None,
        from_db: true,
    }
}

#[test]
fn status_tags_render_canonically() {
    assert_eq!(encode_status(&Status::HttpOk(200)), "HttpOk:200");
    assert_eq!(encode_status(&Status::HttpOk(0)), "HttpOk:0");
    assert_eq!(encode_status(&Status::HttpErr(500)), "HttpErr:500");
    assert_eq!(encode_status(&Status::HttpErr(65535)), "HttpErr:65535");
    assert_eq!(encode_status(&Status::Error), "Error");
    assert_eq!(encode_status(&Status::Unknown), "Unknown");
}

#[test]
fn status_tags_read_back() {
    for st in [
        Status::HttpOk(200),
        Status::HttpOk(0),
        Status::HttpOk(65535),
        Status::HttpErr(404),
        Status::Error,
        Status::Unknown,
    ] {
        assert_eq!(decode_status(&encode_status(&st)), Ok(st));
    }
}

#[test]
fn corrupt_status_tags_are_rejected() {
    for bad in [
        "", "Bogus", "HttpOk:", "HttpOk:007", "HttpOk:65536", "HttpOk:99999",
        "HttpOk:12a", "httpok:200", "HttpErr:", "Unknow", "Errors", "HttpOk:200 ",
    ] {
        assert!(decode_status(bad).is_err(), "accepted {:?}", bad);
    }
}

#[test]
fn stored_row_round_trips() {
    let rec = FetchRecord {
        config: 7,
        fetched_at: 100,
        created_at: 101,
        source_url: "http://example.test/".to_owned(),
        status: Status::HttpErr(503),
        body_text: Some("oops".to_owned()),
        valid_json: Some(false),
        from_db: true,
    };
    let raw = RawFetchRecord::from(rec.clone());
    assert_eq!(raw.status, "HttpErr:503");
    assert_eq!(raw.config, 7);
    let back = FetchRecord::try_from(raw).unwrap();
    assert_eq!(back, rec);
    assert_eq!(back.fetched_at, 100);
    assert_eq!(back.created_at, 101);
    assert!(back.from_db);
}

#[test]
fn corrupt_rows_are_reported_not_coerced() {
    let rec = stored(7, 100, Status::HttpOk(200));
    let mut raw = RawFetchRecord::from(rec);
    raw.status = "HttpOk:2e2".to_owned();
    assert!(FetchRecord::try_from(raw).is_err());
    let rec = stored(7, 100, Status::HttpOk(200));
    let mut raw = RawFetchRecord::from(rec);
    raw.fetched_at = i64::MIN;
    assert!(FetchRecord::try_from(raw).is_err());
}

#[test]
fn gap_fill_lands_on_the_grid() {
    let c = config("http://example.test/health", 60, false);
    let h = c.hash;
    let records = vec![
        stored(h, 0, Status::HttpOk(200)),
        stored(h, 300, Status::HttpErr(500)),
    ];
    let out = reconstruct(&c, records, true, 1000);
    let instants: Vec<i64> = out.iter().map(|r| r.fetched_at).collect();
    assert_eq!(instants, vec![0, 60, 120, 180, 240, 300]);
    for r in &out[1..5] {
        assert!(matches!(r.status, Status::HttpOk(200)));
        assert!(!r.from_db);
        assert_eq!(r.created_at, 1000);
    }
    assert!(out[0].from_db);
    assert!(out[5].from_db);
    assert!(matches!(out[5].status, Status::HttpErr(500)));
    for w in instants.windows(2) {
        assert!(w[0] < w[1]);
    }
}

#[test]
fn no_fill_when_decompress_is_off() {
    let c = config("http://example.test/health", 60, false);
    let h = c.hash;
    let records = vec![
        stored(h, 0, Status::HttpOk(200)),
        stored(h, 300, Status::HttpErr(500)),
    ];
    let out = reconstruct(&c, records, false, 1000);
    assert_eq!(out.len(), 2);
}

#[test]
fn extension_carries_state_to_the_present() {
    let mut c = config("http://example.test/health", 300, false);
    let h = c.hash;
    c.last_fetched = Some(800);
    let records = vec![stored(h, 500, Status::HttpOk(200))];
    let out = reconstruct(&c, records, true, 900);
    assert_eq!(out.len(), 2);
    assert_eq!(out[1].fetched_at, 800);
    assert_eq!(out[1].created_at, 900);
    assert!(matches!(out[1].status, Status::HttpOk(200)));
    assert!(!out[1].from_db);
    assert!(out[0].from_db);
}

#[test]
fn no_extension_when_attempt_matches_last_record() {
    let mut c = config("http://example.test/health", 300, false);
    let h = c.hash;
    c.last_fetched = Some(500);
    let records = vec![stored(h, 500, Status::HttpOk(200))];
    let out = reconstruct(&c, records, true, 900);
    assert_eq!(out.len(), 1);
}

#[test]
fn empty_history_reconstructs_to_nothing() {
    let mut c = config("http://example.test/health", 60, false);
    c.last_fetched = Some(800);
    let out = reconstruct(&c, Vec::new(), true, 900);
    assert!(out.is_empty());
}

#[test]
fn round_trip_dedup_recovers_the_stored_log() {
    // Decompress, mark everything as written back, and replay the
    // write-side rule: only the original transitions survive.
    let mut c = config("http://example.test/health", 60, false);
    let h = c.hash;
    c.last_fetched = Some(540);
    let original = vec![
        stored(h, 0, Status::HttpOk(200)),
        stored(h, 300, Status::HttpErr(500)),
    ];
    let dense = reconstruct(&c, original.clone(), true, 1000);
    assert!(dense.len() > original.len());
    let mut replayed: Vec<FetchRecord> = Vec::new();
    for r in dense {
        let mut w = r.clone();
        w.from_db = true;
        if replayed.last() != Some(&w) {
            replayed.push(w);
        }
    }
    assert_eq!(replayed.len(), original.len());
    for (a, b) in replayed.iter().zip(original.iter()) {
        assert_eq!(a, b);
        assert_eq!(a.fetched_at, b.fetched_at);
    }
}

#[test]
fn query_groups_by_config_and_respects_filter() {
    let mut store = Store::new();
    let a = config("http://one.test/", 60, false);
    let b = config("http://two.test/", 60, false);
    let ha = a.hash;
    let hb = b.hash;
    create_or_activate_config(&mut store, a);
    create_or_activate_config(&mut store, b);
    record_fetch(&mut store, stored(ha, 0, Status::HttpOk(200)));
    record_fetch_config(&mut store, ha, 0);
    record_fetch(&mut store, stored(hb, 10, Status::HttpErr(500)));
    record_fetch_config(&mut store, hb, 10);
    let all = run_query(&store, &Query { decompress: false, filter_config: None }, 100);
    assert_eq!(all.len(), 2);
    assert_eq!(all[0].0, ha);
    assert_eq!(all[1].0, hb);
    assert_eq!(all[0].1.len(), 1);
    let one = run_query(
        &store,
        &Query { decompress: false, filter_config: Some(hb) },
        100,
    );
    assert_eq!(one.len(), 1);
    assert_eq!(one[0].0, hb);
    assert!(matches!(one[0].1[0].status, Status::HttpErr(500)));
}

#[test]
fn flattened_timeline_is_sorted_by_instant() {
    let mut store = Store::new();
    let a = config("http://one.test/", 60, false);
    let b = config("http://two.test/", 60, false);
    let ha = a.hash;
    let hb = b.hash;
    create_or_activate_config(&mut store, a);
    create_or_activate_config(&mut store, b);
    record_fetch(&mut store, stored(ha, 5, Status::HttpOk(200)));
    record_fetch(&mut store, stored(ha, 50, Status::HttpErr(500)));
    record_fetch_config(&mut store, ha, 50);
    record_fetch(&mut store, stored(hb, 10, Status::HttpOk(204)));
    record_fetch_config(&mut store, hb, 10);
    let grouped = run_query(&store, &Query { decompress: false, filter_config: None }, 100);
    let flat = flatten_sorted(&grouped);
    assert_eq!(flat.len(), 3);
    let instants: Vec<i64> = flat.iter().map(|r| r.fetched_at).collect();
    assert_eq!(instants, vec![5, 10, 50]);
}

#[test]
fn public_record_lifts_valid_json_bodies() {
    let rec = FetchRecord {
        config: 1,
        fetched_at: 0,
        created_at: 0,
        source_url: "http://example.test/".to_owned(),
        status: Status::HttpOk(200),
        body_text: Some("{\"a\":[1,2]}".to_owned()),
        valid_json: Some(true),
        from_db: true,
    };
    let p = PublicFetchRecord::from(rec);
    assert!(matches!(p.data, Some(PublicFetchRecordBody::Json(_))));

    let rec = FetchRecord {
        config: 1,
        fetched_at: 0,
        created_at: 0,
        source_url: "http://example.test/".to_owned(),
        status: Status::HttpOk(200),
        body_text: Some("plain words".to_owned()),
        valid_json: None,
        from_db: true,
    };
    let p = PublicFetchRecord::from(rec);
    match p.data {
        Some(PublicFetchRecordBody::PlainText(t)) => assert_eq!(t, "plain words"),
        _ => panic!("expected plain text"),
    }

    let rec = FetchRecord {
        config: 1,
        fetched_at: 0,
        created_at: 0,
        source_url: "http://example.test/".to_owned(),
        status: Status::Error,
        body_text: None,
        valid_json: None,
        from_db: true,
    };
    let p = PublicFetchRecord::from(rec);
    assert!(p.data.is_none());
}
