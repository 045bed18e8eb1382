//! The per-tick state machine of one config: detect downtime, decide
//! whether a poll is due, classify the transport's answer, and move the
//! store and the config's scheduling state together.

use vstd::prelude::*;

use crate::config::{valid_ts, wf_config, Config};
use crate::db::{
    record_downtime, record_fetch, record_fetch_config, spec_downtime_marker, spec_find_config,
    spec_for_config, spec_record_fetch_samples, spec_synced, spec_synced_state, spec_the_config,
    spec_touch, wf_state, wf_store, Store,
};
use crate::db::{lemma_config_idx, lemma_config_idx_same_hashes, lemma_for_config_push};
use crate::fetch_result::{FetchRecord, Status};
use crate::json::{json_accepts, json_is_valid};

verus! {

/// What the outbound transport handed back for one poll: a response with
/// its status code and a body when one could be decoded, or a transport
/// failure with nothing.
pub enum FetchOutcome {
    Response { code: u16, body: Option<String> },
    TransportFailure,
}

/// The status taxonomy of a received response: success codes are the two
/// hundreds, everything else is an error the source answered with.
pub open spec fn spec_classify(code: u16) -> Status {
    if 200 <= code < 300 {
        Status::HttpOk(code)
    } else {
        Status::HttpErr(code)
    }
}

/// Classifies a received status code.
pub fn classify(code: u16) -> (st: Status)
    ensures
        st == spec_classify(code),
{
    if 200 <= code && code < 300 {
        Status::HttpOk(code)
    } else {
        Status::HttpErr(code)
    }
}

/// The record one poll outcome produces, stamped at `now`: a transport
/// failure is a normal record with no body; a response carries its body
/// and, when the config asks for it and a body arrived, the JSON verdict.
pub open spec fn spec_build_record(c: Config, outcome: FetchOutcome, now: i64) -> FetchRecord {
    match outcome {
        FetchOutcome::Response { code, body } => FetchRecord {
            config: c.hash,
            fetched_at: now,
            created_at: now,
            source_url: c.source_url,
            status: spec_classify(code),
            body_text: body,
            valid_json: match body {
                Option::Some(b) => if c.try_parse_json {
                    Option::Some(json_accepts(b@))
                } else {
                    Option::None
                },
                Option::None => Option::None,
            },
            from_db: true,
        },
        FetchOutcome::TransportFailure => FetchRecord {
            config: c.hash,
            fetched_at: now,
            created_at: now,
            source_url: c.source_url,
            status: Status::Error,
            body_text: Option::None,
            valid_json: Option::None,
            from_db: true,
        },
    }
}

/// Builds the record for one poll outcome of `c`, stamped at `now`.
pub fn build_record(c: &Config, outcome: FetchOutcome, now: i64) -> (r: FetchRecord)
    ensures
        r == spec_build_record(*c, outcome, now),
{
    match outcome {
        FetchOutcome::Response { code, body } => {
            let status = classify(code);
            let valid_json = match &body {
                Option::Some(b) => {
                    if c.try_parse_json {
                        Option::Some(json_is_valid(b.as_str()))
                    } else {
                        Option::None
                    }
                },
                Option::None => Option::None,
            };
            FetchRecord {
                config: c.hash,
                fetched_at: now,
                created_at: now,
                source_url: c.source_url.clone(),
                status,
                body_text: body,
                valid_json,
                from_db: true,
            }
        },
        FetchOutcome::TransportFailure => FetchRecord {
            config: c.hash,
            fetched_at: now,
            created_at: now,
            source_url: c.source_url.clone(),
            status: Status::Error,
            body_text: Option::None,
            valid_json: Option::None,
            from_db: true,
        },
    }
}

/// Seconds since the config's last poll attempt, if one is recorded.
pub open spec fn spec_elapsed(c: Config, now: i64) -> Option<i64> {
    match c.last_fetched {
        Option::Some(lf) => Option::Some((now - lf) as i64),
        Option::None => Option::None,
    }
}

/// Whether a config is due at `now`: never polled, or the elapsed time has
/// reached its interval.
pub open spec fn spec_is_due(c: Config, now: i64) -> bool {
    match c.last_fetched {
        Option::Some(lf) => now - lf >= c.fetch_interval_s,
        Option::None => true,
    }
}

/// Whether `c` is due at `now`: what the driving loop asks before it
/// spends a fetch on a target.
pub fn is_due_now(c: &Config, now: i64) -> (r: bool)
    requires
        wf_config(*c),
        valid_ts(now),
    ensures
        r == spec_is_due(*c, now),
{
    match c.last_fetched {
        Option::Some(lf) => now - lf >= c.fetch_interval_s,
        Option::None => true,
    }
}

/// One tick of one config, as a function of the state and the transport's
/// answer: an absent or inactive config is left alone; otherwise the
/// downtime marker is written if one is called for, and when the config is
/// due, the outcome's record goes through the deduplicating write and the
/// poll attempt is marked — even when the write was dropped, and even when
/// the fetch itself failed.
pub open spec fn spec_tick(
    cs: Seq<Config>,
    ss: Seq<FetchRecord>,
    h: u64,
    now: i64,
    outcome: FetchOutcome,
) -> (Seq<Config>, Seq<FetchRecord>) {
    match spec_find_config(cs, h) {
        Option::None => (cs, ss),
        Option::Some(c) => {
            if !c.active {
                (cs, ss)
            } else {
                let ss1 = match spec_downtime_marker(c, now) {
                    Option::Some(m) => spec_record_fetch_samples(ss, m),
                    Option::None => ss,
                };
                if spec_is_due(c, now) {
                    (
                        spec_touch(cs, h, now),
                        spec_record_fetch_samples(ss1, spec_build_record(c, outcome, now)),
                    )
                } else {
                    (cs, ss1)
                }
            }
        },
    }
}

/// Runs one tick for one config: downtime detection, the due decision,
/// and — when due — the write of `outcome`'s record followed by the mark
/// of the poll attempt. Returns the seconds since the previous attempt,
/// when the config was known, active and previously polled.
pub fn tick(store: &mut Store, config_hash: u64, now: i64, outcome: FetchOutcome) -> (r: Option<
    i64,
>)
    requires
        wf_store(*old(store)),
        spec_synced(*old(store)),
        valid_ts(now),
    ensures
        wf_store(*final(store)),
        spec_synced(*final(store)),
        (final(store).configs@, final(store).samples@) == spec_tick(
            old(store).configs@,
            old(store).samples@,
            config_hash,
            now,
            outcome,
        ),
        r == match spec_find_config(old(store).configs@, config_hash) {
            Option::Some(c) => if c.active {
                spec_elapsed(c, now)
            } else {
                Option::None::<i64>
            },
            Option::None => Option::None::<i64>,
        },
{
    let ghost cs = store.configs@;
    let ghost ss = store.samples@;
    let config = match crate::db::get_config(store, config_hash) {
        Option::Some(c) => c,
        Option::None => {
            return Option::None;
        },
    };
    if !config.active {
        return Option::None;
    }
    proof {
        lemma_config_idx(cs, config_hash);
        assert(config == spec_the_config(cs, config_hash));
        assert(wf_config(config));
    }
    let since = record_downtime(store, config_hash, now);
    let ghost ss1 = store.samples@;
    let due = match since {
        Option::None => true,
        Option::Some(elapsed) => elapsed >= config.fetch_interval_s,
    };
    proof {
        assert(due == spec_is_due(config, now));
    }
    if due {
        let rec = build_record(&config, outcome, now);
        proof {
            lemma_tick_write_ordered(cs, ss, config, now);
            assert(rec.fetched_at == now);
            assert(rec.config == config_hash);
        }
        let _ = record_fetch(store, rec);
        let ghost ss2 = store.samples@;
        proof {
            match config.last_fetched {
                Option::Some(lf) => {
                    assert(lf <= now);
                },
                Option::None => {},
            }
        }
        record_fetch_config(store, config_hash, now);
        proof {
            lemma_tick_synced(cs, ss, ss1, ss2, store.configs@, config, config_hash, now, rec);
        }
        since
    } else {
        since
    }
}

/// A config found in a well-formed state is itself well formed.
proof fn proof_wf_of_found(cs: Seq<Config>, ss: Seq<FetchRecord>, c: Config, h: u64)
    requires
        wf_state(cs, ss),
        spec_find_config(cs, h) == Option::Some(c),
    ensures
        wf_config(c),
{
    lemma_config_idx(cs, h);
    let i = crate::db::spec_config_idx(cs, h);
    assert(wf_config(cs[i]));
}

/// After downtime handling, the due write at `now` lands after everything
/// stored for the config.
proof fn lemma_tick_write_ordered(cs: Seq<Config>, ss: Seq<FetchRecord>, c: Config, now: i64)
    requires
        wf_state(cs, ss),
        spec_synced_state(cs, ss),
        valid_ts(now),
        spec_find_config(cs, c.hash) == Option::Some(c),
        spec_is_due(c, now),
    ensures
        ({
            let ss1 = match spec_downtime_marker(c, now) {
                Option::Some(m) => spec_record_fetch_samples(ss, m),
                Option::None => ss,
            };
            spec_for_config(ss1, c.hash).len() > 0 ==> spec_for_config(
                ss1,
                c.hash,
            ).last().fetched_at < now
        }),
{
    let h = c.hash;
    proof_wf_of_found(cs, ss, c, h);
    let pr = spec_for_config(ss, h);
    if pr.len() > 0 {
        assert(match c.last_fetched {
            Option::Some(lf) => pr.last().fetched_at <= lf,
            Option::None => false,
        });
    }
    match spec_downtime_marker(c, now) {
        Option::Some(m) => {
            let lf = match c.last_fetched {
                Option::Some(v) => v,
                Option::None => now,
            };
            let ss1 = spec_record_fetch_samples(ss, m);
            if pr.len() > 0 && crate::fetch_result::spec_dedup_eq(pr.last(), m) {
                assert(ss1 == ss);
                assert(pr.last().fetched_at <= lf < now);
            } else {
                assert(ss1 == ss.push(m));
                lemma_for_config_push(ss, m, h);
                assert(spec_for_config(ss1, h).last() == m);
                assert(m.fetched_at == lf + c.fetch_interval_s < now);
            }
        },
        Option::None => {
            match c.last_fetched {
                Option::Some(lf) => {
                    if pr.len() > 0 {
                        assert(pr.last().fetched_at <= lf);
                        assert(now - lf >= c.fetch_interval_s >= 1);
                    }
                },
                Option::None => {
                    if pr.len() > 0 {
                        assert(false);
                    }
                },
            }
        },
    }
}

/// After the due write and the mark of the attempt, the store is settled
/// again: no config's log runs ahead of its `last_fetched`.
proof fn lemma_tick_synced(
    cs: Seq<Config>,
    ss: Seq<FetchRecord>,
    ss1: Seq<FetchRecord>,
    ss2: Seq<FetchRecord>,
    cs2: Seq<Config>,
    c: Config,
    h: u64,
    now: i64,
    rec: FetchRecord,
)
    requires
        wf_state(cs, ss),
        spec_synced_state(cs, ss),
        valid_ts(now),
        c.hash == h,
        spec_find_config(cs, h) == Option::Some(c),
        spec_is_due(c, now),
        rec.config == h,
        rec.fetched_at == now,
        cs2 == spec_touch(cs, h, now),
        ss1 == match spec_downtime_marker(c, now) {
            Option::Some(m) => spec_record_fetch_samples(ss, m),
            Option::None => ss,
        },
        ss2 == spec_record_fetch_samples(ss1, rec),
    ensures
        spec_synced_state(cs2, ss2),
{
    lemma_config_idx(cs, h);
    let i = crate::db::spec_config_idx(cs, h);
    assert(forall|k: int| 0 <= k < cs.len() ==> (#[trigger] cs[k]).hash == cs2[k].hash);
    assert forall|h2: u64| #[trigger]
        spec_for_config(ss2, h2).len() > 0 implies match spec_find_config(cs2, h2) {
        Option::Some(c2) => match c2.last_fetched {
            Option::Some(lf) => spec_for_config(ss2, h2).last().fetched_at <= lf,
            Option::None => false,
        },
        Option::None => true,
    } by {
        lemma_config_idx_same_hashes(cs, cs2, h2);
        lemma_config_idx(cs, h2);
        let j = crate::db::spec_config_idx(cs, h2);
        if ss1 != ss {
            match spec_downtime_marker(c, now) {
                Option::Some(m) => {
                    lemma_for_config_push(ss, m, h2);
                },
                Option::None => {},
            }
        }
        if ss2 != ss1 {
            lemma_for_config_push(ss1, rec, h2);
        }
        if h2 != h {
            assert(spec_for_config(ss2, h2) == spec_for_config(ss, h2));
            if j >= 0 {
                assert(cs2[j] == cs[j]);
            }
        } else {
            assert(j == i);
            assert(cs2[i].last_fetched == Option::Some(now));
            let pr1 = spec_for_config(ss1, h);
            if ss2 == ss1.push(rec) {
                assert(spec_for_config(ss2, h).last() == rec);
            } else {
                assert(ss2 == ss1);
                assert(pr1.len() > 0 && crate::fetch_result::spec_dedup_eq(pr1.last(), rec));
                lemma_last_le_now(cs, ss, ss1, c, h, now);
            }
        }
    }
}

/// Whatever downtime handling did, the config's latest stored instant is
/// at most `now` once the config is due at `now`.
proof fn lemma_last_le_now(
    cs: Seq<Config>,
    ss: Seq<FetchRecord>,
    ss1: Seq<FetchRecord>,
    c: Config,
    h: u64,
    now: i64,
)
    requires
        wf_state(cs, ss),
        spec_synced_state(cs, ss),
        valid_ts(now),
        c.hash == h,
        spec_find_config(cs, h) == Option::Some(c),
        spec_is_due(c, now),
        ss1 == match spec_downtime_marker(c, now) {
            Option::Some(m) => spec_record_fetch_samples(ss, m),
            Option::None => ss,
        },
        spec_for_config(ss1, h).len() > 0,
    ensures
        spec_for_config(ss1, h).last().fetched_at <= now,
{
    proof_wf_of_found(cs, ss, c, h);
    let pr = spec_for_config(ss, h);
    if pr.len() > 0 {
        match c.last_fetched {
            Option::Some(lf) => {
                assert(pr.last().fetched_at <= lf);
                assert(lf <= now);
            },
            Option::None => {
                assert(false);
            },
        }
    }
    match spec_downtime_marker(c, now) {
        Option::Some(m) => {
            lemma_for_config_push(ss, m, h);
            if pr.len() > 0 && crate::fetch_result::spec_dedup_eq(pr.last(), m) {
                assert(ss1 == ss);
            } else {
                assert(spec_for_config(ss1, h).last() == m);
                assert(m.fetched_at <= now);
            }
        },
        Option::None => {
            assert(ss1 == ss);
        },
    }
}

} // verus!
