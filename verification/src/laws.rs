//! The laws the engine obeys, stated over the same spec functions its
//! contracts use: the writer's deduplication is idempotent, identities are
//! stable, reconstruction inverts the compression, `last_fetched` never
//! decreases, and an inactive config is never moved.

use vstd::prelude::*;

use crate::config::{spec_config_of_input, valid_ts, wf_config, Config, ConfigInput};
use crate::db::{
    lemma_config_idx, lemma_config_idx_same_hashes, lemma_for_config_elems, lemma_for_config_push,
    spec_activate, spec_config_idx, spec_downtime_marker, spec_find_config, spec_for_config,
    spec_has_config, spec_record_fetch_samples, spec_the_config, spec_touch, Store,
};
use crate::fetch_result::{spec_dedup_eq, spec_persisted, FetchRecord};
use crate::query::{spec_carry, spec_fill_all, spec_fill_between, spec_reconstruct};
use crate::scheduler::{spec_is_due, spec_tick, FetchOutcome};

verus! {

/// Writing the same observed state twice in a row stores it once: a second
/// write equal to the first under the deduplication equality leaves the
/// log exactly as the first write left it.
pub proof fn lemma_dedup_idempotent(ss: Seq<FetchRecord>, r1: FetchRecord, r2: FetchRecord)
    requires
        spec_dedup_eq(r1, r2),
    ensures
        spec_record_fetch_samples(spec_record_fetch_samples(ss, r1), r2)
            == spec_record_fetch_samples(ss, r1),
{
    let ss1 = spec_record_fetch_samples(ss, r1);
    let prior = spec_for_config(ss, r1.config);
    if prior.len() > 0 && spec_dedup_eq(prior.last(), r1) {
        assert(ss1 == ss);
        assert(spec_dedup_eq(prior.last(), r2));
    } else {
        assert(ss1 == ss.push(r1));
        lemma_for_config_push(ss, r1, r2.config);
        assert(spec_for_config(ss1, r2.config).last() == r1);
    }
}

/// Identity is a pure function of the three immutable fields: two inputs
/// whose fields agree collide to the same identity, in every process.
pub proof fn lemma_identity_stable(a: ConfigInput, b: ConfigInput)
    requires
        a.source_url@ == b.source_url@,
        a.fetch_interval_s == b.fetch_interval_s,
        a.try_parse_json == b.try_parse_json,
    ensures
        spec_config_of_input(a).hash == spec_config_of_input(b).hash,
{
}

/// Re-activating a known identity preserves its history: the config keeps
/// every field but `active`, every other config is untouched, and
/// activation never writes to the sample log at all.
pub proof fn lemma_activate_preserves_history(cs: Seq<Config>, c: Config)
    requires
        spec_has_config(cs, c.hash),
    ensures
        spec_the_config(spec_activate(cs, c), c.hash) == (Config {
            active: true,
            ..spec_the_config(cs, c.hash)
        }),
        forall|h2: u64|
            h2 != c.hash ==> #[trigger] spec_find_config(spec_activate(cs, c), h2)
                == spec_find_config(cs, h2),
{
    let i = spec_config_idx(cs, c.hash);
    lemma_config_idx(cs, c.hash);
    let cs2 = spec_activate(cs, c);
    assert(forall|k: int| 0 <= k < cs.len() ==> (#[trigger] cs[k]).hash == cs2[k].hash);
    assert forall|h2: u64|
        h2 != c.hash implies #[trigger] spec_find_config(cs2, h2) == spec_find_config(
        cs,
        h2,
    ) by {
        lemma_config_idx_same_hashes(cs, cs2, h2);
        lemma_config_idx(cs, h2);
        let j = spec_config_idx(cs, h2);
        if j >= 0 {
            assert(cs[j].hash == h2);
            assert(j != i);
            assert(cs2[j] == cs[j]);
        }
    }
    lemma_config_idx_same_hashes(cs, cs2, c.hash);
}

/// The write-side deduplication rule, replayed over a whole sequence: each
/// record is written in order — and a written record is a persisted
/// record — keeping only the transitions.
pub open spec fn spec_rle(rs: Seq<FetchRecord>) -> Seq<FetchRecord>
    decreases rs.len(),
{
    if rs.len() == 0 {
        Seq::empty()
    } else {
        let rest = spec_rle(rs.drop_last());
        let w = spec_persisted(rs.last());
        if rest.len() > 0 && spec_dedup_eq(rest.last(), w) {
            rest
        } else {
            rest.push(w)
        }
    }
}

/// Every sequence the deduplicating replay absorbs: records whose
/// persisted form equals the last kept record change nothing.
proof fn lemma_rle_absorbs(x: Seq<FetchRecord>, f: Seq<FetchRecord>)
    requires
        spec_rle(x).len() > 0,
        forall|k: int|
            0 <= k < f.len() ==> spec_dedup_eq(
                spec_persisted(#[trigger] f[k]),
                spec_rle(x).last(),
            ),
    ensures
        spec_rle(x + f) == spec_rle(x),
    decreases f.len(),
{
    if f.len() == 0 {
        assert(x + f =~= x);
    } else {
        assert((x + f).drop_last() =~= x + f.drop_last());
        assert((x + f).last() == f.last());
        lemma_rle_absorbs(x, f.drop_last());
    }
}

/// A record distinct from the last kept one is appended by the replay.
proof fn lemma_rle_push_distinct(x: Seq<FetchRecord>, z: FetchRecord)
    requires
        spec_rle(x).len() == 0 || !spec_dedup_eq(spec_rle(x).last(), spec_persisted(z)),
    ensures
        spec_rle(x.push(z)) == spec_rle(x).push(spec_persisted(z)),
{
    assert(x.push(z).drop_last() =~= x);
}

/// Every record the gap filler synthesizes carries the payload of the
/// record it fills from: persisted, they are equal under deduplication.
proof fn lemma_fill_between_payload(prev: FetchRecord, curr_at: i64, interval: i64, now: i64)
    requires
        interval >= 1,
    ensures
        forall|k: int|
            0 <= k < spec_fill_between(prev, curr_at, interval, now).len() ==> spec_dedup_eq(
                spec_persisted(#[trigger] spec_fill_between(prev, curr_at, interval, now)[k]),
                spec_persisted(prev),
            ),
    decreases curr_at - prev.fetched_at,
{
    if curr_at - prev.fetched_at > interval + 1 {
        let s = spec_carry(prev, (prev.fetched_at + interval) as i64, now);
        lemma_fill_between_payload(s, curr_at, interval, now);
        let whole = spec_fill_between(prev, curr_at, interval, now);
        assert forall|k: int|
            0 <= k < whole.len() implies spec_dedup_eq(
            spec_persisted(#[trigger] whole[k]),
            spec_persisted(prev),
        ) by {
            if k == 0 {
                assert(whole[0] == s);
            } else {
                assert(whole[k] == spec_fill_between(s, curr_at, interval, now)[k - 1]);
                assert(spec_dedup_eq(spec_persisted(whole[k]), spec_persisted(s)));
            }
        }
    }
}

/// Each record persisted in place: what replaying a stored log writes.
pub open spec fn spec_persist_all(rs: Seq<FetchRecord>) -> Seq<FetchRecord> {
    Seq::new(rs.len(), |i: int| spec_persisted(rs[i]))
}

/// Replaying a gap-filled transition log through the deduplicating writer
/// keeps exactly the original records, persisted.
proof fn lemma_fill_all_rle(rs: Seq<FetchRecord>, interval: i64, now: i64)
    requires
        interval >= 1,
        rs.len() >= 1,
        forall|i: int|
            0 <= i < rs.len() - 1 ==> !spec_dedup_eq(
                spec_persisted(#[trigger] rs[i]),
                spec_persisted(rs[i + 1]),
            ),
    ensures
        spec_rle(spec_fill_all(rs, interval, now)) == spec_persist_all(rs),
    decreases rs.len(),
{
    if rs.len() == 1 {
        assert(spec_fill_all(rs, interval, now) == rs);
        assert(rs.drop_last() =~= Seq::<FetchRecord>::empty());
        assert(spec_rle(Seq::<FetchRecord>::empty()) =~= Seq::<FetchRecord>::empty());
        assert(spec_rle(rs) =~= spec_persist_all(rs));
    } else {
        let hd = rs.drop_last();
        assert(forall|i: int|
            0 <= i < hd.len() - 1 ==> !spec_dedup_eq(
                spec_persisted(#[trigger] hd[i]),
                spec_persisted(hd[i + 1]),
            ));
        lemma_fill_all_rle(hd, interval, now);
        let x = spec_fill_all(hd, interval, now);
        let prev = rs[rs.len() - 2];
        let f = spec_fill_between(prev, rs.last().fetched_at, interval, now);
        assert(spec_persist_all(hd).len() == hd.len() >= 1);
        assert(spec_persist_all(hd).last() == spec_persisted(prev));
        lemma_fill_between_payload(prev, rs.last().fetched_at, interval, now);
        lemma_rle_absorbs(x, f);
        assert(spec_rle(x + f) == spec_persist_all(hd));
        assert(!spec_dedup_eq(spec_persisted(prev), spec_persisted(rs.last())));
        lemma_rle_push_distinct(x + f, rs.last());
        assert(spec_fill_all(rs, interval, now) =~= (x + f).push(rs.last()));
        assert(spec_rle(spec_fill_all(rs, interval, now)) =~= spec_persist_all(hd).push(
            spec_persisted(rs.last()),
        ));
        assert(spec_persist_all(hd).push(spec_persisted(rs.last())) =~= spec_persist_all(rs));
    }
}

/// Reconstruction inverts the compression: decompressing a stored
/// transition log and re-applying the write-side deduplication rule to
/// what comes out — writing a record persists it — yields back exactly
/// the original stored log, whatever the interval and wherever
/// `last_fetched` lies.
pub proof fn lemma_reconstruct_inverts_dedup(c: Config, rs: Seq<FetchRecord>, now: i64)
    requires
        wf_config(c),
        forall|i: int| 0 <= i < rs.len() ==> (#[trigger] rs[i]).from_db == true,
        forall|i: int|
            0 <= i < rs.len() - 1 ==> !spec_dedup_eq(#[trigger] rs[i], rs[i + 1]),
    ensures
        spec_rle(spec_reconstruct(c, rs, true, now)) == rs,
{
    let interval = c.fetch_interval_s;
    assert forall|i: int| 0 <= i < rs.len() implies spec_persisted(#[trigger] rs[i]) == rs[i] by {
        assert(rs[i].from_db == true);
    }
    assert(spec_persist_all(rs) =~= rs);
    if rs.len() == 0 {
        assert(spec_reconstruct(c, rs, true, now) =~= Seq::<FetchRecord>::empty());
        assert(spec_rle(Seq::<FetchRecord>::empty()) =~= Seq::<FetchRecord>::empty());
    } else {
        assert forall|i: int|
            0 <= i < rs.len() - 1 implies !spec_dedup_eq(
            spec_persisted(#[trigger] rs[i]),
            spec_persisted(rs[i + 1]),
        ) by {
            assert(spec_persisted(rs[i]) == rs[i] && spec_persisted(rs[i + 1]) == rs[i + 1]);
        }
        let ext = crate::query::spec_extend(c, rs, now);
        if ext == rs {
            lemma_fill_all_rle(rs, interval, now);
        } else {
            let e = spec_carry(rs.last(), match c.last_fetched {
                Option::Some(lf) => lf,
                Option::None => now,
            }, now);
            assert(ext == rs.push(e));
            lemma_fill_all_rle(rs, interval, now);
            let x = spec_fill_all(rs, interval, now);
            assert(spec_rle(x) == rs);
            let f = spec_fill_between(rs.last(), e.fetched_at, interval, now);
            lemma_fill_between_payload(rs.last(), e.fetched_at, interval, now);
            assert(spec_dedup_eq(spec_persisted(e), spec_persisted(rs.last())));
            assert forall|k: int|
                0 <= k < (f + seq![e]).len() implies spec_dedup_eq(
                spec_persisted(#[trigger] (f + seq![e])[k]),
                spec_rle(x).last(),
            ) by {
                assert(spec_rle(x).last() == rs.last());
                if k < f.len() {
                    assert((f + seq![e])[k] == f[k]);
                } else {
                    assert((f + seq![e])[k] == e);
                }
            }
            lemma_rle_absorbs(x, f + seq![e]);
            assert(spec_fill_all(ext, interval, now) =~= x + (f + seq![e])) by {
                assert(ext.drop_last() =~= rs);
                assert(ext.last() == e);
                assert(ext[ext.len() - 2] == rs.last());
                assert(spec_fill_all(ext, interval, now) == spec_fill_all(rs, interval, now)
                    + spec_fill_between(rs.last(), e.fetched_at, interval, now) + seq![e]);
            }
        }
    }
}

/// The deduplicated per-config log of a well-formed store round-trips:
/// what a decompressing query yields, written back through the
/// deduplicating writer, is exactly what the store holds for that config.
pub proof fn lemma_store_round_trip(s: Store, h: u64, now: i64)
    requires
        crate::db::wf_store(s),
        spec_has_config(s.configs@, h),
    ensures
        spec_rle(
            spec_reconstruct(
                spec_the_config(s.configs@, h),
                spec_for_config(s.samples@, h),
                true,
                now,
            ),
        ) == spec_for_config(s.samples@, h),
{
    let c = spec_the_config(s.configs@, h);
    lemma_config_idx(s.configs@, h);
    assert(wf_config(c));
    let rs = spec_for_config(s.samples@, h);
    lemma_for_config_elems(s.samples@, h);
    assert forall|i: int| 0 <= i < rs.len() implies (#[trigger] rs[i]).from_db == true by {
        let j = choose|j: int| 0 <= j < s.samples@.len() && s.samples@[j] == rs[i];
        assert(s.samples@[j].from_db == true);
    }
    lemma_reconstruct_inverts_dedup(c, rs, now);
}

/// Every record the gap filler synthesizes lies strictly between the two
/// boundaries, and they come out in strictly ascending order.
proof fn lemma_fill_between_bounds(prev: FetchRecord, curr_at: i64, interval: i64, now: i64)
    requires
        interval >= 1,
    ensures
        forall|k: int|
            0 <= k < spec_fill_between(prev, curr_at, interval, now).len()
                ==> prev.fetched_at < (#[trigger] spec_fill_between(
                prev,
                curr_at,
                interval,
                now,
            )[k]).fetched_at < curr_at,
        forall|i: int, j: int|
            0 <= i < j < spec_fill_between(prev, curr_at, interval, now).len()
                ==> spec_fill_between(prev, curr_at, interval, now)[i].fetched_at
                < spec_fill_between(prev, curr_at, interval, now)[j].fetched_at,
    decreases curr_at - prev.fetched_at,
{
    if curr_at - prev.fetched_at > interval + 1 {
        let s = spec_carry(prev, (prev.fetched_at + interval) as i64, now);
        lemma_fill_between_bounds(s, curr_at, interval, now);
        let whole = spec_fill_between(prev, curr_at, interval, now);
        let tail = spec_fill_between(s, curr_at, interval, now);
        assert(whole[0] == s);
        assert(forall|k: int| 1 <= k < whole.len() ==> whole[k] == tail[k - 1]);
        assert forall|i: int, j: int|
            0 <= i < j < whole.len() implies whole[i].fetched_at < whole[j].fetched_at by {
            if i == 0 {
                assert(whole[j] == tail[j - 1]);
                assert(s.fetched_at < tail[j - 1].fetched_at);
            }
        }
    }
}

/// A gap-filled strictly ascending sequence stays strictly ascending, and
/// never reaches past its last stored instant: nothing is synthesized
/// after the final point.
proof fn lemma_fill_all_ascending(rs: Seq<FetchRecord>, interval: i64, now: i64)
    requires
        interval >= 1,
        forall|i: int, j: int|
            0 <= i < j < rs.len() ==> (#[trigger] rs[i]).fetched_at
                < (#[trigger] rs[j]).fetched_at,
    ensures
        forall|i: int, j: int|
            0 <= i < j < spec_fill_all(rs, interval, now).len() ==> spec_fill_all(
                rs,
                interval,
                now,
            )[i].fetched_at < spec_fill_all(rs, interval, now)[j].fetched_at,
        rs.len() > 0 ==> spec_fill_all(rs, interval, now).len() > 0 && spec_fill_all(
            rs,
            interval,
            now,
        ).last() == rs.last() && forall|k: int|
            0 <= k < spec_fill_all(rs, interval, now).len()
                ==> (#[trigger] spec_fill_all(rs, interval, now)[k]).fetched_at
                <= rs.last().fetched_at,
    decreases rs.len(),
{
    if rs.len() > 1 {
        let hd = rs.drop_last();
        lemma_fill_all_ascending(hd, interval, now);
        let x = spec_fill_all(hd, interval, now);
        let prev = rs[rs.len() - 2];
        let f = spec_fill_between(prev, rs.last().fetched_at, interval, now);
        lemma_fill_between_bounds(prev, rs.last().fetched_at, interval, now);
        let whole = spec_fill_all(rs, interval, now);
        assert(whole == x + f + seq![rs.last()]);
        assert(hd.last() == prev);
        assert(prev.fetched_at < rs.last().fetched_at);
        assert forall|i: int, j: int|
            0 <= i < j < whole.len() implies whole[i].fetched_at < whole[j].fetched_at by {
            if j == whole.len() - 1 {
                assert(whole[j] == rs.last());
                if i < x.len() {
                    assert(whole[i] == x[i]);
                    assert(x[i].fetched_at <= prev.fetched_at);
                } else {
                    assert(whole[i] == f[i - x.len()]);
                }
            } else if j >= x.len() {
                assert(whole[j] == f[j - x.len()]);
                if i < x.len() {
                    assert(whole[i] == x[i]);
                    assert(x[i].fetched_at <= prev.fetched_at);
                } else {
                    assert(whole[i] == f[i - x.len()]);
                }
            } else {
                assert(whole[i] == x[i] && whole[j] == x[j]);
            }
        }
    }
}

/// The reconstructed series is strictly ascending by the sampled instant:
/// real records interleaved with synthesized ones in time order, and
/// nothing synthesized after the extend-to-present point. The one demand
/// on `last_fetched` is the one a settled store meets: when it calls for
/// an extension, it lies after the last stored instant.
pub proof fn lemma_reconstruct_strictly_ascending(c: Config, rs: Seq<FetchRecord>, now: i64)
    requires
        wf_config(c),
        forall|i: int, j: int|
            0 <= i < j < rs.len() ==> (#[trigger] rs[i]).fetched_at
                < (#[trigger] rs[j]).fetched_at,
        (match c.last_fetched {
            Option::Some(lf) => rs.len() > 0 && lf != rs.last().created_at ==> lf
                > rs.last().fetched_at,
            Option::None => true,
        }),
    ensures
        forall|i: int, j: int|
            0 <= i < j < spec_reconstruct(c, rs, true, now).len() ==> spec_reconstruct(
                c,
                rs,
                true,
                now,
            )[i].fetched_at < spec_reconstruct(c, rs, true, now)[j].fetched_at,
{
    let ext = crate::query::spec_extend(c, rs, now);
    assert forall|i: int, j: int|
        0 <= i < j < ext.len() implies (#[trigger] ext[i]).fetched_at
        < (#[trigger] ext[j]).fetched_at by {
        if ext != rs {
            assert(ext == rs.push(spec_carry(rs.last(), match c.last_fetched {
                Option::Some(lf) => lf,
                Option::None => now,
            }, now)));
            if j == ext.len() - 1 {
                if i < rs.len() - 1 {
                    assert(ext[i] == rs[i]);
                    assert(rs[i].fetched_at < rs.last().fetched_at);
                } else {
                    assert(ext[i] == rs.last());
                }
            } else {
                assert(ext[i] == rs[i] && ext[j] == rs[j]);
            }
        }
    }
    lemma_fill_all_ascending(ext, c.fetch_interval_s, now);
}

/// One scheduled event: which config the tick drove, at what instant, and
/// what the transport answered.
pub struct TickEvent {
    pub config_hash: u64,
    pub now: i64,
    pub outcome: FetchOutcome,
}

/// A whole run: the state after driving every event in order.
pub open spec fn spec_run_ticks(
    cs: Seq<Config>,
    ss: Seq<FetchRecord>,
    evs: Seq<TickEvent>,
) -> (Seq<Config>, Seq<FetchRecord>)
    decreases evs.len(),
{
    if evs.len() == 0 {
        (cs, ss)
    } else {
        let mid = spec_run_ticks(cs, ss, evs.drop_last());
        let e = evs.last();
        spec_tick(mid.0, mid.1, e.config_hash, e.now, e.outcome)
    }
}

/// Every config is well formed.
pub open spec fn wf_configs(cs: Seq<Config>) -> bool {
    forall|i: int| 0 <= i < cs.len() ==> wf_config(#[trigger] cs[i])
}

/// `last_fetched` never moves backwards and never becomes unknown again.
pub open spec fn spec_lf_advances(before: Option<Config>, after: Option<Config>) -> bool {
    match before {
        Option::Some(cb) => match after {
            Option::Some(ca) => match cb.last_fetched {
                Option::Some(x) => match ca.last_fetched {
                    Option::Some(y) => x <= y,
                    Option::None => false,
                },
                Option::None => true,
            },
            Option::None => false,
        },
        Option::None => true,
    }
}

/// One tick never moves any config's `last_fetched` backwards, keeps every
/// config well formed, and never flips anyone's `active` flag.
pub proof fn lemma_tick_lf_monotone(
    cs: Seq<Config>,
    ss: Seq<FetchRecord>,
    h: u64,
    now: i64,
    outcome: FetchOutcome,
    h2: u64,
)
    requires
        wf_configs(cs),
        valid_ts(now),
    ensures
        spec_lf_advances(
            spec_find_config(cs, h2),
            spec_find_config(spec_tick(cs, ss, h, now, outcome).0, h2),
        ),
        wf_configs(spec_tick(cs, ss, h, now, outcome).0),
        spec_find_config(spec_tick(cs, ss, h, now, outcome).0, h2) matches Option::Some(ca)
            ==> (spec_find_config(cs, h2) matches Option::Some(cb) && ca.active == cb.active
            && ca.hash == cb.hash),
{
    let cs2 = spec_tick(cs, ss, h, now, outcome).0;
    match spec_find_config(cs, h) {
        Option::None => {
            assert(cs2 == cs);
            lemma_lf_reflexive(cs, h2);
        },
        Option::Some(c) => {
            if !c.active || !spec_is_due(c, now) {
                assert(cs2 == cs);
                lemma_lf_reflexive(cs, h2);
            } else {
                lemma_config_idx(cs, h);
                let i = spec_config_idx(cs, h);
                assert(cs2 == spec_touch(cs, h, now));
                assert(cs2 == cs.update(i, Config { last_fetched: Option::Some(now), ..cs[i] }));
                assert(forall|k: int| 0 <= k < cs.len() ==> (#[trigger] cs[k]).hash == cs2[k].hash);
                lemma_config_idx_same_hashes(cs, cs2, h2);
                lemma_config_idx(cs, h2);
                let j = spec_config_idx(cs, h2);
                assert forall|k: int| 0 <= k < cs2.len() implies wf_config(#[trigger] cs2[k]) by {
                    assert(wf_config(cs[k]));
                }
                if j >= 0 {
                    if j == i {
                        assert(wf_config(c));
                        assert(c == cs[i]);
                        match c.last_fetched {
                            Option::Some(x) => {
                                assert(now - x >= c.fetch_interval_s >= 1);
                            },
                            Option::None => {},
                        }
                    } else {
                        assert(cs2[j] == cs[j]);
                    }
                }
            }
        },
    }
}

/// A state compared with itself advances nowhere.
proof fn lemma_lf_reflexive(cs: Seq<Config>, h2: u64)
    ensures
        spec_lf_advances(spec_find_config(cs, h2), spec_find_config(cs, h2)),
{
}

/// Across any sequence of ticks, no config's `last_fetched` ever
/// decreases — through transport failures and deduplicated writes alike,
/// since the tick marks every poll attempt it makes.
pub proof fn lemma_ticks_lf_monotone(
    cs: Seq<Config>,
    ss: Seq<FetchRecord>,
    evs: Seq<TickEvent>,
    h2: u64,
)
    requires
        wf_configs(cs),
        forall|k: int| 0 <= k < evs.len() ==> valid_ts((#[trigger] evs[k]).now),
    ensures
        wf_configs(spec_run_ticks(cs, ss, evs).0),
        spec_lf_advances(spec_find_config(cs, h2), spec_find_config(spec_run_ticks(cs, ss, evs).0, h2)),
    decreases evs.len(),
{
    if evs.len() == 0 {
        lemma_lf_reflexive(cs, h2);
    } else {
        lemma_ticks_lf_monotone(cs, ss, evs.drop_last(), h2);
        let mid = spec_run_ticks(cs, ss, evs.drop_last());
        let e = evs.last();
        assert(valid_ts(e.now));
        lemma_tick_lf_monotone(mid.0, mid.1, e.config_hash, e.now, e.outcome, h2);
    }
}

/// One tick aimed elsewhere, or at an inactive config, leaves that
/// config's row and its recorded history exactly as they were.
pub proof fn lemma_tick_inactive_noop(
    cs: Seq<Config>,
    ss: Seq<FetchRecord>,
    h: u64,
    now: i64,
    outcome: FetchOutcome,
    c: Config,
)
    requires
        spec_find_config(cs, c.hash) == Option::Some(c),
        !c.active,
    ensures
        spec_find_config(spec_tick(cs, ss, h, now, outcome).0, c.hash) == Option::Some(c),
        spec_for_config(spec_tick(cs, ss, h, now, outcome).1, c.hash) == spec_for_config(
            ss,
            c.hash,
        ),
{
    let (cs2, ss2) = spec_tick(cs, ss, h, now, outcome);
    lemma_config_idx(cs, c.hash);
    if h == c.hash {
        assert(cs2 == cs && ss2 == ss);
    } else {
        match spec_find_config(cs, h) {
            Option::None => {
                assert(cs2 == cs && ss2 == ss);
            },
            Option::Some(ch) => {
                lemma_config_idx(cs, h);
                assert(ch.hash == h);
                if !ch.active {
                    assert(cs2 == cs && ss2 == ss);
                } else {
                    let ss1 = match spec_downtime_marker(ch, now) {
                        Option::Some(m) => spec_record_fetch_samples(ss, m),
                        Option::None => ss,
                    };
                    match spec_downtime_marker(ch, now) {
                        Option::Some(m) => {
                            assert(m.config == h);
                            if spec_record_fetch_samples(ss, m) == ss.push(m) {
                                lemma_for_config_push(ss, m, c.hash);
                            }
                            assert(spec_for_config(ss1, c.hash) == spec_for_config(ss, c.hash));
                        },
                        Option::None => {},
                    }
                    if spec_is_due(ch, now) {
                        let rec = crate::scheduler::spec_build_record(ch, outcome, now);
                        assert(rec.config == h);
                        if spec_record_fetch_samples(ss1, rec) == ss1.push(rec) {
                            lemma_for_config_push(ss1, rec, c.hash);
                        }
                        assert(spec_for_config(ss2, c.hash) == spec_for_config(ss, c.hash));
                        assert(cs2 == spec_touch(cs, h, now));
                        let i = spec_config_idx(cs, h);
                        assert(forall|k: int|
                            0 <= k < cs.len() ==> (#[trigger] cs[k]).hash == cs2[k].hash);
                        lemma_config_idx_same_hashes(cs, cs2, c.hash);
                        let j = spec_config_idx(cs, c.hash);
                        assert(cs[j].hash == c.hash);
                        assert(j != i);
                        assert(cs2[j] == cs[j]);
                    } else {
                        assert(cs2 == cs);
                    }
                }
            },
        }
    }
}

/// Across any sequence of ticks, an inactive config is never fetched: its
/// row — `last_fetched` included — and its recorded history never change,
/// regardless of how many ticks run or whom they target.
pub proof fn lemma_ticks_inactive_noop(
    cs: Seq<Config>,
    ss: Seq<FetchRecord>,
    evs: Seq<TickEvent>,
    c: Config,
)
    requires
        spec_find_config(cs, c.hash) == Option::Some(c),
        !c.active,
    ensures
        spec_find_config(spec_run_ticks(cs, ss, evs).0, c.hash) == Option::Some(c),
        spec_for_config(spec_run_ticks(cs, ss, evs).1, c.hash) == spec_for_config(ss, c.hash),
    decreases evs.len(),
{
    if evs.len() > 0 {
        lemma_ticks_inactive_noop(cs, ss, evs.drop_last(), c);
        let mid = spec_run_ticks(cs, ss, evs.drop_last());
        let e = evs.last();
        lemma_tick_inactive_noop(mid.0, mid.1, e.config_hash, e.now, e.outcome, c);
    }
}

} // verus!
