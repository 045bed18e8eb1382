//! The series reconstructor: inverts the run-length compression of the
//! store for a query window, reproducing at each config's cadence the
//! unchanged-state records that the deduplicating writer suppressed.

use vstd::prelude::*;

use crate::config::{valid_ts, wf_config, Config};
use crate::db::{lemma_for_config_elems, spec_for_config, wf_store, Store};
use crate::fetch_result::{wf_record, FetchRecord};

verus! {

/// What a caller asks of the store: raw transitions or the reconstructed
/// dense series, for every config or a single one.
pub struct Query {
    /// Fill gaps between stored records with the preceding state; a gap the
    /// collector itself slept through shows as `Unknown`, not as the
    /// previous record.
    pub decompress: bool,
    /// Restrict the answer to one config's identity.
    pub filter_config: Option<u64>,
}

/// An ephemeral record carrying `prev`'s observed state at a new instant:
/// the payload fields stay, the instant moves, and the record is marked as
/// synthesized, never to be persisted.
pub open spec fn spec_carry(prev: FetchRecord, at: i64, now: i64) -> FetchRecord {
    FetchRecord {
        config: prev.config,
        fetched_at: at,
        created_at: now,
        source_url: prev.source_url,
        status: prev.status,
        body_text: prev.body_text,
        valid_json: prev.valid_json,
        from_db: false,
    }
}

/// Builds the ephemeral record carrying `prev`'s state at `at`.
fn carry(prev: &FetchRecord, at: i64, now: i64) -> (r: FetchRecord)
    ensures
        r == spec_carry(*prev, at, now),
{
    FetchRecord {
        config: prev.config,
        fetched_at: at,
        created_at: now,
        source_url: prev.source_url.clone(),
        status: prev.status,
        body_text: match &prev.body_text {
            Option::Some(t) => Option::Some(t.clone()),
            Option::None => Option::None,
        },
        valid_json: prev.valid_json,
        from_db: false,
    }
}

/// Extension to the present: when the last poll attempt is known and lies
/// after the last stored record's creation, one ephemeral record carries
/// the last state forward to `last_fetched` — the state was confirmed
/// unchanged up to the most recent attempt.
pub open spec fn spec_extend(c: Config, rs: Seq<FetchRecord>, now: i64) -> Seq<FetchRecord> {
    match c.last_fetched {
        Option::Some(lf) => if rs.len() > 0 && lf != rs.last().created_at {
            rs.push(spec_carry(rs.last(), lf, now))
        } else {
            rs
        },
        Option::None => rs,
    }
}

/// The records synthesized between a point and the next stored instant:
/// one per interval, anchored to the later boundary's grid, while the
/// remaining gap exceeds the interval plus one second of jitter tolerance.
pub open spec fn spec_fill_between(
    prev: FetchRecord,
    curr_at: i64,
    interval: i64,
    now: i64,
) -> Seq<FetchRecord>
    decreases curr_at - prev.fetched_at
        when interval >= 1
{
    if curr_at - prev.fetched_at > interval + 1 {
        let s = spec_carry(prev, (prev.fetched_at + interval) as i64, now);
        seq![s] + spec_fill_between(s, curr_at, interval, now)
    } else {
        Seq::empty()
    }
}

/// A whole sequence with every internal gap filled: each stored record is
/// preceded by the records synthesized from its predecessor.
pub open spec fn spec_fill_all(rs: Seq<FetchRecord>, interval: i64, now: i64) -> Seq<FetchRecord>
    decreases rs.len(),
{
    if rs.len() <= 1 {
        rs
    } else {
        spec_fill_all(rs.drop_last(), interval, now) + spec_fill_between(
            rs[rs.len() - 2],
            rs.last().fetched_at,
            interval,
            now,
        ) + seq![rs.last()]
    }
}

/// What a query answer holds for one config: the raw transition log, or
/// the log extended to the present with every internal gap filled.
pub open spec fn spec_reconstruct(
    c: Config,
    rs: Seq<FetchRecord>,
    decompress: bool,
    now: i64,
) -> Seq<FetchRecord> {
    if !decompress {
        rs
    } else {
        spec_fill_all(spec_extend(c, rs, now), c.fetch_interval_s, now)
    }
}

/// Same payload, wherever the instants lie: carrying both to one instant
/// gives the same record.
pub open spec fn spec_same_payload(a: FetchRecord, b: FetchRecord) -> bool {
    spec_carry(a, 0, 0) == spec_carry(b, 0, 0)
}

/// Expands one config's stored records into the answer for a query window:
/// unchanged when `decompress` is off; otherwise extended to the present
/// and gap-filled at the config's cadence. Read-only: the store is not
/// touched, and every synthesized record says so.
pub fn reconstruct(config: &Config, records: Vec<FetchRecord>, decompress: bool, now: i64) -> (r:
    Vec<FetchRecord>)
    requires
        wf_config(*config),
        valid_ts(now),
        forall|i: int| 0 <= i < records@.len() ==> wf_record(#[trigger] records@[i]),
    ensures
        r@ == spec_reconstruct(*config, records@, decompress, now),
{
    if !decompress {
        return records;
    }
    let ghost orig = records@;
    let mut rs = records;
    if rs.len() > 0 {
        match config.last_fetched {
            Option::Some(lf) => {
                if lf != rs[rs.len() - 1].created_at {
                    let ext = carry(&rs[rs.len() - 1], lf, now);
                    proof {
                        assert(orig.last() == rs@[rs@.len() - 1]);
                    }
                    rs.push(ext);
                }
            },
            Option::None => {},
        }
    }
    proof {
        assert(rs@ == spec_extend(*config, orig, now));
    }
    let ghost ers = rs@;
    proof {
        assert forall|i: int| 0 <= i < ers.len() implies wf_record(#[trigger] ers[i]) by {
            if i < orig.len() {
                assert(ers[i] == orig[i]);
            }
        }
    }
    let interval = config.fetch_interval_s;
    let n = rs.len();
    if n == 0 {
        return rs;
    }
    let mut out: Vec<FetchRecord> = Vec::new();
    out.push(rs[0].clone());
    proof {
        assert(ers.take(1) =~= seq![ers[0]]);
        assert(out@ =~= spec_fill_all(ers.take(1), interval, now));
    }
    let mut i: usize = 1;
    while i < n
        invariant
            1 <= i <= n,
            n == ers.len(),
            rs@ == ers,
            interval == config.fetch_interval_s,
            wf_config(*config),
            valid_ts(now),
            forall|k: int| 0 <= k < ers.len() ==> wf_record(#[trigger] ers[k]),
            out@ == spec_fill_all(ers.take(i as int), interval, now),
        decreases n - i,
    {
        let curr_at = rs[i].fetched_at;
        let prev_at = rs[i - 1].fetched_at;
        let ghost base = out@;
        let mut diff = curr_at - prev_at;
        let ghost mut prev_g = ers[i - 1];
        while diff > interval + 1
            invariant
                1 <= interval < i64::MAX,
                valid_ts(now),
                1 <= i < n,
                n == ers.len(),
                rs@ == ers,
                forall|k: int| 0 <= k < ers.len() ==> wf_record(#[trigger] ers[k]),
                curr_at == ers[i as int].fetched_at,
                valid_ts(curr_at),
                spec_same_payload(prev_g, ers[i - 1]),
                prev_g.fetched_at == curr_at - diff,
                prev_g.fetched_at >= crate::config::MIN_TIMESTAMP,
                out@.len() >= base.len(),
                out@.take(base.len() as int) == base,
                spec_fill_between(ers[i - 1], curr_at, interval, now) == out@.skip(base.len() as int)
                    + spec_fill_between(prev_g, curr_at, interval, now),
            decreases diff,
        {
            let new_at = curr_at - diff + interval;
            let s = carry(&rs[i - 1], new_at, now);
            proof {
                assert(s == spec_carry(prev_g, new_at, now));
                assert(spec_fill_between(prev_g, curr_at, interval, now) == seq![s]
                    + spec_fill_between(s, curr_at, interval, now));
                assert((out@ + seq![s]).skip(base.len() as int) =~= out@.skip(base.len() as int)
                    + seq![s]);
                assert(out@.skip(base.len() as int) + (seq![s] + spec_fill_between(
                    s,
                    curr_at,
                    interval,
                    now,
                )) =~= (out@.skip(base.len() as int) + seq![s]) + spec_fill_between(
                    s,
                    curr_at,
                    interval,
                    now,
                ));
            }
            out.push(s);
            proof {
                prev_g = spec_carry(prev_g, new_at, now);
                assert(out@.take(base.len() as int) =~= base);
                assert(out@.skip(base.len() as int) + spec_fill_between(prev_g, curr_at, interval, now)
                    == spec_fill_between(ers[i - 1], curr_at, interval, now));
            }
            diff = curr_at - new_at;
        }
        proof {
            assert(spec_fill_between(prev_g, curr_at, interval, now) =~= Seq::<
                FetchRecord,
            >::empty());
            assert(spec_fill_between(ers[i - 1], curr_at, interval, now) =~= out@.skip(
                base.len() as int,
            ));
            assert(out@ =~= base + spec_fill_between(ers[i - 1], curr_at, interval, now));
        }
        out.push(rs[i].clone());
        proof {
            assert(ers.take(i + 1).drop_last() =~= ers.take(i as int));
            assert(ers.take(i + 1).last() == ers[i as int]);
            assert(ers.take(i + 1)[i - 1] == ers[i - 1]);
            assert(out@ =~= spec_fill_all(ers.take(i + 1), interval, now));
        }
        i = i + 1;
    }
    proof {
        assert(ers.take(n as int) =~= ers);
    }
    out
}

/// Whether a config's identity passes the query's filter.
pub open spec fn spec_filter_admits(filter: Option<u64>, h: u64) -> bool {
    match filter {
        Option::Some(f) => f == h,
        Option::None => true,
    }
}

/// The answer to a query: for each known config that passes the filter and
/// has at least one stored record, in registration order, its identity and
/// its reconstructed (or raw) sequence.
pub open spec fn spec_run_query(
    cs: Seq<Config>,
    ss: Seq<FetchRecord>,
    q: Query,
    now: i64,
) -> Seq<(u64, Seq<FetchRecord>)>
    decreases cs.len(),
{
    if cs.len() == 0 {
        Seq::empty()
    } else {
        let rest = spec_run_query(cs.drop_last(), ss, q, now);
        let c = cs.last();
        if spec_filter_admits(q.filter_config, c.hash) && spec_for_config(ss, c.hash).len() > 0 {
            rest.push(
                (c.hash, spec_reconstruct(c, spec_for_config(ss, c.hash), q.decompress, now)),
            )
        } else {
            rest
        }
    }
}

/// The stored records of one config, in storage order.
fn collect_for_config(samples: &Vec<FetchRecord>, h: u64) -> (r: Vec<FetchRecord>)
    ensures
        r@ == spec_for_config(samples@, h),
{
    let mut r: Vec<FetchRecord> = Vec::new();
    let mut i: usize = 0;
    while i < samples.len()
        invariant
            0 <= i <= samples@.len(),
            r@ == spec_for_config(samples@.take(i as int), h),
        decreases samples@.len() - i,
    {
        proof {
            assert(samples@.take(i + 1).drop_last() =~= samples@.take(i as int));
            assert(samples@.take(i + 1).last() == samples@[i as int]);
        }
        if samples[i].config == h {
            r.push(samples[i].clone());
        }
        i = i + 1;
    }
    proof {
        assert(samples@.take(samples@.len() as int) =~= samples@);
    }
    r
}

/// Answers a historical query from the store: groups the stored records by
/// config, keeps the configs the filter admits that have any history, and
/// hands each group to the reconstructor. Read-only.
pub fn run_query(store: &Store, query: &Query, now: i64) -> (r: Vec<(u64, Vec<FetchRecord>)>)
    requires
        wf_store(*store),
        valid_ts(now),
    ensures
        r@.len() == spec_run_query(store.configs@, store.samples@, *query, now).len(),
        forall|k: int|
            0 <= k < r@.len() ==> (#[trigger] r@[k]).0 == spec_run_query(
                store.configs@,
                store.samples@,
                *query,
                now,
            )[k].0 && r@[k].1@ == spec_run_query(store.configs@, store.samples@, *query, now)[k].1,
{
    let ghost cs = store.configs@;
    let ghost ss = store.samples@;
    let ghost goal = spec_run_query(cs, ss, *query, now);
    let mut r: Vec<(u64, Vec<FetchRecord>)> = Vec::new();
    let mut i: usize = 0;
    while i < store.configs.len()
        invariant
            0 <= i <= cs.len(),
            cs == store.configs@,
            ss == store.samples@,
            wf_store(*store),
            valid_ts(now),
            r@.len() == spec_run_query(cs.take(i as int), ss, *query, now).len(),
            forall|k: int|
                0 <= k < r@.len() ==> (#[trigger] r@[k]).0 == spec_run_query(
                    cs.take(i as int),
                    ss,
                    *query,
                    now,
                )[k].0 && r@[k].1@ == spec_run_query(cs.take(i as int), ss, *query, now)[k].1,
        decreases cs.len() - i,
    {
        let ghost prefix_q = spec_run_query(cs.take(i as int), ss, *query, now);
        proof {
            assert(cs.take(i + 1).drop_last() =~= cs.take(i as int));
            assert(cs.take(i + 1).last() == cs[i as int]);
        }
        let c = &store.configs[i];
        let admitted = match query.filter_config {
            Option::Some(f) => f == c.hash,
            Option::None => true,
        };
        if admitted {
            let group = collect_for_config(&store.samples, c.hash);
            if group.len() > 0 {
                proof {
                    lemma_for_config_elems(ss, c.hash);
                    assert(wf_config(cs[i as int]));
                    assert forall|k: int|
                        0 <= k < group@.len() implies wf_record(#[trigger] group@[k]) by {
                        let j = choose|j: int| 0 <= j < ss.len() && ss[j] == group@[k];
                        assert(wf_record(ss[j]));
                    }
                }
                let reconstructed = reconstruct(c, group, query.decompress, now);
                r.push((c.hash, reconstructed));
            }
        }
        i = i + 1;
    }
    proof {
        assert(cs.take(cs.len() as int) =~= cs);
    }
    r
}

/// Sorted by the sampled instant, non-strictly.
pub open spec fn spec_sorted_by_fetched_at(rs: Seq<FetchRecord>) -> bool {
    forall|i: int, j: int| 0 <= i < j < rs.len() ==> rs[i].fetched_at <= rs[j].fetched_at
}

/// One flat sequence of every group's records, in group order.
pub open spec fn spec_flatten_groups(groups: Seq<(u64, Seq<FetchRecord>)>) -> Seq<FetchRecord>
    decreases groups.len(),
{
    if groups.len() == 0 {
        Seq::empty()
    } else {
        spec_flatten_groups(groups.drop_last()) + groups.last().1
    }
}

/// The timeline form of a query answer: every record of every group, in
/// one sequence ordered by the sampled instant.
pub fn flatten_sorted(groups: &Vec<(u64, Vec<FetchRecord>)>) -> (r: Vec<FetchRecord>)
    ensures
        spec_sorted_by_fetched_at(r@),
        r@.to_multiset() == spec_flatten_groups(
            Seq::new(groups@.len(), |k: int| (groups@[k].0, groups@[k].1@)),
        ).to_multiset(),
{
    let ghost gview = Seq::new(groups@.len(), |k: int| (groups@[k].0, groups@[k].1@));
    let mut r: Vec<FetchRecord> = Vec::new();
    let mut i: usize = 0;
    while i < groups.len()
        invariant
            0 <= i <= groups@.len(),
            gview == Seq::new(groups@.len(), |k: int| (groups@[k].0, groups@[k].1@)),
            spec_sorted_by_fetched_at(r@),
            r@.to_multiset() == spec_flatten_groups(gview.take(i as int)).to_multiset(),
        decreases groups@.len() - i,
    {
        let inner_len = groups[i].1.len();
        let mut j: usize = 0;
        while j < inner_len
            invariant
                0 <= j <= inner_len,
                0 <= i < groups@.len(),
                inner_len == groups@[i as int].1@.len(),
                gview == Seq::new(groups@.len(), |k: int| (groups@[k].0, groups@[k].1@)),
                spec_sorted_by_fetched_at(r@),
                r@.to_multiset() == spec_flatten_groups(gview.take(i as int)).add(
                    groups@[i as int].1@.take(j as int),
                ).to_multiset(),
            decreases inner_len - j,
        {
            let rec = groups[i].1[j].clone();
            insert_sorted(&mut r, rec);
            proof {
                vstd::seq_lib::lemma_multiset_commutative(
                    spec_flatten_groups(gview.take(i as int)),
                    groups@[i as int].1@.take(j as int),
                );
                vstd::seq_lib::lemma_multiset_commutative(
                    spec_flatten_groups(gview.take(i as int)),
                    groups@[i as int].1@.take(j + 1),
                );
                assert(groups@[i as int].1@.take(j + 1) =~= groups@[i as int].1@.take(
                    j as int,
                ).push(groups@[i as int].1@[j as int]));
                groups@[i as int].1@.take(j as int).to_multiset_ensures();
                assert(r@.to_multiset() =~= spec_flatten_groups(gview.take(i as int)).add(
                    groups@[i as int].1@.take(j + 1),
                ).to_multiset());
            }
            j = j + 1;
        }
        proof {
            assert(gview.take(i + 1).drop_last() =~= gview.take(i as int));
            assert(gview.take(i + 1).last() == gview[i as int]);
            assert(gview[i as int].1 == groups@[i as int].1@);
            assert(groups@[i as int].1@.take(inner_len as int) =~= groups@[i as int].1@);
            vstd::seq_lib::lemma_multiset_commutative(
                spec_flatten_groups(gview.take(i as int)),
                groups@[i as int].1@,
            );
        }
        i = i + 1;
    }
    proof {
        assert(gview.take(gview.len() as int) =~= gview);
    }
    r
}

/// Inserts a record in front of the first later one, keeping the order.
fn insert_sorted(r: &mut Vec<FetchRecord>, rec: FetchRecord)
    requires
        spec_sorted_by_fetched_at(old(r)@),
    ensures
        spec_sorted_by_fetched_at(final(r)@),
        final(r)@.to_multiset() == old(r)@.to_multiset().insert(rec),
{
    let ghost orig = r@;
    let mut p: usize = 0;
    while p < r.len() && r[p].fetched_at <= rec.fetched_at
        invariant
            0 <= p <= orig.len(),
            r@ == orig,
            forall|k: int| 0 <= k < p ==> (#[trigger] orig[k]).fetched_at <= rec.fetched_at,
        decreases orig.len() - p,
    {
        p = p + 1;
    }
    r.insert(p, rec);
    proof {
        assert forall|a: int, b: int|
            0 <= a < b < r@.len() implies r@[a].fetched_at <= r@[b].fetched_at by {
            if a < p && b == p {
                assert(r@[a] == orig[a]);
            } else if a == p && b > p {
                assert(r@[b] == orig[b - 1]);
                assert(orig[p as int].fetched_at > rec.fetched_at || p == orig.len());
                assert(orig[b - 1].fetched_at >= orig[p as int].fetched_at || b - 1 == p);
            } else if a < p && b > p {
                assert(r@[a] == orig[a] && r@[b] == orig[b - 1]);
            } else if b < p {
                assert(r@[a] == orig[a] && r@[b] == orig[b]);
            } else if a > p {
                assert(r@[a] == orig[a - 1] && r@[b] == orig[b - 1]);
            }
        }
        assert(r@ =~= orig.take(p as int) + seq![rec] + orig.skip(p as int));
        assert(orig =~= orig.take(p as int) + orig.skip(p as int));
        vstd::seq_lib::lemma_multiset_commutative(orig.take(p as int) + seq![rec], orig.skip(p as int));
        vstd::seq_lib::lemma_multiset_commutative(orig.take(p as int), seq![rec]);
        vstd::seq_lib::lemma_multiset_commutative(orig.take(p as int), orig.skip(p as int));
        assert(seq![rec] =~= Seq::<FetchRecord>::empty().push(rec));
        Seq::<FetchRecord>::empty().to_multiset_ensures();
        assert(r@.to_multiset() =~= orig.to_multiset().insert(rec));
    }
}

} // verus!
