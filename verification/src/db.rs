//! The sample store: append-only, deduplicating persistence for fetch
//! outcomes, keyed by config identity and ordered by fetch time. Only state
//! transitions are kept — a write equal to the latest stored record for the
//! same config is dropped, which is the run-length-encoding step the series
//! reconstructor later inverts.

use vstd::prelude::*;

use crate::config::{valid_ts, wf_config, Config};
use crate::fetch_result::{spec_dedup_eq, wf_record, FetchRecord, Status};

verus! {

/// A boolean as a persistence engine without booleans stores it.
pub type RawBoolean = i64;

/// Renders a boolean as its stored form: one for true, zero for false.
pub fn bool_to_sqlite(b: bool) -> (r: RawBoolean)
    ensures
        r == if b {
            1int
        } else {
            0int
        },
{
    match b {
        true => 1,
        false => 0,
    }
}

/// Reads a stored boolean back: one is true, everything else is false.
pub fn sqlite_to_bool(int_val: RawBoolean) -> (r: bool)
    ensures
        r == (int_val == 1),
{
    match int_val {
        1 => true,
        _ => false,
    }
}

/// The whole engine state: the known configs and the append-only sample
/// log. A persistence engine holds the same data durably; this structure is
/// its in-memory form and carries the rules both must obey.
pub struct Store {
    pub configs: Vec<Config>,
    pub samples: Vec<FetchRecord>,
}

/// Index of the config with identity `h`, or a negative value if none.
pub open spec fn spec_config_idx(cs: Seq<Config>, h: u64) -> int
    decreases cs.len(),
{
    if cs.len() == 0 {
        -1
    } else if cs.first().hash == h {
        0
    } else {
        let r = spec_config_idx(cs.drop_first(), h);
        if r == -1 {
            -1
        } else {
            r + 1
        }
    }
}

/// Whether a config with identity `h` is known.
pub open spec fn spec_has_config(cs: Seq<Config>, h: u64) -> bool {
    spec_config_idx(cs, h) >= 0
}

/// The config with identity `h`, if one is known.
pub open spec fn spec_find_config(cs: Seq<Config>, h: u64) -> Option<Config> {
    if spec_config_idx(cs, h) >= 0 {
        Option::Some(cs[spec_config_idx(cs, h)])
    } else {
        Option::None
    }
}

/// What the index function finds: the first position holding `h`, or none
/// anywhere.
pub proof fn lemma_config_idx(cs: Seq<Config>, h: u64)
    ensures
        spec_config_idx(cs, h) >= -1,
        spec_config_idx(cs, h) == -1 ==> forall|j: int|
            0 <= j < cs.len() ==> (#[trigger] cs[j]).hash != h,
        spec_config_idx(cs, h) >= 0 ==> {
            &&& spec_config_idx(cs, h) < cs.len()
            &&& cs[spec_config_idx(cs, h)].hash == h
            &&& forall|j: int| 0 <= j < spec_config_idx(cs, h) ==> (#[trigger] cs[j]).hash != h
        },
    decreases cs.len(),
{
    if cs.len() > 0 && cs.first().hash != h {
        lemma_config_idx(cs.drop_first(), h);
        let r = spec_config_idx(cs.drop_first(), h);
        if r == -1 {
            assert(spec_config_idx(cs, h) == -1);
            assert forall|j: int| 0 <= j < cs.len() implies (#[trigger] cs[j]).hash != h by {
                if j > 0 {
                    assert(cs.drop_first()[j - 1] == cs[j]);
                } else {
                    assert(cs[0] == cs.first());
                }
            }
        } else {
            let i = spec_config_idx(cs, h);
            assert(i == r + 1);
            assert(cs.drop_first()[i - 1] == cs[i]);
            assert forall|j: int| 0 <= j < i implies (#[trigger] cs[j]).hash != h by {
                if j > 0 {
                    assert(cs.drop_first()[j - 1] == cs[j]);
                } else {
                    assert(cs[0] == cs.first());
                }
            }
        }
    }
}

/// Two config sequences with the same identities in the same places index
/// identically.
pub proof fn lemma_config_idx_same_hashes(a: Seq<Config>, b: Seq<Config>, h: u64)
    requires
        a.len() == b.len(),
        forall|i: int| 0 <= i < a.len() ==> (#[trigger] a[i]).hash == b[i].hash,
    ensures
        spec_config_idx(a, h) == spec_config_idx(b, h),
    decreases a.len(),
{
    if a.len() > 0 {
        assert(a[0].hash == b[0].hash);
        assert forall|i: int|
            0 <= i < a.drop_first().len() implies (#[trigger] a.drop_first()[i]).hash
            == b.drop_first()[i].hash by {
            assert(a.drop_first()[i] == a[i + 1]);
            assert(b.drop_first()[i] == b[i + 1]);
        }
        lemma_config_idx_same_hashes(a.drop_first(), b.drop_first(), h);
    }
}

/// The samples recorded for one config, in storage order.
pub open spec fn spec_for_config(ss: Seq<FetchRecord>, h: u64) -> Seq<FetchRecord>
    decreases ss.len(),
{
    if ss.len() == 0 {
        Seq::empty()
    } else {
        let rest = spec_for_config(ss.drop_last(), h);
        if ss.last().config == h {
            rest.push(ss.last())
        } else {
            rest
        }
    }
}

/// Appending one record extends exactly its own config's sequence.
pub proof fn lemma_for_config_push(ss: Seq<FetchRecord>, rec: FetchRecord, h: u64)
    ensures
        spec_for_config(ss.push(rec), h) == if rec.config == h {
            spec_for_config(ss, h).push(rec)
        } else {
            spec_for_config(ss, h)
        },
{
    assert(ss.push(rec).drop_last() =~= ss);
    assert(ss.push(rec).last() == rec);
}

/// A config none of the records name has no recorded samples.
pub proof fn lemma_for_config_empty(ss: Seq<FetchRecord>, h: u64)
    requires
        forall|i: int| 0 <= i < ss.len() ==> (#[trigger] ss[i]).config != h,
    ensures
        spec_for_config(ss, h).len() == 0,
    decreases ss.len(),
{
    if ss.len() > 0 {
        lemma_for_config_empty(ss.drop_last(), h);
    }
}

/// The last record for a config is the last record naming it.
pub proof fn lemma_for_config_last(ss: Seq<FetchRecord>, h: u64, i: int)
    requires
        0 <= i < ss.len(),
        ss[i].config == h,
        forall|j: int| i < j < ss.len() ==> (#[trigger] ss[j]).config != h,
    ensures
        spec_for_config(ss, h).len() >= 1,
        spec_for_config(ss, h).last() == ss[i],
    decreases ss.len(),
{
    if i == ss.len() - 1 {
    } else {
        lemma_for_config_last(ss.drop_last(), h, i);
    }
}

/// Every record in a config's sequence appears in the log and names that
/// config.
pub proof fn lemma_for_config_elems(ss: Seq<FetchRecord>, h: u64)
    ensures
        forall|k: int|
            0 <= k < spec_for_config(ss, h).len() ==> (#[trigger] spec_for_config(ss, h)[k]).config
                == h && exists|i: int| 0 <= i < ss.len() && ss[i] == spec_for_config(ss, h)[k],
    decreases ss.len(),
{
    if ss.len() > 0 {
        lemma_for_config_elems(ss.drop_last(), h);
        let pr = spec_for_config(ss.drop_last(), h);
        assert forall|k: int|
            0 <= k < spec_for_config(ss, h).len() implies (#[trigger] spec_for_config(
            ss,
            h,
        )[k]).config == h && exists|i: int|
            0 <= i < ss.len() && ss[i] == spec_for_config(ss, h)[k] by {
            if k < pr.len() {
                assert(spec_for_config(ss, h)[k] == pr[k]);
                let i = choose|i: int| 0 <= i < ss.drop_last().len() && ss.drop_last()[i] == pr[k];
                assert(ss[i] == spec_for_config(ss, h)[k]);
            } else {
                assert(spec_for_config(ss, h)[k] == ss.last());
                assert(ss[ss.len() - 1] == spec_for_config(ss, h)[k]);
            }
        }
    }
}

/// Strictly ascending by the sampled instant.
pub open spec fn spec_strict_asc(rs: Seq<FetchRecord>) -> bool {
    forall|i: int, j: int| 0 <= i < j < rs.len() ==> rs[i].fetched_at < rs[j].fetched_at
}

/// No two neighbours are equal under the deduplication equality: the
/// sequence is a transition log.
pub open spec fn spec_adj_distinct(rs: Seq<FetchRecord>) -> bool {
    forall|i: int| 0 <= i < rs.len() - 1 ==> !spec_dedup_eq(#[trigger] rs[i], rs[i + 1])
}

/// What every store state obeys: unique identities, well-formed configs and
/// records, every sample owned by a known config, and each config's
/// sequence a strictly ascending transition log of persisted records.
pub open spec fn wf_state(cs: Seq<Config>, ss: Seq<FetchRecord>) -> bool {
    &&& forall|i: int, j: int|
        0 <= i < j < cs.len() ==> (#[trigger] cs[i]).hash != (#[trigger] cs[j]).hash
    &&& forall|i: int| 0 <= i < cs.len() ==> wf_config(#[trigger] cs[i])
    &&& forall|i: int|
        0 <= i < ss.len() ==> wf_record(#[trigger] ss[i]) && ss[i].from_db == true
    &&& forall|i: int| 0 <= i < ss.len() ==> spec_has_config(cs, (#[trigger] ss[i]).config)
    &&& forall|h: u64|
        spec_strict_asc(#[trigger] spec_for_config(ss, h)) && spec_adj_distinct(
            spec_for_config(ss, h),
        )
}

/// The store's own invariant, as `wf_state` of its two parts.
pub open spec fn wf_store(s: Store) -> bool {
    wf_state(s.configs@, s.samples@)
}

/// The scheduling state is settled: no config's log runs ahead of its
/// `last_fetched`. This holds between ticks; a bare append breaks it until
/// the poll attempt is marked.
pub open spec fn spec_synced_state(cs: Seq<Config>, ss: Seq<FetchRecord>) -> bool {
    forall|h: u64|
        #[trigger] spec_for_config(ss, h).len() > 0 ==> match spec_find_config(cs, h) {
            Option::Some(c) => match c.last_fetched {
                Option::Some(lf) => spec_for_config(ss, h).last().fetched_at <= lf,
                Option::None => false,
            },
            Option::None => true,
        }
}

/// The store's settledness, as `spec_synced_state` of its two parts.
pub open spec fn spec_synced(s: Store) -> bool {
    spec_synced_state(s.configs@, s.samples@)
}

impl Store {
    /// An empty engine state: nothing known, nothing recorded.
    pub fn new() -> (s: Store)
        ensures
            s.configs@.len() == 0,
            s.samples@.len() == 0,
            wf_store(s),
            spec_synced(s),
    {
        let s = Store { configs: Vec::new(), samples: Vec::new() };
        proof {
            assert forall|h: u64| #[trigger]
                spec_for_config(s.samples@, h).len() == 0 by {
                assert(s.samples@.len() == 0);
            }
        }
        s
    }
}

/// Index of the config with identity `h` in the store, if known.
fn find_config_index(configs: &Vec<Config>, h: u64) -> (r: Option<usize>)
    ensures
        match r {
            Option::Some(i) => i == spec_config_idx(configs@, h) && i < configs@.len()
                && configs@[i as int].hash == h,
            Option::None => spec_config_idx(configs@, h) == -1,
        },
{
    let mut i: usize = 0;
    while i < configs.len()
        invariant
            0 <= i <= configs@.len(),
            forall|j: int| 0 <= j < i ==> (#[trigger] configs@[j]).hash != h,
        decreases configs@.len() - i,
    {
        if configs[i].hash == h {
            proof {
                lemma_config_idx_first(configs@, h, i as int);
            }
            return Option::Some(i);
        }
        i = i + 1;
    }
    proof {
        lemma_config_idx_none(configs@, h);
    }
    Option::None
}

/// A position holding `h` with none before it is the index found.
proof fn lemma_config_idx_first(cs: Seq<Config>, h: u64, i: int)
    requires
        0 <= i < cs.len(),
        cs[i].hash == h,
        forall|j: int| 0 <= j < i ==> (#[trigger] cs[j]).hash != h,
    ensures
        spec_config_idx(cs, h) == i,
    decreases cs.len(),
{
    if i > 0 {
        assert forall|j: int| 0 <= j < i - 1 implies (#[trigger] cs.drop_first()[j]).hash != h by {
            assert(cs.drop_first()[j] == cs[j + 1]);
        }
        assert(cs.drop_first()[i - 1] == cs[i]);
        lemma_config_idx_first(cs.drop_first(), h, i - 1);
    }
}

/// If no position holds `h`, nothing is found.
proof fn lemma_config_idx_none(cs: Seq<Config>, h: u64)
    requires
        forall|j: int| 0 <= j < cs.len() ==> (#[trigger] cs[j]).hash != h,
    ensures
        spec_config_idx(cs, h) == -1,
    decreases cs.len(),
{
    if cs.len() > 0 {
        assert forall|j: int|
            0 <= j < cs.drop_first().len() implies (#[trigger] cs.drop_first()[j]).hash != h by {
            assert(cs.drop_first()[j] == cs[j + 1]);
        }
        lemma_config_idx_none(cs.drop_first(), h);
    }
}

/// The known config with identity `h`; meaningful only when one exists.
pub open spec fn spec_the_config(cs: Seq<Config>, h: u64) -> Config
    recommends
        spec_has_config(cs, h),
{
    cs[spec_config_idx(cs, h)]
}

/// What a write does to the log: nothing when the record equals the latest
/// stored record for its config under the deduplication equality — only
/// transitions are persisted — and an append otherwise.
pub open spec fn spec_record_fetch_samples(ss: Seq<FetchRecord>, rec: FetchRecord) -> Seq<
    FetchRecord,
> {
    let prior = spec_for_config(ss, rec.config);
    if prior.len() > 0 && spec_dedup_eq(prior.last(), rec) {
        ss
    } else {
        ss.push(rec)
    }
}

/// What a write reports: the seconds between the latest stored record for
/// the config and the new one, when a previous record existed.
pub open spec fn spec_record_fetch_diff(ss: Seq<FetchRecord>, rec: FetchRecord) -> Option<i64> {
    let prior = spec_for_config(ss, rec.config);
    if prior.len() > 0 {
        Option::Some((rec.fetched_at - prior.last().fetched_at) as i64)
    } else {
        Option::None
    }
}

/// Position of the last record for `h` in the log, if any.
fn find_latest_index(samples: &Vec<FetchRecord>, h: u64) -> (r: Option<usize>)
    ensures
        match r {
            Option::Some(i) => {
                &&& i < samples@.len()
                &&& samples@[i as int].config == h
                &&& spec_for_config(samples@, h).len() >= 1
                &&& spec_for_config(samples@, h).last() == samples@[i as int]
            },
            Option::None => spec_for_config(samples@, h).len() == 0,
        },
{
    let n = samples.len();
    let mut j = n;
    while j > 0 && samples[j - 1].config != h
        invariant
            0 <= j <= n,
            n == samples@.len(),
            forall|k: int| j <= k < n ==> (#[trigger] samples@[k]).config != h,
        decreases j,
    {
        j = j - 1;
    }
    if j == 0 {
        proof {
            lemma_for_config_empty(samples@, h);
        }
        Option::None
    } else {
        proof {
            lemma_for_config_last(samples@, h, j - 1);
        }
        Option::Some(j - 1)
    }
}

/// Records one fetch outcome through the deduplicating write path: the
/// record is appended unless it equals the latest stored record for its
/// config, in which case the write is skipped. Returns the seconds since
/// that latest record, when one existed; the value is informational only.
pub fn record_fetch(store: &mut Store, fetch: FetchRecord) -> (r: Option<i64>)
    requires
        wf_store(*old(store)),
        wf_record(fetch),
        fetch.from_db == true,
        spec_has_config(old(store).configs@, fetch.config),
        spec_for_config(old(store).samples@, fetch.config).len() > 0 ==> spec_for_config(
            old(store).samples@,
            fetch.config,
        ).last().fetched_at < fetch.fetched_at,
    ensures
        wf_store(*final(store)),
        final(store).configs@ == old(store).configs@,
        final(store).samples@ == spec_record_fetch_samples(old(store).samples@, fetch),
        r == spec_record_fetch_diff(old(store).samples@, fetch),
{
    let latest = find_latest_index(&store.samples, fetch.config);
    match latest {
        Option::None => {
            proof {
                lemma_record_push_wf(store.configs@, store.samples@, fetch);
            }
            store.samples.push(fetch);
            Option::None
        },
        Option::Some(i) => {
            let diff = fetch.fetched_at - store.samples[i].fetched_at;
            if store.samples[i].eq(&fetch) {
                Option::Some(diff)
            } else {
                proof {
                    lemma_record_push_wf(store.configs@, store.samples@, fetch);
                }
                store.samples.push(fetch);
                Option::Some(diff)
            }
        },
    }
}

/// Appending a record later than, and distinct from, its config's latest
/// keeps the state well formed.
proof fn lemma_record_push_wf(cs: Seq<Config>, ss: Seq<FetchRecord>, rec: FetchRecord)
    requires
        wf_state(cs, ss),
        wf_record(rec),
        rec.from_db == true,
        spec_has_config(cs, rec.config),
        spec_for_config(ss, rec.config).len() > 0 ==> spec_for_config(
            ss,
            rec.config,
        ).last().fetched_at < rec.fetched_at && !spec_dedup_eq(
            spec_for_config(ss, rec.config).last(),
            rec,
        ),
    ensures
        wf_state(cs, ss.push(rec)),
{
    let ss2 = ss.push(rec);
    assert forall|h: u64|
        spec_strict_asc(#[trigger] spec_for_config(ss2, h)) && spec_adj_distinct(
            spec_for_config(ss2, h),
        ) by {
        lemma_for_config_push(ss, rec, h);
        let pr = spec_for_config(ss, h);
        if h == rec.config {
            let pr2 = pr.push(rec);
            assert forall|i: int, j: int|
                0 <= i < j < pr2.len() implies pr2[i].fetched_at < pr2[j].fetched_at by {
                if j < pr.len() {
                    assert(pr2[i] == pr[i] && pr2[j] == pr[j]);
                } else {
                    assert(pr2[j] == rec);
                    assert(pr2[i] == pr[i]);
                    if i < pr.len() - 1 {
                        assert(pr[i].fetched_at < pr.last().fetched_at);
                    } else {
                        assert(pr[i] == pr.last());
                    }
                }
            }
            assert forall|i: int|
                0 <= i < pr2.len() - 1 implies !spec_dedup_eq(#[trigger] pr2[i], pr2[i + 1]) by {
                if i < pr.len() - 1 {
                    assert(pr2[i] == pr[i] && pr2[i + 1] == pr[i + 1]);
                    assert(!spec_dedup_eq(pr[i], pr[i + 1]));
                } else {
                    assert(pr2[i] == pr.last() && pr2[i + 1] == rec);
                }
            }
        } else {
            assert(spec_for_config(ss2, h) == pr);
        }
    }
    assert forall|i: int|
        0 <= i < ss2.len() implies wf_record(#[trigger] ss2[i]) && ss2[i].from_db == true
            && spec_has_config(cs, ss2[i].config) by {
        if i < ss.len() {
            assert(ss2[i] == ss[i]);
            assert(wf_record(ss[i]) && ss[i].from_db == true);
            assert(spec_has_config(cs, ss[i].config));
        } else {
            assert(ss2[i] == rec);
        }
    }
}

/// Appending a config moves no existing index and makes the new one last.
pub proof fn lemma_config_idx_push(cs: Seq<Config>, c: Config, h: u64)
    ensures
        spec_config_idx(cs, h) >= 0 ==> spec_config_idx(cs.push(c), h) == spec_config_idx(cs, h),
        spec_config_idx(cs, h) == -1 && c.hash == h ==> spec_config_idx(cs.push(c), h) == cs.len(),
        spec_config_idx(cs, h) == -1 && c.hash != h ==> spec_config_idx(cs.push(c), h) == -1,
    decreases cs.len(),
{
    lemma_config_idx(cs, h);
    if cs.len() == 0 {
        assert(cs.push(c).first() == c);
        if c.hash != h {
            assert(cs.push(c).drop_first() =~= Seq::<Config>::empty());
            assert(spec_config_idx(cs.push(c).drop_first(), h) == -1);
        }
    } else {
        assert(cs.push(c).first() == cs.first());
        assert(cs.push(c).drop_first() =~= cs.drop_first().push(c));
        lemma_config_idx_push(cs.drop_first(), c, h);
        lemma_config_idx(cs.drop_first(), h);
        if cs.first().hash == h {
            assert(spec_config_idx(cs, h) == 0);
            assert(spec_config_idx(cs.push(c), h) == 0);
        } else {
            let r0 = spec_config_idx(cs.drop_first(), h);
            let rp = spec_config_idx(cs.drop_first().push(c), h);
            assert(spec_config_idx(cs.push(c).drop_first(), h) == rp);
            assert(spec_config_idx(cs.push(c), h) == if rp == -1 {
                -1int
            } else {
                rp + 1
            });
            if r0 >= 0 {
                assert(rp == r0);
                assert(spec_config_idx(cs, h) == r0 + 1);
            } else {
                assert(r0 == -1);
                assert(spec_config_idx(cs, h) == -1);
                if c.hash == h {
                    assert(rp == cs.drop_first().len());
                    assert(spec_config_idx(cs.push(c), h) == cs.len());
                } else {
                    assert(rp == -1);
                }
            }
        }
    }
}

/// What activation does to the known configs: a fresh config is appended;
/// a known one is only marked active again — its `last_fetched` and
/// everything else stay, so its history is preserved.
pub open spec fn spec_activate(cs: Seq<Config>, c: Config) -> Seq<Config> {
    let i = spec_config_idx(cs, c.hash);
    if i >= 0 {
        cs.update(i, Config { active: true, ..cs[i] })
    } else {
        cs.push(c)
    }
}

/// Registers a target: inserts its config if the identity is new, and
/// otherwise only re-activates the existing row, leaving `last_fetched`
/// and the recorded history untouched.
pub fn create_or_activate_config(store: &mut Store, config: Config)
    requires
        wf_store(*old(store)),
        wf_config(config),
    ensures
        wf_store(*final(store)),
        final(store).samples@ == old(store).samples@,
        final(store).configs@ == spec_activate(old(store).configs@, config),
        spec_synced(*old(store)) ==> spec_synced(*final(store)),
{
    let ghost cs = store.configs@;
    let ghost ss = store.samples@;
    proof {
        lemma_config_idx(cs, config.hash);
    }
    match find_config_index(&store.configs, config.hash) {
        Option::Some(i) => {
            let c = vstd::std_specs::vec::vec_index_mut(&mut store.configs, i);
            let replacement = Config {
                hash: c.hash,
                source_url: c.source_url.clone(),
                fetch_interval_s: c.fetch_interval_s,
                try_parse_json: c.try_parse_json,
                active: true,
                last_fetched: c.last_fetched,
            };
            *c = replacement;
            proof {
                assert(store.configs@ =~= spec_activate(cs, config));
                assert forall|ii: int, jj: int|
                    0 <= ii < jj < store.configs@.len() implies (#[trigger] store.configs@[ii]).hash
                    != (#[trigger] store.configs@[jj]).hash by {
                    assert(store.configs@[ii].hash == cs[ii].hash);
                    assert(store.configs@[jj].hash == cs[jj].hash);
                }
                assert(forall|k: int|
                    0 <= k < cs.len() ==> (#[trigger] cs[k]).hash == store.configs@[k].hash);
                assert forall|ii: int|
                    0 <= ii < ss.len() implies spec_has_config(
                    store.configs@,
                    (#[trigger] ss[ii]).config,
                ) by {
                    lemma_config_idx_same_hashes(cs, store.configs@, ss[ii].config);
                }
                if spec_synced_state(cs, ss) {
                    assert forall|h: u64| #[trigger]
                        spec_for_config(ss, h).len() > 0 implies match spec_find_config(
                        store.configs@,
                        h,
                    ) {
                        Option::Some(c2) => match c2.last_fetched {
                            Option::Some(lf) => spec_for_config(ss, h).last().fetched_at <= lf,
                            Option::None => false,
                        },
                        Option::None => true,
                    } by {
                        lemma_config_idx_same_hashes(cs, store.configs@, h);
                        lemma_config_idx(cs, h);
                        if spec_config_idx(cs, h) >= 0 {
                            let k = spec_config_idx(cs, h);
                            assert(store.configs@[k].last_fetched == cs[k].last_fetched);
                            assert(spec_the_config(store.configs@, h).last_fetched
                                == spec_the_config(cs, h).last_fetched);
                        }
                    }
                }
            }
        },
        Option::None => {
            proof {
                assert forall|h: u64|
                    spec_has_config(cs, h) implies spec_config_idx(cs.push(config), h)
                    == spec_config_idx(cs, h) && spec_the_config(cs.push(config), h)
                    == spec_the_config(cs, h) by {
                    lemma_config_idx_push(cs, config, h);
                    lemma_config_idx(cs, h);
                }
                lemma_config_idx_push(cs, config, config.hash);
                assert forall|ii: int, jj: int|
                    0 <= ii < jj < cs.push(config).len() implies (#[trigger] cs.push(
                    config,
                )[ii]).hash != (#[trigger] cs.push(config)[jj]).hash by {
                    lemma_config_idx(cs, config.hash);
                    if jj == cs.len() {
                        assert(cs.push(config)[jj] == config);
                        assert(cs[ii].hash != config.hash);
                    }
                }
                if spec_synced_state(cs, ss) {
                    assert forall|h: u64| #[trigger]
                        spec_for_config(ss, h).len() > 0 implies match spec_find_config(
                        cs.push(config),
                        h,
                    ) {
                        Option::Some(c2) => match c2.last_fetched {
                            Option::Some(lf) => spec_for_config(ss, h).last().fetched_at <= lf,
                            Option::None => false,
                        },
                        Option::None => true,
                    } by {
                        lemma_for_config_elems(ss, h);
                        if spec_for_config(ss, h).len() > 0 {
                            assert(spec_for_config(ss, h)[0].config == h);
                            let i = choose|i: int|
                                0 <= i < ss.len() && ss[i] == spec_for_config(ss, h)[0];
                            assert(spec_has_config(cs, h));
                        }
                    }
                }
            }
            store.configs.push(config);
        },
    }
}

/// Marks a poll attempt for a config: sets its `last_fetched` to `now`.
/// Called once per tick for each config actually polled, whether or not
/// the outcome itself was stored — `last_fetched` must advance even when
/// the observed state did not change. A clock that has not advanced past
/// the recorded attempt is rejected so that `last_fetched` never decreases.
pub open spec fn spec_touch(cs: Seq<Config>, h: u64, now: i64) -> Seq<Config> {
    let i = spec_config_idx(cs, h);
    if i >= 0 {
        cs.update(i, Config { last_fetched: Option::Some(now), ..cs[i] })
    } else {
        cs
    }
}

/// Marks a poll attempt: the config's `last_fetched` becomes `now`.
pub fn record_fetch_config(store: &mut Store, config_hash: u64, now: i64)
    requires
        wf_store(*old(store)),
        valid_ts(now),
        match spec_find_config(old(store).configs@, config_hash) {
            Option::Some(c) => match c.last_fetched {
                Option::Some(t) => t <= now,
                Option::None => true,
            },
            Option::None => true,
        },
    ensures
        wf_store(*final(store)),
        final(store).samples@ == old(store).samples@,
        final(store).configs@ == spec_touch(old(store).configs@, config_hash, now),
{
    let ghost cs = store.configs@;
    let ghost ss = store.samples@;
    match find_config_index(&store.configs, config_hash) {
        Option::Some(i) => {
            let c = vstd::std_specs::vec::vec_index_mut(&mut store.configs, i);
            let replacement = Config {
                hash: c.hash,
                source_url: c.source_url.clone(),
                fetch_interval_s: c.fetch_interval_s,
                try_parse_json: c.try_parse_json,
                active: c.active,
                last_fetched: Option::Some(now),
            };
            *c = replacement;
            proof {
                assert(store.configs@ =~= spec_touch(cs, config_hash, now));
                assert forall|ii: int, jj: int|
                    0 <= ii < jj < store.configs@.len() implies (#[trigger] store.configs@[ii]).hash
                    != (#[trigger] store.configs@[jj]).hash by {
                    assert(store.configs@[ii].hash == cs[ii].hash);
                    assert(store.configs@[jj].hash == cs[jj].hash);
                }
                assert(forall|k: int|
                    0 <= k < cs.len() ==> (#[trigger] cs[k]).hash == store.configs@[k].hash);
                assert forall|ii: int|
                    0 <= ii < ss.len() implies spec_has_config(
                    store.configs@,
                    (#[trigger] ss[ii]).config,
                ) by {
                    lemma_config_idx_same_hashes(cs, store.configs@, ss[ii].config);
                }
            }
        },
        Option::None => {},
    }
}

/// The config with the given identity, if known: a copy of its row.
pub fn get_config(store: &Store, config_hash: u64) -> (r: Option<Config>)
    ensures
        r == spec_find_config(store.configs@, config_hash),
{
    match find_config_index(&store.configs, config_hash) {
        Option::Some(i) => Option::Some(store.configs[i].clone()),
        Option::None => Option::None,
    }
}

/// The identities that are active right now, in registration order.
pub open spec fn spec_active_hashes(cs: Seq<Config>) -> Seq<u64>
    decreases cs.len(),
{
    if cs.len() == 0 {
        Seq::empty()
    } else {
        let rest = spec_active_hashes(cs.drop_last());
        if cs.last().active {
            rest.push(cs.last().hash)
        } else {
            rest
        }
    }
}

/// The identities of every active config.
pub fn get_active_configs(store: &Store) -> (r: Vec<u64>)
    ensures
        r@ == spec_active_hashes(store.configs@),
{
    let mut r: Vec<u64> = Vec::new();
    let mut i: usize = 0;
    while i < store.configs.len()
        invariant
            0 <= i <= store.configs@.len(),
            r@ == spec_active_hashes(store.configs@.take(i as int)),
        decreases store.configs@.len() - i,
    {
        proof {
            assert(store.configs@.take(i + 1).drop_last() =~= store.configs@.take(i as int));
            assert(store.configs@.take(i + 1).last() == store.configs@[i as int]);
        }
        if store.configs[i].active {
            r.push(store.configs[i].hash);
        }
        i = i + 1;
    }
    proof {
        assert(store.configs@.take(store.configs@.len() as int) =~= store.configs@);
    }
    r
}

/// Every known config, active or not: a copy of the whole table.
pub fn list_configs(store: &Store) -> (r: Vec<Config>)
    ensures
        r@ == store.configs@,
{
    let mut r: Vec<Config> = Vec::new();
    let mut i: usize = 0;
    while i < store.configs.len()
        invariant
            0 <= i <= store.configs@.len(),
            r@ == store.configs@.take(i as int),
        decreases store.configs@.len() - i,
    {
        r.push(store.configs[i].clone());
        proof {
            assert(store.configs@.take(i + 1) =~= store.configs@.take(i as int).push(
                store.configs@[i as int],
            ));
        }
        i = i + 1;
    }
    proof {
        assert(store.configs@.take(store.configs@.len() as int) =~= store.configs@);
    }
    r
}

/// The sampled instant of the latest stored record for a config, if any
/// record is stored. What a caller of the write path must stay ahead of.
pub fn latest_fetched_at(store: &Store, config_hash: u64) -> (r: Option<i64>)
    ensures
        r == if spec_for_config(store.samples@, config_hash).len() > 0 {
            Option::Some(spec_for_config(store.samples@, config_hash).last().fetched_at)
        } else {
            Option::None::<i64>
        },
{
    match find_latest_index(&store.samples, config_hash) {
        Option::Some(i) => Option::Some(store.samples[i].fetched_at),
        Option::None => Option::None,
    }
}

/// The downtime marker a config calls for at `now`, if its last poll
/// attempt lies further back than one interval plus one second of jitter
/// tolerance: an `Unknown` record anchored to the sampling grid — one
/// interval after the last attempt, not at `now`.
pub open spec fn spec_downtime_marker(c: Config, now: i64) -> Option<FetchRecord> {
    match c.last_fetched {
        Option::Some(lf) => if now - lf > c.fetch_interval_s + 1 {
            Option::Some(
                FetchRecord {
                    config: c.hash,
                    fetched_at: (lf + c.fetch_interval_s) as i64,
                    created_at: now,
                    source_url: c.source_url,
                    status: Status::Unknown,
                    body_text: Option::None,
                    valid_json: Option::None,
                    from_db: true,
                },
            )
        } else {
            Option::None
        },
        Option::None => Option::None,
    }
}

/// Distinguishes "nothing changed" from "the collector was not running":
/// if the gap since the config's last poll attempt exceeds its interval
/// plus one second, one `Unknown` record is written through the
/// deduplicating path, anchored one interval after the last attempt.
/// Returns the seconds since the last attempt, when one is recorded.
pub fn record_downtime(store: &mut Store, config_hash: u64, now: i64) -> (r: Option<i64>)
    requires
        wf_store(*old(store)),
        spec_synced(*old(store)),
        valid_ts(now),
        spec_has_config(old(store).configs@, config_hash),
    ensures
        wf_store(*final(store)),
        final(store).configs@ == old(store).configs@,
        ({
            let c = spec_the_config(old(store).configs@, config_hash);
            &&& final(store).samples@ == match spec_downtime_marker(c, now) {
                Option::Some(m) => spec_record_fetch_samples(old(store).samples@, m),
                Option::None => old(store).samples@,
            }
            &&& r == match c.last_fetched {
                Option::Some(lf) => Option::Some((now - lf) as i64),
                Option::None => Option::None::<i64>,
            }
        }),
{
    let ghost cs = store.configs@;
    let ghost ss = store.samples@;
    proof {
        lemma_config_idx(cs, config_hash);
    }
    let idx = match find_config_index(&store.configs, config_hash) {
        Option::Some(i) => i,
        Option::None => {
            proof {
                assert(false);
            }
            return Option::None;
        },
    };
    let ghost c = spec_the_config(cs, config_hash);
    let last_fetched = store.configs[idx].last_fetched;
    let interval = store.configs[idx].fetch_interval_s;
    match last_fetched {
        Option::None => Option::None,
        Option::Some(lf) => {
            let elapsed = now - lf;
            if elapsed > interval + 1 {
                let marker = FetchRecord {
                    config: config_hash,
                    fetched_at: lf + interval,
                    created_at: now,
                    source_url: store.configs[idx].source_url.clone(),
                    status: Status::Unknown,
                    body_text: Option::None,
                    valid_json: Option::None,
                    from_db: true,
                };
                proof {
                    assert(spec_downtime_marker(c, now) == Option::Some(marker));
                    assert(wf_config(c));
                    if spec_for_config(ss, config_hash).len() > 0 {
                        assert(spec_for_config(ss, config_hash).last().fetched_at <= lf);
                    }
                }
                let _ = record_fetch(store, marker);
                Option::Some(elapsed)
            } else {
                Option::Some(elapsed)
            }
        },
    }
}

/// Marks every known config inactive. Run once at process start, before the
/// current static input re-activates its members, so that removed targets
/// stop being polled without explicit deletion.
pub fn deactivate_all_configs(store: &mut Store)
    requires
        wf_store(*old(store)),
    ensures
        wf_store(*final(store)),
        final(store).samples@ == old(store).samples@,
        final(store).configs@.len() == old(store).configs@.len(),
        forall|i: int|
            0 <= i < old(store).configs@.len() ==> #[trigger] final(store).configs@[i] == (Config {
                active: false,
                ..old(store).configs@[i]
            }),
{
    let ghost orig = store.configs@;
    let n = store.configs.len();
    let mut i: usize = 0;
    while i < n
        invariant
            0 <= i <= n,
            n == store.configs@.len(),
            n == orig.len(),
            store.samples@ == old(store).samples@,
            wf_store(*old(store)),
            forall|j: int|
                0 <= j < i ==> #[trigger] store.configs@[j] == (Config {
                    active: false,
                    ..orig[j]
                }),
            forall|j: int| i <= j < n ==> #[trigger] store.configs@[j] == orig[j],
            orig == old(store).configs@,
        decreases n - i,
    {
        let c = vstd::std_specs::vec::vec_index_mut(&mut store.configs, i);
        let replacement = Config {
            hash: c.hash,
            source_url: c.source_url.clone(),
            fetch_interval_s: c.fetch_interval_s,
            try_parse_json: c.try_parse_json,
            active: false,
            last_fetched: c.last_fetched,
        };
        *c = replacement;
        i = i + 1;
    }
    proof {
        assert forall|ii: int, jj: int|
            0 <= ii < jj < store.configs@.len() implies (#[trigger] store.configs@[ii]).hash
            != (#[trigger] store.configs@[jj]).hash by {
            assert(store.configs@[ii].hash == orig[ii].hash);
            assert(store.configs@[jj].hash == orig[jj].hash);
        }
        assert forall|ii: int|
            0 <= ii < store.samples@.len() implies spec_has_config(
            store.configs@,
            (#[trigger] store.samples@[ii]).config,
        ) by {
            assert(forall|k: int|
                0 <= k < orig.len() ==> (#[trigger] orig[k]).hash == store.configs@[k].hash);
            lemma_config_idx_same_hashes(old(store).configs@, store.configs@, store.samples@[ii].config);
        }
    }
}

} // verus!
