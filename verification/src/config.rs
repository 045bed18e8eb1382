//! The identity and config model: a monitored target is identified by a
//! deterministic digest of its immutable fields, so that re-registering the
//! same target always reaches the same history.

use vstd::prelude::*;

verus! {

/// Identity of a monitored target: a deterministic digest of
/// `(source_url, fetch_interval_s, try_parse_json)`.
pub type ConfigHash = u64;

/// Identity as a persistence engine without unsigned integers stores it.
pub type RawConfigHash = i64;

/// Seconds of the Unix epoch, as stored.
pub type RawTimestamp = i64;

/// Earliest second an instant may carry (the first instant of year -9999 in
/// the proleptic Gregorian calendar, the common floor of timestamp types).
pub const MIN_TIMESTAMP: i64 = -377705023201;

/// Latest second an instant may carry (the last instant of year 9999).
pub const MAX_TIMESTAMP: i64 = 253402207200;

/// An instant the system can represent.
pub open spec fn valid_ts(t: i64) -> bool {
    MIN_TIMESTAMP <= t <= MAX_TIMESTAMP
}

pub const FNV_OFFSET_BASIS: u64 = 0xcbf2_9ce4_8422_2325;

pub const FNV_PRIME: u64 = 0x0000_0100_0000_01b3;

/// One step of the FNV-1a digest: absorb one byte.
pub open spec fn spec_fnv1a_step(h: u64, b: u8) -> u64 {
    vstd::wrapping::u64_specs::wrapping_mul(h ^ (b as u64), FNV_PRIME)
}

/// The FNV-1a digest of a byte sequence.
pub open spec fn spec_fnv1a(bytes: Seq<u8>) -> u64
    decreases bytes.len(),
{
    if bytes.len() == 0 {
        FNV_OFFSET_BASIS
    } else {
        spec_fnv1a_step(spec_fnv1a(bytes.drop_last()), bytes.last())
    }
}

/// The canonical encoding of a config's immutable fields: the URL's UTF-8
/// bytes, a separator that UTF-8 never produces, the interval in
/// little-endian order, and the JSON flag.
pub open spec fn spec_identity_bytes(url_bytes: Seq<u8>, interval: i64, parse_json: bool) -> Seq<
    u8,
> {
    url_bytes + seq![0xffu8] + vstd::bytes::spec_u64_to_le_bytes(interval as u64) + seq![
        if parse_json {
            1u8
        } else {
            0u8
        },
    ]
}

/// The identity of a target, as a function of its three immutable fields.
/// Same fields, same identity, in every process and on every run.
pub open spec fn spec_derive_identity(url: Seq<char>, interval: i64, parse_json: bool) -> u64 {
    spec_fnv1a(spec_identity_bytes(vstd::utf8::encode_utf8(url), interval, parse_json))
}

/// Absorb every byte of `bytes` into the digest `h`.
fn fnv1a_absorb(h: u64, bytes: &Vec<u8>) -> (r: u64)
    ensures
        r == spec_fnv1a_absorb(h, bytes@),
{
    let mut acc = h;
    let mut i: usize = 0;
    while i < bytes.len()
        invariant
            0 <= i <= bytes@.len(),
            acc == spec_fnv1a_absorb(h, bytes@.take(i as int)),
        decreases bytes@.len() - i,
    {
        proof {
            assert(bytes@.take(i + 1).drop_last() =~= bytes@.take(i as int));
        }
        acc = (acc ^ (bytes[i] as u64)).wrapping_mul(FNV_PRIME);
        i = i + 1;
    }
    proof {
        assert(bytes@.take(bytes@.len() as int) =~= bytes@);
    }
    acc
}

/// Absorbing a byte sequence into a running digest.
pub open spec fn spec_fnv1a_absorb(h: u64, bytes: Seq<u8>) -> u64
    decreases bytes.len(),
{
    if bytes.len() == 0 {
        h
    } else {
        spec_fnv1a_step(spec_fnv1a_absorb(h, bytes.drop_last()), bytes.last())
    }
}

/// Absorbing from the offset basis is the digest itself.
proof fn lemma_absorb_is_fnv1a(bytes: Seq<u8>)
    ensures
        spec_fnv1a_absorb(FNV_OFFSET_BASIS, bytes) == spec_fnv1a(bytes),
    decreases bytes.len(),
{
    if bytes.len() > 0 {
        lemma_absorb_is_fnv1a(bytes.drop_last());
    }
}

/// Absorbing a concatenation absorbs the parts in order.
proof fn lemma_absorb_add(h: u64, a: Seq<u8>, b: Seq<u8>)
    ensures
        spec_fnv1a_absorb(h, a + b) == spec_fnv1a_absorb(spec_fnv1a_absorb(h, a), b),
    decreases b.len(),
{
    if b.len() == 0 {
        assert(a + b =~= a);
    } else {
        lemma_absorb_add(h, a, b.drop_last());
        assert((a + b).drop_last() =~= a + b.drop_last());
        assert((a + b).last() == b.last());
    }
}

/// Derives the identity of a target from its three immutable fields: the
/// FNV-1a digest of their canonical encoding.
pub fn derive_identity(url: &str, interval: i64, parse_json: bool) -> (r: u64)
    ensures
        r == spec_derive_identity(url@, interval, parse_json),
{
    let url_bytes = url.as_bytes_vec();
    let mut h = fnv1a_absorb(FNV_OFFSET_BASIS, &url_bytes);
    let mut tail: Vec<u8> = Vec::new();
    tail.push(0xffu8);
    let interval_bytes = vstd::bytes::u64_to_le_bytes(interval as u64);
    let mut k: usize = 0;
    while k < interval_bytes.len()
        invariant
            0 <= k <= interval_bytes@.len(),
            tail@ == seq![0xffu8] + interval_bytes@.take(k as int),
        decreases interval_bytes@.len() - k,
    {
        tail.push(interval_bytes[k]);
        proof {
            assert(seq![0xffu8] + interval_bytes@.take(k + 1) =~= (seq![0xffu8]
                + interval_bytes@.take(k as int)).push(interval_bytes@[k as int]));
        }
        k = k + 1;
    }
    tail.push(if parse_json {
        1u8
    } else {
        0u8
    });
    h = fnv1a_absorb(h, &tail);
    proof {
        let ub = vstd::utf8::encode_utf8(url@);
        let ib = vstd::bytes::spec_u64_to_le_bytes(interval as u64);
        let rest = seq![0xffu8] + ib + seq![
            if parse_json {
                1u8
            } else {
                0u8
            },
        ];
        assert(interval_bytes@.take(interval_bytes@.len() as int) =~= ib);
        assert(tail@ =~= rest);
        lemma_absorb_add(FNV_OFFSET_BASIS, ub, rest);
        assert(spec_identity_bytes(ub, interval, parse_json) =~= ub + rest);
        lemma_absorb_is_fnv1a(spec_identity_bytes(ub, interval, parse_json));
    }
    h
}

/// One monitored target as given in static input: the three immutable
/// fields from which its identity is derived.
pub struct ConfigInput {
    pub source_url: String,
    pub fetch_interval_s: i64,
    pub try_parse_json: bool,
}

/// The static input as a whole: the list of targets to poll.
pub struct FetcheConfig {
    pub configs: Vec<ConfigInput>,
}

/// A monitored target with its scheduling state.
pub struct Config {
    /// Deterministic digest of the three immutable fields; the primary key.
    pub hash: u64,
    /// The endpoint to poll.
    pub source_url: String,
    /// Desired sampling cadence, in seconds; greater than zero.
    pub fetch_interval_s: i64,
    /// Whether response bodies should be validated as JSON.
    pub try_parse_json: bool,
    /// Only active configs are polled.
    pub active: bool,
    /// The most recent poll attempt, successful or not; never decreases
    /// once set.
    pub last_fetched: Option<i64>,
}

/// A config the system can schedule: a positive interval that leaves room
/// for the jitter tolerance, and a representable last poll instant.
pub open spec fn wf_config(c: Config) -> bool {
    &&& 1 <= c.fetch_interval_s < i64::MAX
    &&& match c.last_fetched {
        Option::Some(t) => valid_ts(t),
        Option::None => true,
    }
}

impl Clone for Config {
    /// A clone carries exactly the same fields.
    fn clone(&self) -> (r: Self)
        ensures
            r == *self,
    {
        Config {
            hash: self.hash,
            source_url: self.source_url.clone(),
            fetch_interval_s: self.fetch_interval_s,
            try_parse_json: self.try_parse_json,
            active: self.active,
            last_fetched: self.last_fetched,
        }
    }
}

/// The config a registration builds: identity derived from the immutable
/// fields, active, never polled.
pub open spec fn spec_config_of_input(inp: ConfigInput) -> Config {
    Config {
        hash: spec_derive_identity(inp.source_url@, inp.fetch_interval_s, inp.try_parse_json),
        source_url: inp.source_url,
        fetch_interval_s: inp.fetch_interval_s,
        try_parse_json: inp.try_parse_json,
        last_fetched: Option::None,
        active: true,
    }
}

impl From<ConfigInput> for Config {
    /// Registers a target: derives its identity from the three immutable
    /// fields and starts it active, never polled.
    fn from(inp: ConfigInput) -> (c: Config)
        ensures
            c == spec_config_of_input(inp),
    {
        let hash = derive_identity(inp.source_url.as_str(), inp.fetch_interval_s, inp.try_parse_json);
        Config {
            hash,
            source_url: inp.source_url,
            fetch_interval_s: inp.fetch_interval_s,
            try_parse_json: inp.try_parse_json,
            last_fetched: Option::None,
            active: true,
        }
    }
}

impl vstd::std_specs::convert::FromSpecImpl<ConfigInput> for Config {
    open spec fn obeys_from_spec() -> bool {
        true
    }

    open spec fn from_spec(inp: ConfigInput) -> Config {
        spec_config_of_input(inp)
    }
}

/// A config as a persistence engine without unsigned integers or booleans
/// stores it.
pub struct RawConfig {
    pub hash: RawConfigHash,
    pub source_url: String,
    pub fetch_interval_s: i64,
    pub try_parse_json: i64,
    pub active: i64,
    pub last_fetched: Option<RawTimestamp>,
}

/// The row a config is stored under.
pub open spec fn spec_raw_of_config(c: Config) -> RawConfig {
    RawConfig {
        hash: c.hash as i64,
        source_url: c.source_url,
        fetch_interval_s: c.fetch_interval_s,
        try_parse_json: if c.try_parse_json {
            1
        } else {
            0
        },
        active: if c.active {
            1
        } else {
            0
        },
        last_fetched: c.last_fetched,
    }
}

impl From<Config> for RawConfig {
    /// Renders a config as the row under which it is stored.
    fn from(c: Config) -> (raw: RawConfig)
        ensures
            raw == spec_raw_of_config(c),
    {
        RawConfig {
            hash: c.hash as i64,
            source_url: c.source_url,
            fetch_interval_s: c.fetch_interval_s,
            try_parse_json: crate::db::bool_to_sqlite(c.try_parse_json),
            active: crate::db::bool_to_sqlite(c.active),
            last_fetched: c.last_fetched,
        }
    }
}

impl vstd::std_specs::convert::FromSpecImpl<Config> for RawConfig {
    open spec fn obeys_from_spec() -> bool {
        true
    }

    open spec fn from_spec(c: Config) -> RawConfig {
        spec_raw_of_config(c)
    }
}

impl Config {
    /// Reads a stored row back into a config. Errs exactly when the row
    /// cannot be scheduled: a non-positive or overlarge interval, or a last
    /// poll instant out of range.
    pub fn try_from(raw: RawConfig) -> (r: Result<Config, ()>)
        ensures
            r matches Ok(c) ==> {
                &&& wf_config(c)
                &&& c.hash == raw.hash as u64
                &&& c.source_url@ == raw.source_url@
                &&& c.fetch_interval_s == raw.fetch_interval_s
                &&& c.try_parse_json == (raw.try_parse_json == 1)
                &&& c.active == (raw.active == 1)
                &&& c.last_fetched == raw.last_fetched
            },
            r is Ok <==> 1 <= raw.fetch_interval_s < i64::MAX && match raw.last_fetched {
                Option::Some(t) => valid_ts(t),
                Option::None => true,
            },
    {
        if raw.fetch_interval_s < 1 || raw.fetch_interval_s == i64::MAX {
            return Err(());
        }
        match raw.last_fetched {
            Option::Some(t) => {
                if t < MIN_TIMESTAMP || t > MAX_TIMESTAMP {
                    return Err(());
                }
            },
            Option::None => {},
        }
        Ok(
            Config {
                hash: raw.hash as u64,
                source_url: raw.source_url,
                fetch_interval_s: raw.fetch_interval_s,
                try_parse_json: crate::db::sqlite_to_bool(raw.try_parse_json),
                active: crate::db::sqlite_to_bool(raw.active),
                last_fetched: raw.last_fetched,
            },
        )
    }
}

} // verus!
