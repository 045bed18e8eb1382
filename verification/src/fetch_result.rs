//! Fetch outcomes: the status taxonomy, the stored record form and its
//! canonical status tag, and the deduplication equality that turns the
//! append-only store into a run-length-encoded transition log.

use vstd::prelude::*;
use vstd::string::StrSliceExecFns;

use crate::config::{valid_ts, RawConfigHash, RawTimestamp};

verus! {

/// How one poll of a target ended.
#[derive(Debug, Clone, Copy, PartialEq, Eq, Structural)]
pub enum Status {
    /// The source answered with a success status code.
    HttpOk(u16),
    /// The source answered with a non-success status code.
    HttpErr(u16),
    /// No response: the transport failed before a status arrived.
    Error,
    /// The collector itself was not running at this instant; no request was
    /// made and the state of the source is unknown.
    Unknown,
}

/// The digit character for one decimal digit.
pub open spec fn spec_digit_char(d: nat) -> char {
    if d == 0 {
        '0'
    } else if d == 1 {
        '1'
    } else if d == 2 {
        '2'
    } else if d == 3 {
        '3'
    } else if d == 4 {
        '4'
    } else if d == 5 {
        '5'
    } else if d == 6 {
        '6'
    } else if d == 7 {
        '7'
    } else if d == 8 {
        '8'
    } else {
        '9'
    }
}

/// The decimal digits of `n`, most significant first, no leading zeros.
pub open spec fn spec_dec_digits(n: nat) -> Seq<char>
    decreases n,
{
    if n < 10 {
        seq![spec_digit_char(n)]
    } else {
        spec_dec_digits(n / 10).push(spec_digit_char(n % 10))
    }
}

/// The canonical status tag under which a status is persisted.
pub open spec fn spec_encode_status(st: Status) -> Seq<char> {
    match st {
        Status::HttpOk(c) => "HttpOk:"@ + spec_dec_digits(c as nat),
        Status::HttpErr(c) => "HttpErr:"@ + spec_dec_digits(c as nat),
        Status::Error => "Error"@,
        Status::Unknown => "Unknown"@,
    }
}

/// A one-character string for one decimal digit.
fn digit_str(d: u16) -> (r: &'static str)
    requires
        d < 10,
    ensures
        r@ == seq![spec_digit_char(d as nat)],
{
    proof {
        reveal_strlit("0");
        reveal_strlit("1");
        reveal_strlit("2");
        reveal_strlit("3");
        reveal_strlit("4");
        reveal_strlit("5");
        reveal_strlit("6");
        reveal_strlit("7");
        reveal_strlit("8");
        reveal_strlit("9");
    }
    let r = match d {
        0u16 => "0",
        1u16 => "1",
        2u16 => "2",
        3u16 => "3",
        4u16 => "4",
        5u16 => "5",
        6u16 => "6",
        7u16 => "7",
        8u16 => "8",
        _ => "9",
    };
    proof {
        assert(r@ =~= seq![spec_digit_char(d as nat)]);
    }
    r
}

/// The decimal digits of `n` as a string.
fn dec_digits(n: u16) -> (r: String)
    ensures
        r@ == spec_dec_digits(n as nat),
    decreases n,
{
    if n < 10 {
        digit_str(n).to_owned()
    } else {
        let mut s = dec_digits(n / 10);
        s.append(digit_str(n % 10));
        proof {
            assert(s@ =~= spec_dec_digits((n / 10) as nat).push(
                spec_digit_char((n % 10) as nat),
            ));
        }
        s
    }
}

/// The numeric value of a digit character; ten for anything else.
pub open spec fn spec_digit_val(ch: char) -> nat {
    if ch == '0' {
        0
    } else if ch == '1' {
        1
    } else if ch == '2' {
        2
    } else if ch == '3' {
        3
    } else if ch == '4' {
        4
    } else if ch == '5' {
        5
    } else if ch == '6' {
        6
    } else if ch == '7' {
        7
    } else if ch == '8' {
        8
    } else if ch == '9' {
        9
    } else {
        10
    }
}

/// Whether a character is a decimal digit.
pub open spec fn spec_is_digit(ch: char) -> bool {
    spec_digit_val(ch) < 10
}

/// The number denoted by a digit sequence, most significant first.
pub open spec fn spec_parse_digits(s: Seq<char>) -> nat
    decreases s.len(),
{
    if s.len() == 0 {
        0
    } else {
        spec_parse_digits(s.drop_last()) * 10 + spec_digit_val(s.last())
    }
}

/// Shape of a rendered number: nonempty, digits only, and no leading zero
/// unless the number is zero itself.
proof fn lemma_dec_digits_shape(n: nat)
    ensures
        spec_dec_digits(n).len() >= 1,
        forall|i: int|
            0 <= i < spec_dec_digits(n).len() ==> spec_is_digit(#[trigger] spec_dec_digits(n)[i]),
        spec_dec_digits(n).first() == '0' ==> n == 0,
    decreases n,
{
    if n >= 10 {
        lemma_dec_digits_shape(n / 10);
        let tail = spec_digit_char(n % 10);
        assert(spec_is_digit(tail));
        assert(spec_dec_digits(n) == spec_dec_digits(n / 10).push(tail));
        assert(forall|i: int|
            0 <= i < spec_dec_digits(n).len() ==> spec_is_digit(#[trigger] spec_dec_digits(n)[i]));
        assert(spec_dec_digits(n).first() == spec_dec_digits(n / 10).first());
    }
}

/// Parsing inverts rendering.
proof fn lemma_parse_of_dec_digits(n: nat)
    ensures
        spec_parse_digits(spec_dec_digits(n)) == n,
    decreases n,
{
    if n < 10 {
        assert(spec_parse_digits(Seq::<char>::empty()) == 0);
        assert(seq![spec_digit_char(n)].drop_last() =~= Seq::<char>::empty());
        assert(spec_digit_val(spec_digit_char(n)) == n);
    } else {
        lemma_parse_of_dec_digits(n / 10);
        assert(spec_dec_digits(n / 10).push(spec_digit_char(n % 10)).drop_last()
            =~= spec_dec_digits(n / 10));
        assert(spec_digit_val(spec_digit_char(n % 10)) == n % 10);
        assert((n / 10) * 10 + n % 10 == n) by {
            vstd::arithmetic::div_mod::lemma_fundamental_div_mod(n as int, 10);
        }
    }
}

/// The value of a digit prefix never exceeds the value of the whole.
proof fn lemma_parse_prefix_le(s: Seq<char>, i: int)
    requires
        0 <= i <= s.len(),
    ensures
        spec_parse_digits(s.take(i)) <= spec_parse_digits(s),
    decreases s.len() - i,
{
    if i == s.len() {
        assert(s.take(i) =~= s);
    } else {
        lemma_parse_prefix_le(s, i + 1);
        assert(s.take(i + 1).drop_last() =~= s.take(i));
        assert(spec_parse_digits(s.take(i)) <= spec_parse_digits(s.take(i + 1)));
    }
}

/// A nonempty digit sequence without a leading zero is the rendering of its
/// own value: rendering is the unique canonical form.
proof fn lemma_digits_canonical(s: Seq<char>)
    requires
        s.len() >= 1,
        forall|i: int| 0 <= i < s.len() ==> spec_is_digit(#[trigger] s[i]),
        s.len() > 1 ==> s.first() != '0',
    ensures
        s == spec_dec_digits(spec_parse_digits(s)),
    decreases s.len(),
{
    if s.len() == 1 {
        let v = spec_digit_val(s[0]);
        assert(spec_parse_digits(Seq::<char>::empty()) == 0);
        assert(s.drop_last() =~= Seq::<char>::empty());
        assert(spec_parse_digits(s) == v);
        assert(spec_digit_char(v) == s[0]);
        assert(s =~= spec_dec_digits(v));
    } else {
        let hd = s.drop_last();
        assert(forall|i: int| 0 <= i < hd.len() ==> spec_is_digit(#[trigger] hd[i]));
        lemma_digits_canonical(hd);
        let p = spec_parse_digits(hd);
        let d = spec_digit_val(s.last());
        if p == 0 {
            assert(hd == spec_dec_digits(0));
            assert(hd.len() == 1);
            assert(s.first() == hd.first());
            assert(false);
        }
        assert(spec_parse_digits(s) == p * 10 + d);
        assert(p * 10 + d >= 10) by (nonlinear_arith)
            requires
                p >= 1,
                d >= 0,
        ;
        assert((p * 10 + d) / 10 == p && (p * 10 + d) % 10 == d) by (nonlinear_arith)
            requires
                0 <= d < 10,
                p >= 0,
        ;
        assert(spec_dec_digits(p * 10 + d) == spec_dec_digits(p).push(spec_digit_char(d)));
        assert(spec_digit_char(d) == s.last());
        assert(s =~= hd.push(s.last()));
    }
}

/// The digit value of a character, or an error for anything else.
fn digit_val(c: char) -> (r: Result<u16, ()>)
    ensures
        r matches Ok(v) ==> v == spec_digit_val(c) && v < 10,
        r is Err ==> !spec_is_digit(c),
{
    match c {
        '0' => Ok(0),
        '1' => Ok(1),
        '2' => Ok(2),
        '3' => Ok(3),
        '4' => Ok(4),
        '5' => Ok(5),
        '6' => Ok(6),
        '7' => Ok(7),
        '8' => Ok(8),
        '9' => Ok(9),
        _ => Err(()),
    }
}

/// Parses the characters of `s` from position `from` to the end as a
/// canonically rendered status code; errs exactly when they are not one.
fn parse_code(s: &str, from: usize) -> (r: Result<u16, ()>)
    requires
        from <= s@.len(),
    ensures
        r matches Ok(c) ==> s@.skip(from as int) == spec_dec_digits(c as nat),
        r is Err ==> forall|c: u16| s@.skip(from as int) != spec_dec_digits(c as nat),
{
    let ghost rest = s@.skip(from as int);
    let n = s.unicode_len();
    if from >= n {
        proof {
            assert forall|c: u16| rest != spec_dec_digits(c as nat) by {
                lemma_dec_digits_shape(c as nat);
            }
        }
        return Err(());
    }
    let first = s.get_char(from);
    if first == '0' && n - from > 1 {
        proof {
            assert forall|c: u16| rest != spec_dec_digits(c as nat) by {
                lemma_dec_digits_shape(c as nat);
                if rest == spec_dec_digits(c as nat) {
                    assert(rest.first() == '0');
                    assert(c as nat == 0);
                    assert(spec_dec_digits(0).len() == 1);
                    assert(rest.len() > 1);
                }
            }
        }
        return Err(());
    }
    let mut acc: u32 = 0;
    let mut i = from;
    while i < n
        invariant
            from <= i <= n,
            n == s@.len(),
            rest == s@.skip(from as int),
            rest.len() == n - from,
            acc <= 65535,
            acc == spec_parse_digits(s@.subrange(from as int, i as int)),
            forall|j: int| from <= j < i ==> spec_is_digit(#[trigger] s@[j]),
        decreases n - i,
    {
        let c = s.get_char(i);
        let v = match digit_val(c) {
            Ok(v) => v,
            Err(_) => {
                proof {
                    assert forall|cd: u16| rest != spec_dec_digits(cd as nat) by {
                        lemma_dec_digits_shape(cd as nat);
                        if rest == spec_dec_digits(cd as nat) {
                            assert(spec_is_digit(rest[i - from]));
                            assert(rest[i - from] == s@[i as int]);
                        }
                    }
                }
                return Err(());
            },
        };
        proof {
            assert(s@.subrange(from as int, i + 1).drop_last() =~= s@.subrange(
                from as int,
                i as int,
            ));
        }
        acc = acc * 10 + (v as u32);
        if acc > 65535 {
            proof {
                assert(acc == spec_parse_digits(s@.subrange(from as int, i + 1)));
                assert forall|cd: u16| rest != spec_dec_digits(cd as nat) by {
                    if rest == spec_dec_digits(cd as nat) {
                        lemma_parse_of_dec_digits(cd as nat);
                        lemma_parse_prefix_le(rest, i + 1 - from);
                        assert(rest.take(i + 1 - from) =~= s@.subrange(from as int, i + 1));
                        assert(spec_parse_digits(rest) == cd as nat);
                    }
                }
            }
            return Err(());
        }
        i = i + 1;
    }
    proof {
        assert(rest =~= s@.subrange(from as int, n as int));
        assert(rest.len() >= 1);
        assert(rest.first() == s@[from as int]);
        if rest.len() > 1 {
            assert(rest.first() != '0');
        }
        lemma_digits_canonical(rest);
        assert(rest == spec_dec_digits(acc as nat));
    }
    Ok(acc as u16)
}

/// Whether `p` is a prefix of `s`, by characters.
fn has_prefix(s: &str, p: &str) -> (r: bool)
    ensures
        r <==> (s@.len() >= p@.len() && s@.subrange(0, p@.len() as int) == p@),
{
    let pl = p.unicode_len();
    let sl = s.unicode_len();
    if sl < pl {
        return false;
    }
    let mut i: usize = 0;
    while i < pl
        invariant
            0 <= i <= pl,
            pl == p@.len(),
            sl == s@.len(),
            sl >= pl,
            forall|j: int| 0 <= j < i ==> s@[j] == p@[j],
        decreases pl - i,
    {
        if s.get_char(i) != p.get_char(i) {
            proof {
                assert(s@.subrange(0, pl as int)[i as int] == s@[i as int]);
            }
            return false;
        }
        i = i + 1;
    }
    proof {
        assert(s@.subrange(0, pl as int) =~= p@);
    }
    true
}

/// Whether two strings hold the same characters.
fn str_eq(s: &str, p: &str) -> (r: bool)
    ensures
        r <==> s@ == p@,
{
    let pl = p.unicode_len();
    let sl = s.unicode_len();
    if sl != pl {
        return false;
    }
    let mut i: usize = 0;
    while i < pl
        invariant
            0 <= i <= pl,
            pl == p@.len(),
            sl == s@.len(),
            sl == pl,
            forall|j: int| 0 <= j < i ==> s@[j] == p@[j],
        decreases pl - i,
    {
        if s.get_char(i) != p.get_char(i) {
            return false;
        }
        i = i + 1;
    }
    proof {
        assert(s@ =~= p@);
    }
    true
}

/// How each rendered status tag begins and ends.
proof fn lemma_enc_shape(st: Status)
    ensures
        st matches Status::HttpOk(c) ==> spec_encode_status(st).len() >= 8 && spec_encode_status(
            st,
        ).subrange(0, 7) == "HttpOk:"@ && spec_encode_status(st).skip(7) == spec_dec_digits(
            c as nat,
        ),
        st matches Status::HttpErr(c) ==> spec_encode_status(st).len() >= 9 && spec_encode_status(
            st,
        ).subrange(0, 8) == "HttpErr:"@ && spec_encode_status(st).skip(8) == spec_dec_digits(
            c as nat,
        ),
{
    reveal_strlit("HttpOk:");
    reveal_strlit("HttpErr:");
    match st {
        Status::HttpOk(c) => {
            lemma_dec_digits_shape(c as nat);
            let e = "HttpOk:"@ + spec_dec_digits(c as nat);
            assert(e.subrange(0, 7) =~= "HttpOk:"@);
            assert(e.skip(7) =~= spec_dec_digits(c as nat));
        },
        Status::HttpErr(c) => {
            lemma_dec_digits_shape(c as nat);
            let e = "HttpErr:"@ + spec_dec_digits(c as nat);
            assert(e.subrange(0, 8) =~= "HttpErr:"@);
            assert(e.skip(8) =~= spec_dec_digits(c as nat));
        },
        _ => {},
    }
}

/// Reads a stored status tag back; errs exactly on text that no status
/// renders to, the mark of a corrupted row.
pub fn decode_status(s: &str) -> (r: Result<Status, ()>)
    ensures
        r matches Ok(st) ==> s@ == spec_encode_status(st),
        forall|st: Status| s@ == spec_encode_status(st) ==> r == Ok::<Status, ()>(st),
{
    proof {
        reveal_strlit("HttpOk:");
        reveal_strlit("HttpErr:");
        reveal_strlit("Error");
        reveal_strlit("Unknown");
    }
    let ok_pre = has_prefix(s, "HttpOk:");
    let err_pre = if ok_pre {
        false
    } else {
        has_prefix(s, "HttpErr:")
    };
    let r: Result<Status, ()> = if ok_pre {
        match parse_code(s, 7) {
            Ok(c) => {
                proof {
                    assert(s@ =~= s@.subrange(0, 7) + s@.skip(7));
                }
                Ok(Status::HttpOk(c))
            },
            Err(_) => Err(()),
        }
    } else if err_pre {
        match parse_code(s, 8) {
            Ok(c) => {
                proof {
                    assert(s@ =~= s@.subrange(0, 8) + s@.skip(8));
                }
                Ok(Status::HttpErr(c))
            },
            Err(_) => Err(()),
        }
    } else if str_eq(s, "Error") {
        Ok(Status::Error)
    } else if str_eq(s, "Unknown") {
        Ok(Status::Unknown)
    } else {
        Err(())
    };
    proof {
        assert forall|st: Status| s@ == spec_encode_status(st) implies r == Ok::<Status, ()>(
            st,
        ) by {
            lemma_enc_shape(st);
            match st {
                Status::HttpOk(c) => {
                    assert(s@.subrange(0, 7) == "HttpOk:"@);
                    assert(ok_pre);
                    assert(s@.skip(7) == spec_dec_digits(c as nat));
                    match r {
                        Ok(st2) => {
                            match st2 {
                                Status::HttpOk(c2) => {
                                    assert(s@.skip(7) == spec_dec_digits(c2 as nat));
                                    lemma_parse_of_dec_digits(c as nat);
                                    lemma_parse_of_dec_digits(c2 as nat);
                                    assert(c == c2);
                                },
                                _ => {
                                    assert(false);
                                },
                            }
                        },
                        Err(_) => {
                            assert(false);
                        },
                    }
                },
                Status::HttpErr(c) => {
                    assert(s@.subrange(0, 8) == "HttpErr:"@);
                    assert(s@[4] == 'E');
                    if ok_pre {
                        assert(s@.subrange(0, 7)[4] == s@[4]);
                        assert("HttpOk:"@[4] == 'O');
                        assert(false);
                    }
                    assert(err_pre);
                    assert(s@.skip(8) == spec_dec_digits(c as nat));
                    match r {
                        Ok(st2) => {
                            match st2 {
                                Status::HttpErr(c2) => {
                                    assert(s@.skip(8) == spec_dec_digits(c2 as nat));
                                    lemma_parse_of_dec_digits(c as nat);
                                    lemma_parse_of_dec_digits(c2 as nat);
                                    assert(c == c2);
                                },
                                _ => {
                                    assert(false);
                                },
                            }
                        },
                        Err(_) => {
                            assert(false);
                        },
                    }
                },
                Status::Error => {
                    assert(s@ == "Error"@);
                    assert(s@.len() == 5);
                    assert(!ok_pre && !err_pre);
                },
                Status::Unknown => {
                    assert(s@ == "Unknown"@);
                    assert(s@.len() == 7);
                    if ok_pre {
                        assert(s@.subrange(0, 7) =~= s@);
                        assert("HttpOk:"@[0] == 'H' && s@[0] == 'U');
                        assert(false);
                    }
                    assert(!err_pre);
                },
            }
        }
    }
    r
}

/// One observed or synthesized outcome for a config at an instant.
#[derive(Debug)]
pub struct FetchRecord {
    /// Identity of the config this outcome belongs to.
    pub config: u64,
    /// The sampled instant, in seconds.
    pub fetched_at: i64,
    /// When the record was produced; differs from `fetched_at` for
    /// synthesized records.
    pub created_at: i64,
    /// The target URL at sample time.
    pub source_url: String,
    /// How the poll ended.
    pub status: Status,
    /// The response body, when one was captured.
    pub body_text: Option<String>,
    /// Whether the body parsed as JSON; absent when validation was not
    /// requested or no body was captured.
    pub valid_json: Option<bool>,
    /// True for a record read from or written to the store; false for one
    /// synthesized for a query response and never stored.
    pub from_db: bool,
}

/// View-level equality of optional strings.
pub open spec fn spec_opt_string_eq(a: Option<String>, b: Option<String>) -> bool {
    match (a, b) {
        (Option::None, Option::None) => true,
        (Option::Some(x), Option::Some(y)) => x@ == y@,
        _ => false,
    }
}

/// The equality under which the store deduplicates: everything but the two
/// instants. Two records equal here are the same observed state, so storing
/// both would record no transition.
pub open spec fn spec_dedup_eq(a: FetchRecord, b: FetchRecord) -> bool {
    &&& a.config == b.config
    &&& a.source_url@ == b.source_url@
    &&& a.status == b.status
    &&& spec_opt_string_eq(a.body_text, b.body_text)
    &&& a.valid_json == b.valid_json
    &&& a.from_db == b.from_db
}

/// A record as it looks once stored: reading it back marks it persisted.
pub open spec fn spec_persisted(rec: FetchRecord) -> FetchRecord {
    FetchRecord { from_db: true, ..rec }
}

/// A record the system can hold: both instants representable.
pub open spec fn wf_record(rec: FetchRecord) -> bool {
    &&& valid_ts(rec.fetched_at)
    &&& valid_ts(rec.created_at)
}

impl Clone for FetchRecord {
    /// A clone carries exactly the same fields.
    fn clone(&self) -> (r: Self)
        ensures
            r == *self,
    {
        FetchRecord {
            config: self.config,
            fetched_at: self.fetched_at,
            created_at: self.created_at,
            source_url: self.source_url.clone(),
            status: self.status,
            body_text: match &self.body_text {
                Option::Some(t) => Option::Some(t.clone()),
                Option::None => Option::None,
            },
            valid_json: self.valid_json,
            from_db: self.from_db,
        }
    }
}

/// Whether two optional strings hold the same text.
fn opt_str_eq(a: &Option<String>, b: &Option<String>) -> (r: bool)
    ensures
        r == spec_opt_string_eq(*a, *b),
{
    match (a, b) {
        (Option::None, Option::None) => true,
        (Option::Some(x), Option::Some(y)) => str_eq(x.as_str(), y.as_str()),
        _ => false,
    }
}

impl PartialEq for FetchRecord {
    /// Equality of fetch records is the deduplication equality: the two
    /// instants are deliberately left out of the comparison.
    fn eq(&self, other: &Self) -> (r: bool)
        ensures
            r == spec_dedup_eq(*self, *other),
    {
        self.config == other.config && self.source_url == other.source_url && self.status
            == other.status && opt_str_eq(&self.body_text, &other.body_text) && match (
            self.valid_json,
            other.valid_json,
        ) {
            (Option::None, Option::None) => true,
            (Option::Some(x), Option::Some(y)) => x == y,
            _ => false,
        } && self.from_db == other.from_db
    }
}

impl vstd::std_specs::cmp::PartialEqSpecImpl for FetchRecord {
    open spec fn obeys_eq_spec() -> bool {
        true
    }

    open spec fn eq_spec(&self, other: &FetchRecord) -> bool {
        spec_dedup_eq(*self, *other)
    }
}

/// A fetch record as a persistence engine stores it: the identity widened to
/// a signed column, the status rendered as its canonical tag.
pub struct RawFetchRecord {
    pub config: RawConfigHash,
    pub fetched_at: RawTimestamp,
    pub created_at: RawTimestamp,
    pub source_url: String,
    pub status: String,
    pub body_text: Option<String>,
    pub valid_json: Option<bool>,
}

/// The relation between a stored row and the record it represents.
pub open spec fn spec_raw_represents(raw: RawFetchRecord, rec: FetchRecord) -> bool {
    &&& raw.config == rec.config as i64
    &&& raw.fetched_at == rec.fetched_at
    &&& raw.created_at == rec.created_at
    &&& raw.source_url@ == rec.source_url@
    &&& raw.status@ == spec_encode_status(rec.status)
    &&& spec_opt_string_eq(raw.body_text, rec.body_text)
    &&& raw.valid_json == rec.valid_json
}

/// Whether some status renders to this stored tag; rows whose tag no status
/// renders to are corrupt.
pub open spec fn spec_status_decodable(s: Seq<char>) -> bool {
    exists|st: Status| s == spec_encode_status(st)
}

impl RawFetchRecord {
    /// Renders a record as the row under which it is stored.
    pub fn from(rec: FetchRecord) -> (raw: RawFetchRecord)
        ensures
            spec_raw_represents(raw, rec),
    {
        let status = encode_status(&rec.status);
        RawFetchRecord {
            config: rec.config as i64,
            fetched_at: rec.fetched_at,
            created_at: rec.created_at,
            source_url: rec.source_url,
            status,
            body_text: rec.body_text,
            valid_json: rec.valid_json,
        }
    }
}

impl FetchRecord {
    /// Reads a stored row back into a record. Errs exactly when the row is
    /// corrupt: a status tag no status renders to, or an instant out of
    /// range. A row read back is persisted by definition.
    pub fn try_from(raw: RawFetchRecord) -> (r: Result<FetchRecord, ()>)
        ensures
            r matches Ok(rec) ==> spec_raw_represents(raw, rec) && rec.from_db == true
                && wf_record(rec),
            r is Ok <==> spec_status_decodable(raw.status@) && valid_ts(raw.fetched_at)
                && valid_ts(raw.created_at),
    {
        let status = match decode_status(raw.status.as_str()) {
            Ok(st) => st,
            Err(_) => {
                proof {
                    assert(!spec_status_decodable(raw.status@));
                }
                return Err(());
            },
        };
        if raw.fetched_at < crate::config::MIN_TIMESTAMP || raw.fetched_at
            > crate::config::MAX_TIMESTAMP {
            return Err(());
        }
        if raw.created_at < crate::config::MIN_TIMESTAMP || raw.created_at
            > crate::config::MAX_TIMESTAMP {
            return Err(());
        }
        proof {
            let rc = raw.config;
            assert((rc as u64) as i64 == rc) by (bit_vector);
        }
        Ok(
            FetchRecord {
                config: raw.config as u64,
                fetched_at: raw.fetched_at,
                created_at: raw.created_at,
                source_url: raw.source_url,
                status,
                body_text: raw.body_text,
                valid_json: raw.valid_json,
                from_db: true,
            },
        )
    }
}

/// The body of a record as a query consumer sees it: decoded JSON when the
/// record was validated as JSON, plain text otherwise.
pub enum PublicFetchRecordBody {
    PlainText(String),
    Json(serde_json::Value),
}

/// A record as a query consumer sees it: the body lifted into its decoded
/// form.
pub struct PublicFetchRecord {
    pub config: u64,
    pub fetched_at: i64,
    pub created_at: i64,
    pub source_url: String,
    pub status: Status,
    pub data: Option<PublicFetchRecordBody>,
    /// Actual record, or a result of decompression?
    pub from_db: bool,
}

impl PublicFetchRecord {
    /// Lifts a record for a query response: a body marked valid JSON is
    /// parsed and carried as JSON, any other body as plain text, and the
    /// scalar fields move unchanged.
    pub fn from(val: FetchRecord) -> (r: PublicFetchRecord)
        ensures
            r.config == val.config,
            r.fetched_at == val.fetched_at,
            r.created_at == val.created_at,
            r.source_url@ == val.source_url@,
            r.status == val.status,
            r.from_db == val.from_db,
            (match val.body_text {
                Option::Some(txt) => {
                    &&& val.valid_json == Option::Some(true) && crate::json::json_accepts(txt@)
                        ==> (r.data matches Option::Some(PublicFetchRecordBody::Json(_)))
                    &&& (val.valid_json != Option::Some(true) || !crate::json::json_accepts(txt@))
                        ==> (r.data matches Option::Some(PublicFetchRecordBody::PlainText(t))
                        && t@ == txt@)
                },
                Option::None => r.data is None,
            }),
    {
        let data = match (val.valid_json, val.body_text) {
            (Option::Some(true), Option::Some(txt)) => Option::Some(
                match crate::json::parse_json_value(txt.as_str()) {
                    Option::Some(v) => PublicFetchRecordBody::Json(v),
                    Option::None => PublicFetchRecordBody::PlainText(txt),
                },
            ),
            (_, Option::Some(txt)) => Option::Some(PublicFetchRecordBody::PlainText(txt)),
            _ => Option::None,
        };
        PublicFetchRecord {
            config: val.config,
            fetched_at: val.fetched_at,
            created_at: val.created_at,
            source_url: val.source_url,
            status: val.status,
            data,
            from_db: val.from_db,
        }
    }
}

/// Renders a status as its canonical stored tag.
pub fn encode_status(st: &Status) -> (r: String)
    ensures
        r@ == spec_encode_status(*st),
{
    match st {
        Status::HttpOk(c) => {
            let mut s = String::from_str("HttpOk:");
            s.append(dec_digits(*c).as_str());
            s
        },
        Status::HttpErr(c) => {
            let mut s = String::from_str("HttpErr:");
            s.append(dec_digits(*c).as_str());
            s
        },
        Status::Error => "Error".to_owned(),
        Status::Unknown => "Unknown".to_owned(),
    }
}

} // verus!
