//! Runtime configuration read through a key lookup (the environment, in the
//! program around this library).

use vstd::prelude::*;
use vstd::string::StringExecFns;

use crate::text::{chars_of, decimal, lemma_decimal_reads_back, parse_unsigned, parse_unsigned_chars, string_of, trim, trim_chars};

verus! {

/// Poll interval, in seconds, when none is configured.
pub const DEFAULT_POLL_INTERVAL_SECS: u64 = 1;

/// Debounce threshold when none is configured.
pub const DEFAULT_DEBOUNCE: u32 = 2;

/// Fully validated configuration for the daemon.
#[derive(Debug, Clone)]
pub struct Config {
    /// SwitchBot API open token.
    pub token: String,
    /// SwitchBot API secret key (used to sign requests).
    pub secret: String,
    /// Target SwitchBot device id to switch on/off.
    pub device_id: String,
    /// How often to poll for camera usage, in seconds.
    pub poll_interval_secs: u64,
    /// Consecutive identical readings required to confirm a state change.
    pub debounce: u32,
    /// Process name prefixes whose open camera handles are ignored.
    pub ignore_processes: Vec<String>,
}

/// The abstract content of a [`Config`].
pub struct ConfigModel {
    pub token: Seq<char>,
    pub secret: Seq<char>,
    pub device_id: Seq<char>,
    pub poll_interval_secs: nat,
    pub debounce: nat,
    pub ignore_processes: Seq<Seq<char>>,
}

impl View for Config {
    type V = ConfigModel;

    open spec fn view(&self) -> ConfigModel {
        ConfigModel {
            token: self.token@,
            secret: self.secret@,
            device_id: self.device_id@,
            poll_interval_secs: self.poll_interval_secs as nat,
            debounce: self.debounce as nat,
            ignore_processes: self.ignore_processes.deep_view(),
        }
    }
}

/// The answers of a lookup to the keys, in the order they are consulted:
/// `TOKEN`, `SECRET`, `DEVICE_ID`, `ONAIR_POLL_INTERVAL_SECS`,
/// `ONAIR_DEBOUNCE`, `ONAIR_IGNORE_PROCESSES`.
pub type Answers = (
    Option<Seq<char>>,
    Option<Seq<char>>,
    Option<Seq<char>>,
    Option<Seq<char>>,
    Option<Seq<char>>,
    Option<Seq<char>>,
);

/// The error for a required key that is missing or blank.
pub open spec fn required_error(key: Seq<char>) -> Seq<char> {
    "environment variable "@ + key + " is required (set it in .env)"@
}

/// The error for a number that does not read.
pub open spec fn invalid_error(key: Seq<char>, raw: Seq<char>) -> Seq<char> {
    "environment variable "@ + key + " has an invalid value: "@ + raw
}

/// A required value: present and not blank, and then kept as it is.
pub open spec fn required_value(key: Seq<char>, value: Option<Seq<char>>) -> Result<
    Seq<char>,
    Seq<char>,
> {
    match value {
        Some(v) => if trim(v).len() > 0 {
            Ok(v)
        } else {
            Err(required_error(key))
        },
        None => Err(required_error(key)),
    }
}

/// An optional number: the default when absent, else the trimmed text read
/// as an unsigned number no larger than `max`.
pub open spec fn number_or(key: Seq<char>, value: Option<Seq<char>>, default: nat, max: nat) -> Result<
    nat,
    Seq<char>,
> {
    match value {
        Some(raw) => match parse_unsigned(trim(raw), max) {
            Some(n) => Ok(n),
            None => Err(invalid_error(key, raw)),
        },
        None => Ok(default),
    }
}

/// The pieces of `s` between commas (one piece when there is no comma).
pub open spec fn split_commas(s: Seq<char>) -> Seq<Seq<char>>
    decreases s.len(),
{
    if s.len() == 0 {
        seq![Seq::empty()]
    } else {
        let prev = split_commas(s.drop_last());
        if s.last() == ',' {
            prev.push(Seq::empty())
        } else {
            prev.drop_last().push(prev.last().push(s.last()))
        }
    }
}

/// The trimmed pieces that are not empty.
pub open spec fn kept_items(pieces: Seq<Seq<char>>) -> Seq<Seq<char>>
    decreases pieces.len(),
{
    if pieces.len() == 0 {
        Seq::empty()
    } else if trim(pieces.last()).len() > 0 {
        kept_items(pieces.drop_last()).push(trim(pieces.last()))
    } else {
        kept_items(pieces.drop_last())
    }
}

/// The comma-separated list of names in `s`, trimmed, without empty names.
pub open spec fn name_list(s: Seq<char>) -> Seq<Seq<char>> {
    kept_items(split_commas(s))
}

/// The ignored process prefixes: the configured list, or
/// `pipewire,wireplumber`.
pub open spec fn ignore_list(value: Option<Seq<char>>) -> Seq<Seq<char>> {
    match value {
        Some(v) => name_list(v),
        None => name_list("pipewire,wireplumber"@),
    }
}

/// `n`, raised to one when it is zero.
pub open spec fn at_least_one(n: nat) -> nat {
    if n == 0 {
        1
    } else {
        n
    }
}

/// The configuration that the answers give, or the first error.
pub open spec fn config_from(a: Answers) -> Result<ConfigModel, Seq<char>> {
    match required_value("TOKEN"@, a.0) {
        Err(e) => Err(e),
        Ok(token) => match required_value("SECRET"@, a.1) {
            Err(e) => Err(e),
            Ok(secret) => match required_value("DEVICE_ID"@, a.2) {
                Err(e) => Err(e),
                Ok(device_id) => match number_or(
                    "ONAIR_POLL_INTERVAL_SECS"@,
                    a.3,
                    DEFAULT_POLL_INTERVAL_SECS as nat,
                    u64::MAX as nat,
                ) {
                    Err(e) => Err(e),
                    Ok(poll) => match number_or(
                        "ONAIR_DEBOUNCE"@,
                        a.4,
                        DEFAULT_DEBOUNCE as nat,
                        u32::MAX as nat,
                    ) {
                        Err(e) => Err(e),
                        Ok(debounce) => Ok(
                            ConfigModel {
                                token,
                                secret,
                                device_id,
                                poll_interval_secs: at_least_one(poll),
                                debounce: at_least_one(debounce),
                                ignore_processes: ignore_list(a.5),
                            },
                        ),
                    },
                },
            },
        },
    }
}

/// A configuration that is built is fully validated: the required values are
/// not blank, the poll interval and debounce are at least one, and no
/// ignored prefix is empty or has surrounding white space.
pub proof fn lemma_config_is_validated(a: Answers)
    requires
        config_from(a) is Ok,
    ensures
        ({
            let c = config_from(a)->Ok_0;
            &&& trim(c.token).len() > 0
            &&& trim(c.secret).len() > 0
            &&& trim(c.device_id).len() > 0
            &&& c.poll_interval_secs >= 1
            &&& 1 <= c.debounce <= u32::MAX
            &&& forall|i: int|
                0 <= i < c.ignore_processes.len() ==> {
                    &&& (#[trigger] c.ignore_processes[i]).len() > 0
                    &&& trim(c.ignore_processes[i]) == c.ignore_processes[i]
                }
        }),
{
    let v = match a.5 {
        Some(v) => v,
        None => "pipewire,wireplumber"@,
    };
    lemma_kept_items_trimmed(split_commas(v));
}

proof fn lemma_kept_items_trimmed(pieces: Seq<Seq<char>>)
    ensures
        forall|i: int|
            0 <= i < kept_items(pieces).len() ==> {
                &&& (#[trigger] kept_items(pieces)[i]).len() > 0
                &&& trim(kept_items(pieces)[i]) == kept_items(pieces)[i]
            },
    decreases pieces.len(),
{
    if pieces.len() > 0 {
        let prev = kept_items(pieces.drop_last());
        lemma_kept_items_trimmed(pieces.drop_last());
        crate::text::lemma_trim_idempotent(pieces.last());
        assert forall|i: int| 0 <= i < kept_items(pieces).len() implies {
            &&& (#[trigger] kept_items(pieces)[i]).len() > 0
            &&& trim(kept_items(pieces)[i]) == kept_items(pieces)[i]
        } by {
            if i < prev.len() {
                assert(kept_items(pieces)[i] == prev[i]);
            }
        }
    }
}

/// Whether `get` answered `value` for `key`.
pub open spec fn answered<F: Fn(&str) -> Option<String>>(
    get: F,
    key: &str,
    value: Option<String>,
) -> bool {
    call_ensures(get, (key,), value)
}

/// The abstract answers of a lookup.
pub open spec fn answers_model(
    a: (Option<String>, Option<String>, Option<String>, Option<String>, Option<String>, Option<String>),
) -> Answers {
    (
        a.0.deep_view(),
        a.1.deep_view(),
        a.2.deep_view(),
        a.3.deep_view(),
        a.4.deep_view(),
        a.5.deep_view(),
    )
}

/// Whether `get` gave the answers `a` to the keys that are consulted: each
/// key in turn, as long as the answers before it were usable.
pub open spec fn consulted<F: Fn(&str) -> Option<String>>(
    get: F,
    a: (Option<String>, Option<String>, Option<String>, Option<String>, Option<String>, Option<String>),
) -> bool {
    let m = answers_model(a);
    let token_ok = required_value("TOKEN"@, m.0) is Ok;
    let secret_ok = token_ok && required_value("SECRET"@, m.1) is Ok;
    let device_ok = secret_ok && required_value("DEVICE_ID"@, m.2) is Ok;
    let poll_ok = device_ok && number_or(
        "ONAIR_POLL_INTERVAL_SECS"@,
        m.3,
        DEFAULT_POLL_INTERVAL_SECS as nat,
        u64::MAX as nat,
    ) is Ok;
    let debounce_ok = poll_ok && number_or(
        "ONAIR_DEBOUNCE"@,
        m.4,
        DEFAULT_DEBOUNCE as nat,
        u32::MAX as nat,
    ) is Ok;
    &&& answered(get, "TOKEN", a.0)
    &&& token_ok ==> answered(get, "SECRET", a.1)
    &&& secret_ok ==> answered(get, "DEVICE_ID", a.2)
    &&& device_ok ==> answered(get, "ONAIR_POLL_INTERVAL_SECS", a.3)
    &&& poll_ok ==> answered(get, "ONAIR_DEBOUNCE", a.4)
    &&& debounce_ok ==> answered(get, "ONAIR_IGNORE_PROCESSES", a.5)
}

/// The abstract outcome of building a configuration.
pub open spec fn config_result(r: Result<Config, String>) -> Result<ConfigModel, Seq<char>> {
    match r {
        Ok(c) => Ok(c@),
        Err(e) => Err(e@),
    }
}

/// The abstract outcome of reading a text value.
pub open spec fn text_result(r: Result<String, String>) -> Result<Seq<char>, Seq<char>> {
    match r {
        Ok(v) => Ok(v@),
        Err(e) => Err(e@),
    }
}

/// A required value: present and not blank.
fn required(value: Option<String>, key: &str) -> (r: Result<String, String>)
    ensures
        text_result(r) == required_value(key@, value.deep_view()),
{
    match value {
        Some(v) => {
            let chars = chars_of(v.as_str());
            if trim_chars(&chars).len() > 0 {
                return Ok(v);
            }
        },
        None => {},
    }
    let mut message = String::from_str("environment variable ");
    message.append(key);
    message.append(" is required (set it in .env)");
    Err(message)
}

/// An optional unsigned number no larger than `max`, or `default` when the
/// value is absent.
fn parse_or(value: &Option<String>, key: &str, default: u64, max: u64) -> (r: Result<u64, String>)
    ensures
        match number_or(key@, value.deep_view(), default as nat, max as nat) {
            Ok(n) => r == Ok::<u64, String>(n as u64),
            Err(e) => r matches Err(m) && m@ == e,
        },
{
    match value {
        Some(raw) => {
            let chars = chars_of(raw.as_str());
            let trimmed = trim_chars(&chars);
            match parse_unsigned_chars(&trimmed, max) {
                Some(n) => Ok(n),
                None => {
                    let mut message = String::from_str("environment variable ");
                    message.append(key);
                    message.append(" has an invalid value: ");
                    message.append(raw.as_str());
                    Err(message)
                },
            }
        },
        None => Ok(default),
    }
}

/// The comma-separated names in `s`, trimmed, without empty names.
pub fn parse_name_list(s: &str) -> (names: Vec<String>)
    ensures
        names.deep_view() == name_list(s@),
{
    let chars = chars_of(s);
    let mut names: Vec<String> = Vec::new();
    let mut current: Vec<char> = Vec::new();
    let ghost mut pieces: Seq<Seq<char>> = Seq::empty();
    let mut i: usize = 0;
    assert(chars@.take(0) =~= Seq::<char>::empty());
    assert(split_commas(chars@.take(0)) =~= pieces.push(current@));
    while i < chars.len()
        invariant
            i <= chars.len(),
            split_commas(chars@.take(i as int)) == pieces.push(current@),
            names.deep_view() == kept_items(pieces),
        decreases chars.len() - i,
    {
        let c = chars[i];
        assert(chars@.take(i + 1).drop_last() =~= chars@.take(i as int));
        assert(chars@.take(i + 1).last() == c);
        let ghost prev = pieces.push(current@);
        if c == ',' {
            let trimmed = trim_chars(&current);
            proof {
                assert(pieces.push(current@).drop_last() =~= pieces);
            }
            if trimmed.len() > 0 {
                let name = string_of(&trimmed);
                let ghost before = names.deep_view();
                names.push(name);
                assert(names.deep_view() =~= before.push(trimmed@));
            }
            proof {
                pieces = pieces.push(current@);
            }
            current = Vec::new();
            assert(split_commas(chars@.take(i + 1)) =~= pieces.push(current@));
        } else {
            current.push(c);
            assert(prev.drop_last() =~= pieces);
            assert(split_commas(chars@.take(i + 1)) =~= pieces.push(current@));
        }
        i = i + 1;
    }
    assert(chars@.take(chars.len() as int) =~= chars@);
    let trimmed = trim_chars(&current);
    assert(pieces.push(current@).drop_last() =~= pieces);
    if trimmed.len() > 0 {
        let name = string_of(&trimmed);
        let ghost before = names.deep_view();
        names.push(name);
        assert(names.deep_view() =~= before.push(trimmed@));
    }
    names
}

impl Config {
    /// Build the configuration from an arbitrary key lookup.
    ///
    /// The keys are consulted in turn — `TOKEN`, `SECRET`, `DEVICE_ID`,
    /// `ONAIR_POLL_INTERVAL_SECS`, `ONAIR_DEBOUNCE`, `ONAIR_IGNORE_PROCESSES` —
    /// and the first error ends the build. Required values must not be blank;
    /// numbers are read after trimming, and zero is raised to one.
    pub fn from_lookup<F: Fn(&str) -> Option<String>>(get: F) -> (r: Result<Config, String>)
        requires
            forall|k: &str| call_requires(get, (k,)),
        ensures
            exists|
                a: (
                    Option<String>,
                    Option<String>,
                    Option<String>,
                    Option<String>,
                    Option<String>,
                    Option<String>,
                ),
            |
                #[trigger] consulted(get, a) && config_result(r) == config_from(answers_model(a))
                    && forall|n: nat|
                    #![trigger decimal(n)]
                    n <= u64::MAX && a.0 is Some && trim(a.0.unwrap()@).len() > 0 && a.1 is Some
                        && trim(a.1.unwrap()@).len() > 0 && a.2 is Some && trim(
                        a.2.unwrap()@,
                    ).len() > 0 && a.3 is Some && a.3.unwrap()@ == decimal(n) ==> match r {
                        Ok(c) => c.poll_interval_secs == (if n == 0 {
                            1
                        } else {
                            n
                        }),
                        Err(e) => a.4 is Some && e@ == "environment variable "@ + "ONAIR_DEBOUNCE"@
                            + " has an invalid value: "@ + a.4.unwrap()@,
                    },
    {
        let token_value = get("TOKEN");
        let ghost t = token_value;
        let token = match required(token_value, "TOKEN") {
            Ok(v) => v,
            Err(e) => {
                let ghost a = (t, None, None, None, None, None);
                assert(consulted(get, a));
                assert forall|n: nat| #![trigger decimal(n)] n <= u64::MAX implies decimal(n) == trim(decimal(n)) && parse_unsigned(trim(decimal(n)), u64::MAX as nat) == Some(n) by {
                    lemma_decimal_reads_back(n, u64::MAX as nat);
                }
                return Err(e);
            },
        };
        let secret_value = get("SECRET");
        let ghost s = secret_value;
        let secret = match required(secret_value, "SECRET") {
            Ok(v) => v,
            Err(e) => {
                let ghost a = (t, s, None, None, None, None);
                assert(consulted(get, a));
                assert forall|n: nat| #![trigger decimal(n)] n <= u64::MAX implies decimal(n) == trim(decimal(n)) && parse_unsigned(trim(decimal(n)), u64::MAX as nat) == Some(n) by {
                    lemma_decimal_reads_back(n, u64::MAX as nat);
                }
                return Err(e);
            },
        };
        let device_value = get("DEVICE_ID");
        let ghost d = device_value;
        let device_id = match required(device_value, "DEVICE_ID") {
            Ok(v) => v,
            Err(e) => {
                let ghost a = (t, s, d, None, None, None);
                assert(consulted(get, a));
                assert forall|n: nat| #![trigger decimal(n)] n <= u64::MAX implies decimal(n) == trim(decimal(n)) && parse_unsigned(trim(decimal(n)), u64::MAX as nat) == Some(n) by {
                    lemma_decimal_reads_back(n, u64::MAX as nat);
                }
                return Err(e);
            },
        };
        let poll_value = get("ONAIR_POLL_INTERVAL_SECS");
        let poll = match parse_or(
            &poll_value,
            "ONAIR_POLL_INTERVAL_SECS",
            DEFAULT_POLL_INTERVAL_SECS,
            u64::MAX,
        ) {
            Ok(n) => n,
            Err(e) => {
                let ghost a = (t, s, d, poll_value, None, None);
                assert(consulted(get, a));
                assert forall|n: nat| #![trigger decimal(n)] n <= u64::MAX implies decimal(n) == trim(decimal(n)) && parse_unsigned(trim(decimal(n)), u64::MAX as nat) == Some(n) by {
                    lemma_decimal_reads_back(n, u64::MAX as nat);
                }
                return Err(e);
            },
        };
        let debounce_value = get("ONAIR_DEBOUNCE");
        let debounce = match parse_or(
            &debounce_value,
            "ONAIR_DEBOUNCE",
            DEFAULT_DEBOUNCE as u64,
            u32::MAX as u64,
        ) {
            Ok(n) => n as u32,
            Err(e) => {
                let ghost a = (t, s, d, poll_value, debounce_value, None);
                assert(consulted(get, a));
                assert forall|n: nat| #![trigger decimal(n)] n <= u64::MAX implies decimal(n) == trim(decimal(n)) && parse_unsigned(trim(decimal(n)), u64::MAX as nat) == Some(n) by {
                    lemma_decimal_reads_back(n, u64::MAX as nat);
                }
                return Err(e);
            },
        };
        let ignore_value = get("ONAIR_IGNORE_PROCESSES");
        let ignore_processes = match &ignore_value {
            Some(v) => parse_name_list(v.as_str()),
            None => parse_name_list("pipewire,wireplumber"),
        };
        let config = Config {
            token,
            secret,
            device_id,
            poll_interval_secs: if poll < 1 {
                1
            } else {
                poll
            },
            debounce: if debounce < 1 {
                1
            } else {
                debounce
            },
            ignore_processes,
        };
        let ghost a = (t, s, d, poll_value, debounce_value, ignore_value);
        assert(consulted(get, a));
        assert forall|n: nat| #![trigger decimal(n)] n <= u64::MAX implies decimal(n) == trim(decimal(n)) && parse_unsigned(trim(decimal(n)), u64::MAX as nat) == Some(n) by {
            lemma_decimal_reads_back(n, u64::MAX as nat);
        }
        assert(config_result(Ok(config)) == config_from(answers_model(a)));
        Ok(config)
    }
}

} // verus!
