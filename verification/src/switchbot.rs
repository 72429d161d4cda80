//! SwitchBot API v1.1 requests: signing, request composition, reply
//! checking and the retry policy.
//!
//! The program around this library sends the requests over HTTP; everything
//! it sends and every decision about what came back is made here.

use vstd::prelude::*;
use vstd::utf8::encode_utf8;

use base64::Engine;
use hmac::{Hmac, Mac};
use sha2::Sha256;

use vstd::string::StringExecFns;

use crate::text::{
    ascii_upper, ascii_upper_char, ascii_upper_chars, chars_of, decimal, push_decimal,
    push_signed_decimal, signed_decimal, string_of,
};

verus! {

/// The HMAC-SHA256 tag of `message` under `key` (RFC 2104 with SHA-256).
pub uninterp spec fn hmac_sha256_tag(key: Seq<u8>, message: Seq<u8>) -> Seq<u8>;

/// `hmac`'s `Hmac<Sha256>`: `new_from_slice`, one `update` and `finalize`.
///
/// Claims that the tag is the HMAC-SHA256 tag of the message under the key,
/// which is 32 bytes long (SHA-256's output size). `new_from_slice` accepts
/// a key of any length for HMAC (longer keys are hashed first), so the
/// `expect` does not fire.
#[verifier::external_body]
fn hmac_sha256(key: &[u8], message: &[u8]) -> (tag: Vec<u8>)
    ensures
        tag@ == hmac_sha256_tag(key@, message@),
        tag@.len() == 32,
{
    let mut mac = <Hmac<Sha256> as Mac>::new_from_slice(key).expect(
        "HMAC accepts a key of any length",
    );
    mac.update(message);
    mac.finalize().into_bytes().to_vec()
}

/// The symbol of a six-bit value in the standard base64 alphabet
/// (RFC 4648: `A`-`Z`, `a`-`z`, `0`-`9`, `+`, `/`).
pub open spec fn base64_symbol(v: nat) -> char {
    if v < 26 {
        ((v + 65) as u32) as char
    } else if v < 52 {
        ((v + 71) as u32) as char
    } else if v < 62 {
        ((v - 4) as u32) as char
    } else if v == 62 {
        '+'
    } else {
        '/'
    }
}

/// Standard base64 with `=` padding (RFC 4648, section 4).
pub open spec fn base64_standard(b: Seq<u8>) -> Seq<char>
    decreases b.len(),
{
    if b.len() == 0 {
        Seq::empty()
    } else if b.len() == 1 {
        seq![
            base64_symbol((b[0] as nat) / 4),
            base64_symbol(((b[0] as nat) % 4) * 16),
            '=',
            '=',
        ]
    } else if b.len() == 2 {
        seq![
            base64_symbol((b[0] as nat) / 4),
            base64_symbol(((b[0] as nat) % 4) * 16 + (b[1] as nat) / 16),
            base64_symbol(((b[1] as nat) % 16) * 4),
            '=',
        ]
    } else {
        seq![
            base64_symbol((b[0] as nat) / 4),
            base64_symbol(((b[0] as nat) % 4) * 16 + (b[1] as nat) / 16),
            base64_symbol(((b[1] as nat) % 16) * 4 + (b[2] as nat) / 64),
            base64_symbol((b[2] as nat) % 64),
        ] + base64_standard(b.skip(3))
    }
}

/// `base64`'s `STANDARD` engine, `Engine::encode`.
///
/// Claims the RFC 4648 standard-alphabet encoding with `=` padding. The
/// engine panics when the encoded length does not fit in `usize`, which
/// `requires` excludes.
#[verifier::external_body]
fn base64_standard_encode(bytes: &[u8]) -> (text: String)
    requires
        4 * ((bytes@.len() + 2) / 3) <= usize::MAX,
    ensures
        text@ == base64_standard(bytes@),
{
    base64::engine::general_purpose::STANDARD.encode(bytes)
}

/// The `sign` header value for a SwitchBot API v1.1 request: the upper-cased
/// base64 encoding of `HMAC-SHA256(secret, token + t + nonce)`.
pub open spec fn signature(token: Seq<char>, secret: Seq<char>, t: Seq<char>, nonce: Seq<char>) -> Seq<
    char,
> {
    ascii_upper(
        base64_standard(
            hmac_sha256_tag(encode_utf8(secret), encode_utf8(token) + encode_utf8(t) + encode_utf8(nonce)),
        ),
    )
}

/// A character of the standard base64 alphabet, or the padding `=`.
pub open spec fn is_base64_char(c: char) -> bool {
    let u = c as u32;
    ||| 65 <= u <= 90
    ||| 97 <= u <= 122
    ||| 48 <= u <= 57
    ||| u == 43
    ||| u == 47
    ||| u == 61
}

/// A character of the upper-cased base64 text: `A`-`Z`, `0`-`9`, `+`, `/`
/// or `=`.
pub open spec fn is_signature_char(c: char) -> bool {
    let u = c as u32;
    ||| 65 <= u <= 90
    ||| 48 <= u <= 57
    ||| u == 43
    ||| u == 47
    ||| u == 61
}

proof fn lemma_base64_symbol(v: nat)
    requires
        v < 64,
    ensures
        is_base64_char(base64_symbol(v)),
        base64_symbol(v) != '=',
{
}

/// The encoding of a length that leaves two bytes over ends with one `=`,
/// and has no `=` before it.
proof fn lemma_base64_one_pad(b: Seq<u8>)
    requires
        b.len() % 3 == 2,
    ensures
        base64_standard(b).len() >= 4,
        base64_standard(b).last() == '=',
        forall|i: int| 0 <= i < base64_standard(b).len() - 1 ==> #[trigger] base64_standard(b)[i] != '=',
    decreases b.len(),
{
    if b.len() == 2 {
        lemma_base64_symbol((b[0] as nat) / 4);
        lemma_base64_symbol(((b[0] as nat) % 4) * 16 + (b[1] as nat) / 16);
        lemma_base64_symbol(((b[1] as nat) % 16) * 4);
    } else {
        lemma_base64_one_pad(b.skip(3));
        lemma_base64_symbol((b[0] as nat) / 4);
        lemma_base64_symbol(((b[0] as nat) % 4) * 16 + (b[1] as nat) / 16);
        lemma_base64_symbol(((b[1] as nat) % 16) * 4 + (b[2] as nat) / 64);
        lemma_base64_symbol((b[2] as nat) % 64);
        let head = seq![
            base64_symbol((b[0] as nat) / 4),
            base64_symbol(((b[0] as nat) % 4) * 16 + (b[1] as nat) / 16),
            base64_symbol(((b[1] as nat) % 16) * 4 + (b[2] as nat) / 64),
            base64_symbol((b[2] as nat) % 64),
        ];
        let rest = base64_standard(b.skip(3));
        assert(base64_standard(b) == head + rest);
        assert forall|i: int| 0 <= i < base64_standard(b).len() - 1 implies #[trigger] base64_standard(
            b,
        )[i] != '=' by {
            if i >= 4 {
                assert(base64_standard(b)[i] == rest[i - 4]);
            }
        }
    }
}

proof fn lemma_base64_shape(b: Seq<u8>)
    ensures
        base64_standard(b).len() == 4 * ((b.len() + 2) / 3),
        forall|i: int|
            0 <= i < base64_standard(b).len() ==> is_base64_char(#[trigger] base64_standard(b)[i]),
    decreases b.len(),
{
    if b.len() == 0 {
    } else if b.len() == 1 {
        lemma_base64_symbol((b[0] as nat) / 4);
        lemma_base64_symbol(((b[0] as nat) % 4) * 16);
    } else if b.len() == 2 {
        lemma_base64_symbol((b[0] as nat) / 4);
        lemma_base64_symbol(((b[0] as nat) % 4) * 16 + (b[1] as nat) / 16);
        lemma_base64_symbol(((b[1] as nat) % 16) * 4);
    } else {
        lemma_base64_shape(b.skip(3));
        lemma_base64_symbol((b[0] as nat) / 4);
        lemma_base64_symbol(((b[0] as nat) % 4) * 16 + (b[1] as nat) / 16);
        lemma_base64_symbol(((b[1] as nat) % 16) * 4 + (b[2] as nat) / 64);
        lemma_base64_symbol((b[2] as nat) % 64);
        let head = seq![
            base64_symbol((b[0] as nat) / 4),
            base64_symbol(((b[0] as nat) % 4) * 16 + (b[1] as nat) / 16),
            base64_symbol(((b[1] as nat) % 16) * 4 + (b[2] as nat) / 64),
            base64_symbol((b[2] as nat) % 64),
        ];
        let rest = base64_standard(b.skip(3));
        assert(base64_standard(b) == head + rest);
        assert forall|i: int| 0 <= i < base64_standard(b).len() implies is_base64_char(
            #[trigger] base64_standard(b)[i],
        ) by {
            if i >= 4 {
                assert(base64_standard(b)[i] == rest[i - 4]);
            }
        }
    }
}

/// A signature consists of characters of the upper-cased base64 alphabet,
/// and upper-casing it again changes nothing.
pub proof fn lemma_signature_shape(token: Seq<char>, secret: Seq<char>, t: Seq<char>, nonce: Seq<char>)
    ensures
        forall|i: int|
            0 <= i < signature(token, secret, t, nonce).len() ==> is_signature_char(
                #[trigger] signature(token, secret, t, nonce)[i],
            ),
        ascii_upper(signature(token, secret, t, nonce)) == signature(token, secret, t, nonce),
{
    let tag = hmac_sha256_tag(
        encode_utf8(secret),
        encode_utf8(token) + encode_utf8(t) + encode_utf8(nonce),
    );
    let encoded = base64_standard(tag);
    lemma_base64_shape(tag);
    let sig = signature(token, secret, t, nonce);
    assert(sig == ascii_upper(encoded));
    assert forall|i: int| 0 <= i < sig.len() implies is_signature_char(#[trigger] sig[i]) by {
        assert(is_base64_char(encoded[i]));
        assert(sig[i] == ascii_upper_char(encoded[i]));
    }
    assert(ascii_upper(sig) =~= sig);
}

/// Appends bytes to a byte vector.
fn append_bytes(v: &mut Vec<u8>, bytes: &[u8])
    ensures
        final(v)@ == old(v)@ + bytes@,
{
    let ghost start = v@;
    let mut i: usize = 0;
    while i < bytes.len()
        invariant
            i <= bytes.len(),
            v@ == start + bytes@.take(i as int),
        decreases bytes.len() - i,
    {
        v.push(bytes[i]);
        i = i + 1;
        assert(v@ =~= start + bytes@.take(i as int));
    }
    assert(bytes@.take(bytes.len() as int) =~= bytes@);
}

/// Compute the `sign` header value for a SwitchBot API v1.1 request.
///
/// The signature is the uppercased base64 encoding of
/// `HMAC-SHA256(secret, token + t + nonce)`.
pub fn sign(token: &str, secret: &str, t: &str, nonce: &str) -> (s: String)
    ensures
        s@ == signature(token@, secret@, t@, nonce@),
        s@ == ascii_upper(
            base64_standard(
                hmac_sha256_tag(
                    encode_utf8(secret@),
                    encode_utf8(token@) + encode_utf8(t@) + encode_utf8(nonce@),
                ),
            ),
        ),
        s@.len() == 44,
        s@[43] == '=',
        forall|i: int| 0 <= i < 43 ==> #[trigger] s@[i] != '=',
{
    let mut message: Vec<u8> = Vec::new();
    append_bytes(&mut message, token.as_bytes());
    append_bytes(&mut message, t.as_bytes());
    append_bytes(&mut message, nonce.as_bytes());
    assert(message@ =~= encode_utf8(token@) + encode_utf8(t@) + encode_utf8(nonce@));
    let tag = hmac_sha256(secret.as_bytes(), message.as_slice());
    let encoded = base64_standard_encode(tag.as_slice());
    proof {
        lemma_base64_shape(tag@);
        lemma_base64_one_pad(tag@);
    }
    let chars = chars_of(encoded.as_str());
    let upper = ascii_upper_chars(&chars);
    assert forall|i: int| 0 <= i < 44 implies (#[trigger] upper@[i] == '=') == (i == 43) by {
        assert(upper@[i] == ascii_upper_char(chars@[i]));
    }
    string_of(&upper)
}

/// The base of the SwitchBot API.
pub open spec fn api_base() -> Seq<char> {
    "https://api.switch-bot.com"@
}

/// The `statusCode` the API returns when a command succeeds.
pub const SUCCESS_STATUS_CODE: i64 = 100;

/// How many times a command is tried before giving up.
pub const MAX_ATTEMPTS: u32 = 3;

/// A command that switches the device.
#[derive(Clone, Copy, Debug, PartialEq, Eq, Structural)]
pub enum Command {
    TurnOn,
    TurnOff,
}

/// The API name of a command.
pub open spec fn command_name(c: Command) -> Seq<char> {
    match c {
        Command::TurnOn => "turnOn"@,
        Command::TurnOff => "turnOff"@,
    }
}

impl Command {
    /// The command that makes the light match the camera: on while in use.
    pub fn for_state(in_use: bool) -> (c: Command)
        ensures
            c == (if in_use {
                Command::TurnOn
            } else {
                Command::TurnOff
            }),
    {
        if in_use {
            Command::TurnOn
        } else {
            Command::TurnOff
        }
    }

    /// The API name of the command.
    pub fn name(&self) -> (n: &'static str)
        ensures
            n@ == command_name(*self),
    {
        match self {
            Command::TurnOn => "turnOn",
            Command::TurnOff => "turnOff",
        }
    }
}

/// The abstract content of a [`SwitchBot`].
pub struct SwitchBotModel {
    pub token: Seq<char>,
    pub secret: Seq<char>,
    pub device_id: Seq<char>,
}

/// The credentials and target of one SwitchBot device.
pub struct SwitchBot {
    token: String,
    secret: String,
    device_id: String,
}

impl View for SwitchBot {
    type V = SwitchBotModel;

    closed spec fn view(&self) -> SwitchBotModel {
        SwitchBotModel { token: self.token@, secret: self.secret@, device_id: self.device_id@ }
    }
}

/// The abstract content of a [`SignedRequest`].
pub struct RequestModel {
    pub url: Seq<char>,
    pub headers: Seq<(Seq<char>, Seq<char>)>,
    pub body: Seq<char>,
}

/// A command request, ready to be posted.
pub struct SignedRequest {
    /// Where to post.
    pub url: String,
    /// The headers to set, in order.
    pub headers: Vec<(String, String)>,
    /// The JSON body.
    pub body: String,
}

impl View for SignedRequest {
    type V = RequestModel;

    open spec fn view(&self) -> RequestModel {
        RequestModel {
            url: self.url@,
            headers: self.headers@.map_values(|h: (String, String)| (h.0@, h.1@)),
            body: self.body@,
        }
    }
}

/// The command endpoint of a device.
pub open spec fn command_url(device_id: Seq<char>) -> Seq<char> {
    api_base() + "/v1.1/devices/"@ + device_id + "/commands"@
}

/// The JSON body of a command, with its keys in sorted order.
pub open spec fn command_body(c: Command) -> Seq<char> {
    "{\"command\":\""@ + command_name(c) + "\",\"commandType\":\"command\",\"parameter\":\"default\"}"@
}

/// The request that sends `command` to the device, stamped with time `t`
/// and `nonce`.
pub open spec fn command_request(bot: SwitchBotModel, c: Command, t: Seq<char>, nonce: Seq<char>) -> RequestModel {
    RequestModel {
        url: command_url(bot.device_id),
        headers: seq![
            ("Authorization"@, bot.token),
            ("sign"@, signature(bot.token, bot.secret, t, nonce)),
            ("t"@, t),
            ("nonce"@, nonce),
            ("Content-Type"@, "application/json; charset=utf8"@),
        ],
        body: command_body(c),
    }
}

/// A string made of a literal.
fn text(s: &str) -> (r: String)
    ensures
        r@ == s@,
{
    String::from_str(s)
}

impl SwitchBot {
    /// Create a client for a single device.
    pub fn new(token: String, secret: String, device_id: String) -> (b: Self)
        ensures
            b@ == (SwitchBotModel { token: token@, secret: secret@, device_id: device_id@ }),
    {
        SwitchBot { token, secret, device_id }
    }

    /// The request that sends `command`, stamped with the time `t` (Unix
    /// milliseconds) and the one-time `nonce`.
    pub fn request(&self, command: Command, t: &str, nonce: &str) -> (r: SignedRequest)
        ensures
            r@ == command_request(self@, command, t@, nonce@),
    {
        let mut url = text("https://api.switch-bot.com");
        url.append("/v1.1/devices/");
        url.append(self.device_id.as_str());
        url.append("/commands");
        let signature = sign(self.token.as_str(), self.secret.as_str(), t, nonce);
        let mut headers: Vec<(String, String)> = Vec::new();
        headers.push((text("Authorization"), self.token.clone()));
        headers.push((text("sign"), signature));
        headers.push((text("t"), text(t)));
        headers.push((text("nonce"), text(nonce)));
        headers.push((text("Content-Type"), text("application/json; charset=utf8")));
        let mut body = text("{\"command\":\"");
        body.append(command.name());
        body.append("\",\"commandType\":\"command\",\"parameter\":\"default\"}");
        let r = SignedRequest { url, headers, body };
        assert(r@.headers =~= command_request(self@, command, t@, nonce@).headers);
        r
    }

    /// The request that sends `command` now: stamped with the current time
    /// and a fresh random nonce.
    pub fn request_now(&self, command: Command) -> (r: SignedRequest)
        ensures
            exists|t: Seq<char>, nonce: Seq<char>|
                #![trigger command_request(self@, command, t, nonce)]
                is_decimal_text(t) && is_hyphenated_uuid(nonce) && r@ == command_request(
                    self@,
                    command,
                    t,
                    nonce,
                ),
    {
        let t = unix_millis();
        let id = new_v4_uuid();
        let nonce = uuid_text(&id);
        self.request(command, t.as_str(), nonce.as_str())
    }
}

/// What the program around this library read of an API reply.
pub struct ApiReply {
    /// The `statusCode` field, when it is an integer that fits `i64`.
    pub status_code: Option<i64>,
    /// The `message` field, when it is a string.
    pub message: Option<String>,
    /// The reply as JSON text.
    pub text: String,
}

/// What a reply means: success for status 100, else an error message.
pub open spec fn reply_outcome(status_code: Option<i64>, message: Option<Seq<char>>, text: Seq<char>) -> Result<
    (),
    Seq<char>,
> {
    match status_code {
        Some(code) => if code == SUCCESS_STATUS_CODE {
            Ok(())
        } else {
            let m = match message {
                Some(m) => m,
                None => "no message"@,
            };
            Err("API returned statusCode "@ + signed_decimal(code as int) + ": "@ + m)
        },
        None => Err("API response is missing statusCode: "@ + text),
    }
}

/// The abstract outcome of a command.
pub open spec fn outcome_view(r: Result<(), String>) -> Result<(), Seq<char>> {
    match r {
        Ok(()) => Ok(()),
        Err(e) => Err(e@),
    }
}

/// Decide whether a reply reports success.
pub fn check_reply(reply: &ApiReply) -> (r: Result<(), String>)
    ensures
        outcome_view(r) == reply_outcome(reply.status_code, reply.message.deep_view(), reply.text@),
{
    match reply.status_code {
        Some(code) => {
            if code == SUCCESS_STATUS_CODE {
                Ok(())
            } else {
                let mut chars = chars_of("API returned statusCode ");
                push_signed_decimal(&mut chars, code);
                crate::text::extend_chars(&mut chars, ": ");
                match &reply.message {
                    Some(m) => crate::text::extend_chars(&mut chars, m.as_str()),
                    None => crate::text::extend_chars(&mut chars, "no message"),
                }
                Err(string_of(&chars))
            }
        },
        None => {
            let mut message = text("API response is missing statusCode: ");
            message.append(reply.text.as_str());
            Err(message)
        },
    }
}

/// What `serde_json` reads from a reply body: the `statusCode` field when it
/// is an integer that fits `i64`, the `message` field when it is a string,
/// and the reply written back as compact JSON text; or the parse error's
/// text when the body is not JSON.
pub uninterp spec fn json_reply(body: Seq<char>) -> Result<
    (Option<i64>, Option<Seq<char>>, Seq<char>),
    Seq<char>,
>;

/// `serde_json::from_str` into a `Value`, then `get("statusCode")` with
/// `as_i64`, `get("message")` with `as_str`, and `to_string`.
///
/// Claims that the fields read are those named by `json_reply`, and that a
/// parse failure gives the error's text; the parse itself is not stated.
#[verifier::external_body]
fn parse_reply(body: &str) -> (r: Result<ApiReply, String>)
    ensures
        match json_reply(body@) {
            Ok((code, message, text)) => r matches Ok(a) && a.status_code == code
                && a.message.deep_view() == message && a.text@ == text,
            Err(e) => r matches Err(x) && x@ == e,
        },
{
    match serde_json::from_str::<serde_json::Value>(body) {
        Ok(json) => Ok(ApiReply {
            status_code: json.get("statusCode").and_then(serde_json::Value::as_i64),
            message: json.get("message").and_then(serde_json::Value::as_str).map(str::to_string),
            text: json.to_string(),
        }),
        Err(error) => Err(error.to_string()),
    }
}

/// What a reply body means for the command.
pub open spec fn body_outcome(body: Seq<char>) -> Result<(), Seq<char>> {
    match json_reply(body) {
        Err(e) => Err("could not parse API response: "@ + e),
        Ok((code, message, text)) => reply_outcome(code, message, text),
    }
}

/// Decide whether the body of an API reply reports success: it must be
/// JSON with `statusCode` 100.
pub fn reply_result(body: &str) -> (r: Result<(), String>)
    ensures
        outcome_view(r) == body_outcome(body@),
{
    match parse_reply(body) {
        Ok(reply) => check_reply(&reply),
        Err(error) => {
            let mut message = text("could not parse API response: ");
            message.append(error.as_str());
            Err(message)
        },
    }
}

/// The error after the last attempt failed with `error`.
pub open spec fn give_up_message(c: Command, error: Seq<char>) -> Seq<char> {
    "SwitchBot "@ + command_name(c) + " failed after "@ + decimal(MAX_ATTEMPTS as nat)
        + " attempts: "@ + error
}

/// The abstract state of a [`Retry`].
pub struct RetryModel {
    pub command: Command,
    pub failures: nat,
}

/// What to do after an attempt.
pub enum RetryStep {
    /// Try again.
    Again(Retry),
    /// Stop, with this result for the command.
    Done(Result<(), String>),
}

/// The abstract form of a [`RetryStep`].
pub enum RetryStepModel {
    Again(RetryModel),
    Done(Result<(), Seq<char>>),
}

/// The step after an attempt with the given outcome.
pub open spec fn retry_step(r: RetryModel, outcome: Result<(), Seq<char>>) -> RetryStepModel {
    match outcome {
        Ok(()) => RetryStepModel::Done(Ok(())),
        Err(e) => if r.failures + 1 >= MAX_ATTEMPTS {
            RetryStepModel::Done(Err(give_up_message(r.command, e)))
        } else {
            RetryStepModel::Again(RetryModel { command: r.command, failures: r.failures + 1 })
        },
    }
}

/// Sending one command: the attempts made so far.
pub struct Retry {
    command: Command,
    failures: u32,
}

impl View for Retry {
    type V = RetryModel;

    closed spec fn view(&self) -> RetryModel {
        RetryModel { command: self.command, failures: self.failures as nat }
    }
}

/// The abstract form of a step.
pub open spec fn step_view(s: RetryStep) -> RetryStepModel {
    match s {
        RetryStep::Again(r) => RetryStepModel::Again(r@),
        RetryStep::Done(res) => RetryStepModel::Done(outcome_view(res)),
    }
}

impl Retry {
    #[verifier::type_invariant]
    spec fn inv(self) -> bool {
        self.failures < MAX_ATTEMPTS
    }

    /// Start sending `command`.
    pub fn new(command: Command) -> (r: Self)
        ensures
            r@ == (RetryModel { command, failures: 0 }),
    {
        Retry { command, failures: 0 }
    }

    /// The number of the attempt about to be made, from 1.
    pub fn attempt(&self) -> (n: u32)
        ensures
            n == self@.failures + 1,
            n <= MAX_ATTEMPTS,
    {
        proof {
            use_type_invariant(self);
        }
        self.failures + 1
    }

    /// The command being sent.
    pub fn command(&self) -> (c: Command)
        ensures
            c == self@.command,
    {
        self.command
    }

    /// Record the outcome of an attempt and decide what follows: stop on
    /// success, try again after a failure, and give up with the last error
    /// after the last attempt.
    pub fn record(self, outcome: Result<(), String>) -> (s: RetryStep)
        ensures
            step_view(s) == retry_step(self@, outcome_view(outcome)),
            self@.failures < MAX_ATTEMPTS,
    {
        proof {
            use_type_invariant(&self);
        }
        match outcome {
            Ok(()) => RetryStep::Done(Ok(())),
            Err(error) => {
                if self.failures + 1 >= MAX_ATTEMPTS {
                    let mut chars = chars_of("SwitchBot ");
                    crate::text::extend_chars(&mut chars, self.command.name());
                    crate::text::extend_chars(&mut chars, " failed after ");
                    push_decimal(&mut chars, MAX_ATTEMPTS as u128);
                    crate::text::extend_chars(&mut chars, " attempts: ");
                    crate::text::extend_chars(&mut chars, error.as_str());
                    RetryStep::Done(Err(string_of(&chars)))
                } else {
                    RetryStep::Again(Retry { command: self.command, failures: self.failures + 1 })
                }
            },
        }
    }
}

/// Sending a command whose attempts have the given outcomes, in order: how
/// many attempts are made, and the result, if the outcomes suffice.
pub open spec fn drive(r: RetryModel, outcomes: Seq<Result<(), Seq<char>>>) -> (
    nat,
    Option<Result<(), Seq<char>>>,
)
    decreases outcomes.len(),
{
    if outcomes.len() == 0 {
        (0, None)
    } else {
        match retry_step(r, outcomes[0]) {
            RetryStepModel::Done(res) => (1, Some(res)),
            RetryStepModel::Again(next) => {
                let rest = drive(next, outcomes.drop_first());
                (rest.0 + 1, rest.1)
            },
        }
    }
}

proof fn lemma_drive(r: RetryModel, outcomes: Seq<Result<(), Seq<char>>>)
    requires
        r.failures < MAX_ATTEMPTS,
        outcomes.len() >= MAX_ATTEMPTS - r.failures,
    ensures
        drive(r, outcomes).1 is Some,
        1 <= drive(r, outcomes).0 <= MAX_ATTEMPTS - r.failures,
        forall|i: int| 0 <= i < drive(r, outcomes).0 - 1 ==> #[trigger] outcomes[i] is Err,
        drive(r, outcomes).0 < MAX_ATTEMPTS - r.failures ==> outcomes[drive(r, outcomes).0 - 1] is Ok,
        drive(r, outcomes).1 == Some(
            match outcomes[drive(r, outcomes).0 - 1] {
                Ok(()) => Ok::<(), Seq<char>>(()),
                Err(e) => Err(give_up_message(r.command, e)),
            },
        ),
    decreases outcomes.len(),
{
    match retry_step(r, outcomes[0]) {
        RetryStepModel::Done(res) => {},
        RetryStepModel::Again(next) => {
            lemma_drive(next, outcomes.drop_first());
            let k = drive(next, outcomes.drop_first()).0;
            assert forall|i: int| 0 <= i < k implies #[trigger] outcomes[i] is Err by {
                if i > 0 {
                    assert(outcomes[i] == outcomes.drop_first()[i - 1]);
                }
            }
            assert(outcomes[k as int] == outcomes.drop_first()[k - 1]);
        },
    }
}

/// Sending a command makes at most `MAX_ATTEMPTS` attempts: it stops at the
/// first success, every attempt before the last one failed, and when the
/// last allowed attempt fails the result is the give-up error carrying that
/// attempt's error.
pub proof fn lemma_retry_policy(command: Command, outcomes: Seq<Result<(), Seq<char>>>)
    requires
        outcomes.len() >= MAX_ATTEMPTS,
    ensures
        ({
            let (used, result) = drive(RetryModel { command, failures: 0 }, outcomes);
            &&& 1 <= used <= MAX_ATTEMPTS
            &&& forall|i: int| 0 <= i < used - 1 ==> #[trigger] outcomes[i] is Err
            &&& used < MAX_ATTEMPTS ==> outcomes[used - 1] is Ok
            &&& result == Some(
                match outcomes[used - 1] {
                    Ok(()) => Ok::<(), Seq<char>>(()),
                    Err(e) => Err(give_up_message(command, e)),
                },
            )
        }),
{
    lemma_drive(RetryModel { command, failures: 0 }, outcomes);
}

/// The standard library's clock reading type.
#[verifier::external_type_specification]
#[verifier::external_body]
pub struct ExSystemTime(std::time::SystemTime);

/// The standard library's error for a clock reading before a given time.
#[verifier::external_type_specification]
#[verifier::external_body]
pub struct ExSystemTimeError(std::time::SystemTimeError);

/// `std::time::SystemTime::now`. Nothing is claimed of the reading.
#[verifier::external_body]
fn system_time_now() -> std::time::SystemTime {
    std::time::SystemTime::now()
}

/// `SystemTime::duration_since`, from the Unix epoch. Nothing is claimed of
/// the result: it depends on the clock.
#[verifier::external_body]
fn since_unix_epoch(now: &std::time::SystemTime) -> Result<
    core::time::Duration,
    std::time::SystemTimeError,
> {
    now.duration_since(std::time::UNIX_EPOCH)
}

/// `Duration::as_millis`. Nothing is claimed: a `Duration` is opaque here.
#[verifier::external_body]
fn duration_millis(d: &core::time::Duration) -> u128 {
    d.as_millis()
}

/// Whether `s` is the decimal text of some number.
pub open spec fn is_decimal_text(s: Seq<char>) -> bool {
    exists|n: nat| s == #[trigger] decimal(n)
}

/// The `t` stamp for an elapsed time since the Unix epoch, in
/// milliseconds: its decimal text, or `0` when the clock is before the
/// epoch.
pub fn millis_text(elapsed: Option<u128>) -> (t: String)
    ensures
        t@ == match elapsed {
            Some(ms) => decimal(ms as nat),
            None => decimal(0),
        },
{
    let mut chars: Vec<char> = Vec::new();
    let ms: u128 = match elapsed {
        Some(ms) => ms,
        None => 0,
    };
    push_decimal(&mut chars, ms);
    assert(chars@ =~= decimal(ms as nat));
    string_of(&chars)
}

/// The current Unix time in milliseconds, as decimal text (`0` when the
/// clock is before the epoch).
pub fn unix_millis() -> (t: String)
    ensures
        is_decimal_text(t@),
{
    let now = system_time_now();
    let elapsed = match since_unix_epoch(&now) {
        Ok(d) => Some(duration_millis(&d)),
        Err(_) => None,
    };
    let t = millis_text(elapsed);
    proof {
        match elapsed {
            Some(ms) => assert(t@ == decimal(ms as nat)),
            None => assert(t@ == decimal(0)),
        }
    }
    t
}

/// Whether `s` is a UUID in hyphenated lower-case form:
/// `xxxxxxxx-xxxx-xxxx-xxxx-xxxxxxxxxxxx` with lower-case hex digits.
pub open spec fn is_hyphenated_uuid(s: Seq<char>) -> bool {
    &&& s.len() == 36
    &&& forall|i: int|
        0 <= i < 36 ==> if i == 8 || i == 13 || i == 18 || i == 23 {
            #[trigger] s[i] == '-'
        } else {
            (48 <= s[i] as u32 <= 57) || (97 <= s[i] as u32 <= 102)
        }
}

/// The UUID type of the `uuid` crate, carried through unchanged.
#[verifier::external_type_specification]
#[verifier::external_body]
pub struct ExUuid(uuid::Uuid);

/// `uuid::Uuid::new_v4`: a random version 4 UUID. Nothing is claimed of it.
/// It panics only when the operating system's random source fails.
#[verifier::external_body]
fn new_v4_uuid() -> uuid::Uuid {
    uuid::Uuid::new_v4()
}

/// `Uuid`'s `to_string` (its `Display`), which writes the hyphenated
/// lower-case form. Claims that form; which digits appear is not claimed.
#[verifier::external_body]
fn uuid_text(id: &uuid::Uuid) -> (s: String)
    ensures
        is_hyphenated_uuid(s@),
{
    id.to_string()
}

} // verus!
