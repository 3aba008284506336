//! The Dandanplay open API: request paths and bodies, the signed headers,
//! and how a reply is judged.
use vstd::prelude::*;
use base64::Engine;
use sha2::Digest;
use crate::json::{Json, JsonValue, spec_get, spec_json_quote, json_quote, opt_json};
use crate::num::{dec, dec_int, fmt_i64, fmt_u64};
use crate::text::{push_str, push_char, owned, trim, trim_str};

verus! {

pub const API_BASE: &'static str = "https://api.dandanplay.net";

pub const USER_AGENT_VALUE: &'static str = "anime-tool/0.1";

/// The SHA-256 digest of the bytes.
pub uninterp spec fn spec_sha256(data: Seq<u8>) -> Seq<u8>;

/// The digit of the standard Base64 alphabet for a six-bit value.
pub open spec fn base64_digit(i: int) -> char {
    if i < 26 {
        (65 + i) as char
    } else if i < 52 {
        (71 + i) as char
    } else if i < 62 {
        (i - 4) as char
    } else if i == 62 {
        '+'
    } else {
        '/'
    }
}

/// The standard Base64 encoding of the bytes: each three bytes give four digits, and a
/// last one or two bytes give two or three digits padded with `=` to four.
pub open spec fn spec_base64(data: Seq<u8>) -> Seq<char>
    decreases data.len(),
{
    if data.len() == 0 {
        Seq::empty()
    } else if data.len() == 1 {
        let n = data[0] * 16;
        seq![base64_digit(n / 64), base64_digit(n % 64), '=', '=']
    } else if data.len() == 2 {
        let n = (data[0] * 256 + data[1]) * 4;
        seq![base64_digit(n / 4096), base64_digit((n / 64) % 64), base64_digit(n % 64), '=']
    } else {
        let n = data[0] * 65536 + data[1] * 256 + data[2];
        seq![
            base64_digit(n / 262144),
            base64_digit((n / 4096) % 64),
            base64_digit((n / 64) % 64),
            base64_digit(n % 64),
        ] + spec_base64(data.skip(3))
    }
}

/// Calls `sha2::Sha256::digest`. The contract names the digest and says nothing more of it.
#[verifier::external_body]
fn sha256(data: &[u8]) -> (r: Vec<u8>)
    ensures
        r@ == spec_sha256(data@),
{
    sha2::Sha256::digest(data).to_vec()
}

/// Calls `Engine::encode` of `base64::engine::general_purpose::STANDARD`: the standard
/// alphabet with `=` padding, as the contract states.
#[verifier::external_body]
fn base64_encode(data: &[u8]) -> (r: String)
    ensures
        r@ == spec_base64(data@),
{
    base64::engine::general_purpose::STANDARD.encode(data)
}

/// The credentials that sign requests.
pub struct Credentials {
    pub appid: String,
    pub appsecret: String,
}

/// The signature of a request: Base64 of the SHA-256 of AppID, timestamp, API path and
/// AppSecret written one after the other.
pub open spec fn spec_signature(
    appid: Seq<char>,
    timestamp: int,
    api_path: Seq<char>,
    appsecret: Seq<char>,
) -> Seq<char> {
    spec_base64(
        spec_sha256(vstd::utf8::encode_utf8(appid + dec_int(timestamp) + api_path + appsecret)),
    )
}

/// A header name and value, as strings.
pub open spec fn header(name: &str, value: Seq<char>) -> (Seq<char>, Seq<char>) {
    (name@, value)
}

impl Credentials {
    pub fn signature(&self, timestamp: i64, api_path: &str) -> (r: String)
        ensures
            r@ == spec_signature(self.appid@, timestamp as int, api_path@, self.appsecret@),
    {
        let mut text = self.appid.clone();
        let ts = fmt_i64(timestamp);
        push_str(&mut text, ts.as_str());
        push_str(&mut text, api_path);
        push_str(&mut text, self.appsecret.as_str());
        let digest = sha256(text.as_str().as_bytes());
        base64_encode(digest.as_slice())
    }

    /// The headers of a request, in the order they are set: `Accept`, `User-Agent`,
    /// `Content-Type` for a JSON body, then `X-AppId`, `X-Timestamp` and `X-Signature`.
    pub fn headers(&self, timestamp: i64, api_path: &str, json: bool) -> (r: Vec<(String, String)>)
        ensures
            r@.map_values(|h: (String, String)| (h.0@, h.1@)) == (seq![
                header("Accept", "application/json"@),
                header("User-Agent", USER_AGENT_VALUE@),
            ] + if json {
                seq![header("Content-Type", "application/json"@)]
            } else {
                Seq::empty()
            } + seq![
                header("X-AppId", self.appid@),
                header("X-Timestamp", dec_int(timestamp as int)),
                header("X-Signature", spec_signature(self.appid@, timestamp as int, api_path@, self.appsecret@)),
            ]),
    {
        let mut h: Vec<(String, String)> = Vec::new();
        h.push((owned("Accept"), owned("application/json")));
        h.push((owned("User-Agent"), owned(USER_AGENT_VALUE)));
        if json {
            h.push((owned("Content-Type"), owned("application/json")));
        }
        h.push((owned("X-AppId"), self.appid.clone()));
        h.push((owned("X-Timestamp"), fmt_i64(timestamp)));
        h.push((owned("X-Signature"), self.signature(timestamp, api_path)));
        assert(h@.map_values(|h: (String, String)| (h.0@, h.1@)) =~= (seq![
            header("Accept", "application/json"@),
            header("User-Agent", USER_AGENT_VALUE@),
        ] + if json {
            seq![header("Content-Type", "application/json"@)]
        } else {
            Seq::empty()
        } + seq![
            header("X-AppId", self.appid@),
            header("X-Timestamp", dec_int(timestamp as int)),
            header("X-Signature", spec_signature(self.appid@, timestamp as int, api_path@, self.appsecret@)),
        ]));
        h
    }
}

/// `<API_BASE><api_path>`.
pub fn api_url(api_path: &str) -> (r: String)
    ensures
        r@ == API_BASE@ + api_path@,
{
    let mut u = owned(API_BASE);
    push_str(&mut u, api_path);
    u
}

/// The path of the match API.
pub fn match_api_path() -> (r: String)
    ensures
        r@ == "/api/v2/match"@,
{
    owned("/api/v2/match")
}

/// The path of the comment API for an episode.
pub fn comment_api_path(episode_id: i64) -> (r: String)
    ensures
        r@ == "/api/v2/comment/"@ + dec_int(episode_id as int),
{
    let mut p = owned("/api/v2/comment/");
    let id = fmt_i64(episode_id);
    push_str(&mut p, id.as_str());
    p
}

/// The path of the anime details API.
pub fn bangumi_api_path(anime_id: i64) -> (r: String)
    ensures
        r@ == "/api/v2/bangumi/"@ + dec_int(anime_id as int),
{
    let mut p = owned("/api/v2/bangumi/");
    let id = fmt_i64(anime_id);
    push_str(&mut p, id.as_str());
    p
}

/// The JSON body of a hash-only match request, fields in key order:
/// `{"fileHash":<hash>,"fileSize":<size>,"matchMode":"hashOnly"}`.
pub open spec fn spec_match_body(hash: Seq<char>, size: nat) -> Seq<char> {
    seq!['{'] + spec_json_quote("fileHash"@) + seq![':'] + spec_json_quote(hash) + seq![','] + spec_json_quote(
        "fileSize"@,
    ) + seq![':'] + dec(size) + seq![','] + spec_json_quote("matchMode"@) + seq![':'] + spec_json_quote(
        "hashOnly"@,
    ) + seq!['}']
}

pub fn match_request_body(file_hash: &str, file_size: u64) -> (r: String)
    ensures
        r@ == spec_match_body(file_hash@, file_size as nat),
{
    let mut b = String::new();
    push_char(&mut b, '{');
    let k1 = json_quote("fileHash");
    push_str(&mut b, k1.as_str());
    push_char(&mut b, ':');
    let v1 = json_quote(file_hash);
    push_str(&mut b, v1.as_str());
    push_char(&mut b, ',');
    let k2 = json_quote("fileSize");
    push_str(&mut b, k2.as_str());
    push_char(&mut b, ':');
    let v2 = fmt_u64(file_size);
    push_str(&mut b, v2.as_str());
    push_char(&mut b, ',');
    let k3 = json_quote("matchMode");
    push_str(&mut b, k3.as_str());
    push_char(&mut b, ':');
    let v3 = json_quote("hashOnly");
    push_str(&mut b, v3.as_str());
    push_char(&mut b, '}');
    assert(b@ =~= spec_match_body(file_hash@, file_size as nat));
    b
}

/// A reply that the API refused.
pub struct ApiError {
    /// The status line, as the HTTP client writes it (code and reason).
    pub status: String,
    pub api_path: String,
    /// The `errorMessage` of the reply, else its trimmed body, else a stock text.
    pub message: String,
}

/// Whether a status is a failure: neither 2xx nor 302.
pub open spec fn is_failure(code: u16) -> bool {
    !(200 <= code && code <= 299) && code != 302
}

/// What a failed reply says: its `errorMessage` string if it is a JSON object with one,
/// else its body trimmed.
pub open spec fn spec_reply_message(body: Seq<char>, parsed: Option<Json>) -> Seq<char> {
    match parsed {
        Some(v) => match spec_get(v, "errorMessage"@) {
            Some(Json::Str(m)) => m,
            _ => trim(body),
        },
        None => trim(body),
    }
}

pub open spec fn no_message() -> Seq<char> {
    "无错误信息"@
}

/// Judges a reply: the body of a reply whose status is 2xx or 302, else an error with the
/// status text, the API path and the reply's message. `parsed` is the body read as JSON,
/// if it is JSON.
pub fn check_response(
    status_code: u16,
    status_text: &str,
    body: String,
    parsed: Option<JsonValue>,
    api_path: &str,
) -> (r: Result<String, ApiError>)
    ensures
        !is_failure(status_code) ==> (r matches Ok(b) && b@ == body@),
        is_failure(status_code) ==> (r matches Err(e) && e.status@ == status_text@ && e.api_path@
            == api_path@ && e.message@ == (if spec_reply_message(body@, opt_json(parsed)).len()
            == 0 {
            no_message()
        } else {
            spec_reply_message(body@, opt_json(parsed))
        })),
{
    if (200 <= status_code && status_code <= 299) || status_code == 302 {
        return Ok(body);
    }
    let message = match &parsed {
        Some(v) => match v.get("errorMessage") {
            Some(JsonValue::Str(m)) => m.clone(),
            _ => trim_str(body.as_str()),
        },
        None => trim_str(body.as_str()),
    };
    let mc = crate::text::chars_of(message.as_str());
    let message = if mc.len() == 0 {
        owned("无错误信息")
    } else {
        message
    };
    Err(ApiError { status: owned(status_text), api_path: owned(api_path), message })
}

impl ApiError {
    /// `Dandanplay API 请求失败: <status> <path>: <message>`.
    pub fn to_message(&self) -> (r: String)
        ensures
            r@ == "Dandanplay API 请求失败: "@ + self.status@ + seq![' '] + self.api_path@ + ": "@
                + self.message@,
    {
        let mut m = owned("Dandanplay API 请求失败: ");
        push_str(&mut m, self.status.as_str());
        push_char(&mut m, ' ');
        push_str(&mut m, self.api_path.as_str());
        push_str(&mut m, ": ");
        push_str(&mut m, self.message.as_str());
        m
    }
}


/// The text that is hashed is AppID, timestamp, API path and AppSecret, in that order and
/// nothing else: the signature is the Base64 of the SHA-256 of the UTF-8 bytes of that text.
pub proof fn law_signature_text_order(
    appid: Seq<char>,
    timestamp: int,
    api_path: Seq<char>,
    appsecret: Seq<char>,
)
    ensures
        spec_signature(appid, timestamp, api_path, appsecret) == spec_base64(
            spec_sha256(
                vstd::utf8::encode_utf8(
                    appid.add(dec_int(timestamp)).add(api_path).add(appsecret),
                ),
            ),
        ),
        timestamp == 100 ==> spec_signature(appid, timestamp, api_path, appsecret) == spec_base64(
            spec_sha256(
                vstd::utf8::encode_utf8(appid + seq!['1', '0', '0'] + api_path + appsecret),
            ),
        ),
{
    reveal_with_fuel(dec, 3);
    assert(dec_int(100) =~= seq!['1', '0', '0']);
}


/// A text of ASCII letters is quoted as it is, between double quotes.
proof fn lemma_quote_letters(s: Seq<char>)
    requires
        forall|i: int| 0 <= i < s.len() ==> ('a' <= #[trigger] s[i] <= 'z' || 'A' <= s[i] <= 'Z'),
    ensures
        spec_json_quote(s) == seq!['"'] + s + seq!['"'],
    decreases s.len(),
{
    lemma_escaped_letters(s);
}

proof fn lemma_escaped_letters(s: Seq<char>)
    requires
        forall|i: int| 0 <= i < s.len() ==> ('a' <= #[trigger] s[i] <= 'z' || 'A' <= s[i] <= 'Z'),
    ensures
        crate::json::json_escaped(s) == s,
    decreases s.len(),
{
    if s.len() > 0 {
        assert forall|i: int| 0 <= i < s.drop_last().len() implies ('a' <= #[trigger] s.drop_last()[i] <= 'z'
            || 'A' <= s.drop_last()[i] <= 'Z') by {
            assert(s.drop_last()[i] == s[i]);
        }
        lemma_escaped_letters(s.drop_last());
        let c = s.last();
        assert('a' <= c <= 'z' || 'A' <= c <= 'Z');
        assert((c as u32) >= 0x41);
        assert(s.drop_last() + seq![c] =~= s);
    }
}

/// The body of a hash-only match request is
/// `{"fileHash":<hash as a JSON string>,"fileSize":<size>,"matchMode":"hashOnly"}`.
pub proof fn law_match_body_layout(hash: Seq<char>, size: nat)
    ensures
        spec_match_body(hash, size) == seq!['{', '"', 'f', 'i', 'l', 'e', 'H', 'a', 's', 'h', '"', ':']
            + spec_json_quote(hash) + seq![',', '"', 'f', 'i', 'l', 'e', 'S', 'i', 'z', 'e', '"', ':']
            + dec(size) + seq![
            ',', '"', 'm', 'a', 't', 'c', 'h', 'M', 'o', 'd', 'e', '"', ':', '"', 'h', 'a', 's', 'h',
            'O', 'n', 'l', 'y', '"', '}',
        ],
{
    reveal_strlit("fileHash");
    reveal_strlit("fileSize");
    reveal_strlit("matchMode");
    reveal_strlit("hashOnly");
    assert("fileHash"@ =~= seq!['f', 'i', 'l', 'e', 'H', 'a', 's', 'h']);
    assert("fileSize"@ =~= seq!['f', 'i', 'l', 'e', 'S', 'i', 'z', 'e']);
    assert("matchMode"@ =~= seq!['m', 'a', 't', 'c', 'h', 'M', 'o', 'd', 'e']);
    assert("hashOnly"@ =~= seq!['h', 'a', 's', 'h', 'O', 'n', 'l', 'y']);
    lemma_quote_letters("fileHash"@);
    lemma_quote_letters("fileSize"@);
    lemma_quote_letters("matchMode"@);
    lemma_quote_letters("hashOnly"@);
    assert(spec_match_body(hash, size) =~= seq!['{', '"', 'f', 'i', 'l', 'e', 'H', 'a', 's', 'h', '"', ':']
            + spec_json_quote(hash) + seq![',', '"', 'f', 'i', 'l', 'e', 'S', 'i', 'z', 'e', '"', ':']
            + dec(size) + seq![
            ',', '"', 'm', 'a', 't', 'c', 'h', 'M', 'o', 'd', 'e', '"', ':', '"', 'h', 'a', 's', 'h',
            'O', 'n', 'l', 'y', '"', '}',
        ]);
}

/// A reply succeeds exactly when its status is 2xx or 302: every other status, 1xx,
/// 301, 303 to 399, 4xx and 5xx among them, is a failure.
pub proof fn law_failure_statuses(code: u16)
    ensures
        200 <= code <= 299 ==> !is_failure(code),
        code == 302 ==> !is_failure(code),
        (code < 200 || code > 299) && code != 302 ==> is_failure(code),
{
}

/// What a failed reply says: the `errorMessage` string of a JSON object reply when it has
/// one, else the body trimmed; a reply with nothing to say is reported as `无错误信息`.
pub proof fn law_reply_message(body: Seq<char>, parsed: Option<Json>)
    ensures
        forall|m: Seq<char>|
            parsed is Some && spec_get(
                parsed.unwrap(),
                seq!['e', 'r', 'r', 'o', 'r', 'M', 'e', 's', 's', 'a', 'g', 'e'],
            ) == Some(Json::Str(m)) ==> spec_reply_message(body, parsed) == m,
        parsed is None || !(spec_get(
            parsed.unwrap(),
            seq!['e', 'r', 'r', 'o', 'r', 'M', 'e', 's', 's', 'a', 'g', 'e'],
        ) matches Some(Json::Str(_))) ==> spec_reply_message(body, parsed) == trim(body),
        no_message() == seq!['无', '错', '误', '信', '息'],
{
    reveal_strlit("errorMessage");
    reveal_strlit("无错误信息");
    assert("errorMessage"@ =~= seq!['e', 'r', 'r', 'o', 'r', 'M', 'e', 's', 's', 'a', 'g', 'e']);
    assert("无错误信息"@ =~= seq!['无', '错', '误', '信', '息']);
}

} // verus!
