//! The local router's HTTP side: when it runs, which route a request takes,
//! what a request's head says, and how a response starts.
//!
//! The caller owns the socket, the listener and the upstream client; these
//! functions decide.

use vstd::prelude::*;

use crate::json::{entries_model, jv, obj, push_entry, v_as_bool, v_get, Json, JsonV};
use crate::local_router::{find_header_end, health, is_crlf2, opt_str_view, router_health_entries, RouterConfig};
use crate::relay_config::{clone_opt, RelaySettings, RelaySettingsV};
use crate::text::{
    is_white_space, trim_start_seq, chars_of, decimal, decimal_chars, owned, push_str_chars, str_eq, string_of, trim_seq, trim_chars,
    trim_string,
};

verus! {

/// `s` without its trailing `/` characters (`str::trim_end_matches('/')`).
pub open spec fn trim_end_slashes(s: Seq<char>) -> Seq<char>
    decreases s.len(),
{
    if s.len() > 0 && s.last() == '/' {
        trim_end_slashes(s.drop_last())
    } else {
        s
    }
}

pub fn trim_end_slashes_exec(s: &str) -> (r: String)
    ensures
        r@ == trim_end_slashes(s@),
{
    let c = chars_of(s);
    let mut e: usize = c.len();
    proof {
        assert(c@.take(c@.len() as int) =~= c@);
    }
    while e > 0 && c[e - 1] == '/'
        invariant
            e <= c@.len(),
            trim_end_slashes(c@) == trim_end_slashes(c@.take(e as int)),
        decreases e,
    {
        proof {
            assert(c@.take(e as int).drop_last() =~= c@.take(e - 1));
        }
        e -= 1;
    }
    string_of(&crate::text::slice_chars(&c, 0, e))
}

/// What the router must do for the settings.
#[derive(Debug)]
pub enum RouterPlan {
    /// The router is not wanted.
    Skip,
    /// Listen on the config's port, and serve with the config.
    Start(RouterConfig),
    /// A listener on the config's port runs already: serve with the config.
    Reuse(RouterConfig),
}

/// The settings ask for the local router.
pub open spec fn router_wanted(s: RelaySettingsV) -> bool {
    s.enabled && s.route_mode == "local_router"@
}

/// Why the router cannot serve the settings, checked in this order.
pub open spec fn router_error(s: RelaySettingsV) -> Option<Seq<char>> {
    if trim_end_slashes(trim_seq(s.base_url)).len() == 0 {
        Some("API Base URL cannot be empty."@)
    } else if trim_seq(s.api_key).len() == 0 {
        Some("API Key cannot be empty."@)
    } else if s.upstream_wire_api != "chat_completions"@ {
        Some("Local router currently supports chat_completions upstreams only."@)
    } else {
        None
    }
}

/// The router configuration made from the settings: the endpoint trimmed and
/// without trailing slashes, the key trimmed.
pub open spec fn config_from(c: RouterConfig, s: RelaySettingsV) -> bool {
    &&& c.port == s.local_port
    &&& c.upstream_base_url@ == trim_end_slashes(trim_seq(s.base_url))
    &&& c.api_key@ == trim_seq(s.api_key)
    &&& opt_str_view(c.upstream_model) == s.upstream_model
    &&& c.upstream_wire_api@ == s.upstream_wire_api
}

/// Decides what the router does for the settings, given the port of the
/// listener that runs already, if any.
pub fn ensure_router_for_settings(settings: &RelaySettings, active_port: Option<u16>) -> (r: Result<
    RouterPlan,
    String,
>)
    ensures
        !router_wanted(settings@) <==> r matches Ok(RouterPlan::Skip),
        r is Err <==> router_wanted(settings@) && router_error(settings@) is Some,
        r matches Err(e) ==> router_error(settings@) == Some(e@),
        r matches Ok(RouterPlan::Start(c)) ==> router_wanted(settings@) && router_error(settings@) is None
            && config_from(c, settings@) && active_port != Some(c.port),
        r matches Ok(RouterPlan::Reuse(c)) ==> router_wanted(settings@) && router_error(settings@) is None
            && config_from(c, settings@) && active_port == Some(c.port),
{
    if !settings.enabled || !str_eq(settings.route_mode.as_str(), "local_router") {
        return Ok(RouterPlan::Skip);
    }
    let trimmed = trim_string(settings.base_url.as_str());
    let config = RouterConfig {
        port: settings.local_port,
        upstream_base_url: trim_end_slashes_exec(trimmed.as_str()),
        api_key: trim_string(settings.api_key.as_str()),
        upstream_model: clone_opt(&settings.upstream_model),
        upstream_wire_api: settings.upstream_wire_api.clone(),
    };
    if config.upstream_base_url.as_str().is_empty() {
        return Err(owned("API Base URL cannot be empty."));
    }
    if config.api_key.as_str().is_empty() {
        return Err(owned("API Key cannot be empty."));
    }
    if !str_eq(config.upstream_wire_api.as_str(), "chat_completions") {
        return Err(owned("Local router currently supports chat_completions upstreams only."));
    }
    let start = match active_port {
        Some(p) => p != config.port,
        None => true,
    };
    if start {
        Ok(RouterPlan::Start(config))
    } else {
        Ok(RouterPlan::Reuse(config))
    }
}

/// Where a request goes.
#[derive(Debug)]
pub enum RouteAction {
    /// `GET /health`: the router's health.
    Health,
    /// `GET` on the Responses endpoint: the health with a description of it.
    EndpointInfo,
    /// Any other method than `POST`.
    MethodNotAllowed,
    /// `POST` to the Responses endpoint: converted to Chat Completions.
    Responses,
    /// Any other `POST`: passed through to the upstream.
    Passthrough,
}

pub open spec fn is_responses_path(path: Seq<char>) -> bool {
    path == "/v1/responses"@ || path == "/responses"@
}

pub open spec fn route_v(method: Seq<char>, path: Seq<char>) -> RouteAction {
    if method == "GET"@ && path == "/health"@ {
        RouteAction::Health
    } else if method == "GET"@ && is_responses_path(path) {
        RouteAction::EndpointInfo
    } else if method != "POST"@ {
        RouteAction::MethodNotAllowed
    } else if is_responses_path(path) {
        RouteAction::Responses
    } else {
        RouteAction::Passthrough
    }
}

pub fn route_request(method: &str, path: &str) -> (r: RouteAction)
    ensures
        r == route_v(method@, path@),
{
    let responses = str_eq(path, "/v1/responses") || str_eq(path, "/responses");
    if str_eq(method, "GET") && str_eq(path, "/health") {
        RouteAction::Health
    } else if str_eq(method, "GET") && responses {
        RouteAction::EndpointInfo
    } else if !str_eq(method, "POST") {
        RouteAction::MethodNotAllowed
    } else if responses {
        RouteAction::Responses
    } else {
        RouteAction::Passthrough
    }
}

/// The description of the Responses endpoint at `path`.
pub open spec fn endpoint_v(path: Seq<char>) -> JsonV {
    JsonV::Object(
        seq![
            ("method"@, JsonV::Str("POST"@)),
            ("path"@, JsonV::Str(path)),
            (
                "description"@,
                JsonV::Str(
                    "Codex Toolkit accepts OpenAI Responses requests here and routes them to a Chat Completions upstream."@,
                ),
            ),
        ],
    )
}

/// The health with `endpoint` describing the Responses endpoint at `path`.
pub fn endpoint_info(config: &RouterConfig, path: &str) -> (r: Json)
    ensures
        jv(r) == JsonV::Object(health(*config)->Object_0.push(("endpoint"@, endpoint_v(path@)))),
{
    let mut es = router_health_entries(config);
    let mut ep: Vec<(String, Json)> = Vec::new();
    push_entry(&mut ep, "method", Json::str_of("POST"));
    push_entry(&mut ep, "path", Json::str_of(path));
    push_entry(
        &mut ep,
        "description",
        Json::str_of(
            "Codex Toolkit accepts OpenAI Responses requests here and routes them to a Chat Completions upstream.",
        ),
    );
    proof {
        assert(entries_model(ep@) =~= endpoint_v(path@)->Object_0);
    }
    push_entry(&mut es, "endpoint", obj(ep));
    obj(es)
}

/// The body of the answer to a method other than `POST`.
pub open spec fn method_not_allowed_v() -> JsonV {
    JsonV::Object(
        seq![
            (
                "error"@,
                JsonV::Object(
                    seq![
                        (
                            "message"@,
                            JsonV::Str("Only POST is supported by Codex Toolkit local router."@),
                        ),
                    ],
                ),
            ),
        ],
    )
}

pub fn method_not_allowed_body() -> (r: Json)
    ensures
        jv(r) == method_not_allowed_v(),
{
    let mut inner: Vec<(String, Json)> = Vec::new();
    push_entry(&mut inner, "message", Json::str_of("Only POST is supported by Codex Toolkit local router."));
    proof {
        assert(entries_model(inner@) =~= seq![
            ("message"@, JsonV::Str("Only POST is supported by Codex Toolkit local router."@)),
        ]);
    }
    let mut outer: Vec<(String, Json)> = Vec::new();
    push_entry(&mut outer, "error", obj(inner));
    proof {
        assert(entries_model(outer@) =~= method_not_allowed_v()->Object_0);
    }
    obj(outer)
}

/// The upstream's Chat Completions endpoint.
pub fn chat_completions_url(config: &RouterConfig) -> (r: String)
    ensures
        r@ == config.upstream_base_url@ + "/chat/completions"@,
{
    let mut c = chars_of(config.upstream_base_url.as_str());
    push_str_chars(&mut c, "/chat/completions");
    string_of(&c)
}

/// The upstream URL for a passed-through path: the path without a leading
/// `/v1`, after the upstream's base URL.
pub open spec fn passthrough_url_v(base: Seq<char>, path: Seq<char>) -> Seq<char> {
    if crate::text::starts_with(path, "/v1"@) {
        base + path.skip(3)
    } else {
        base + path
    }
}

pub fn passthrough_url(config: &RouterConfig, path: &str) -> (r: String)
    ensures
        r@ == passthrough_url_v(config.upstream_base_url@, path@),
{
    let p = chars_of(path);
    let v1 = chars_of("/v1");
    let mut c = chars_of(config.upstream_base_url.as_str());
    proof {
        reveal_strlit("/v1");
    }
    if crate::text::starts_with_exec(&p, &v1) {
        let mut rest = crate::text::slice_chars(&p, 3, p.len());
        c.append(&mut rest);
        proof {
            assert(c@ =~= config.upstream_base_url@ + path@.skip(3));
        }
    } else {
        let mut all = p;
        c.append(&mut all);
    }
    string_of(&c)
}

/// A Responses request asks for a stream (`stream: true`).
pub open spec fn stream_requested(request: JsonV) -> bool {
    match v_get(request, "stream"@) {
        Some(v) => v_as_bool(v) == Some(true),
        None => false,
    }
}

pub fn request_stream_enabled(request: &Json) -> (r: bool)
    ensures
        r == stream_requested(jv(*request)),
{
    match request.get("stream") {
        Some(v) => match v.as_bool() {
            Some(b) => b,
            None => false,
        },
        None => false,
    }
}

/// The reason phrase of a status line.
pub open spec fn reason_phrase(status: u16) -> Seq<char> {
    if status == 200 {
        "OK"@
    } else if status == 400 {
        "Bad Request"@
    } else if status == 405 {
        "Method Not Allowed"@
    } else if status == 500 {
        "Internal Server Error"@
    } else {
        "Upstream"@
    }
}

/// The head of a response whose body has `body_len` bytes.
pub open spec fn response_head_v(status: u16, content_type: Seq<char>, body_len: nat) -> Seq<char> {
    "HTTP/1.1 "@ + decimal(status as nat) + " "@ + reason_phrase(status) + "\r\ncontent-type: "@
        + content_type + "\r\ncontent-length: "@ + decimal(body_len) + "\r\nconnection: close\r\n\r\n"@
}

pub fn response_head(status: u16, content_type: &str, body_len: usize) -> (r: String)
    ensures
        r@ == response_head_v(status, content_type@, body_len as nat),
{
    let reason = if status == 200 {
        "OK"
    } else if status == 400 {
        "Bad Request"
    } else if status == 405 {
        "Method Not Allowed"
    } else if status == 500 {
        "Internal Server Error"
    } else {
        "Upstream"
    };
    let mut c = chars_of("HTTP/1.1 ");
    let mut d = decimal_chars(status as u64);
    c.append(&mut d);
    push_str_chars(&mut c, " ");
    push_str_chars(&mut c, reason);
    push_str_chars(&mut c, "\r\ncontent-type: ");
    push_str_chars(&mut c, content_type);
    push_str_chars(&mut c, "\r\ncontent-length: ");
    let mut n = decimal_chars(body_len as u64);
    c.append(&mut n);
    push_str_chars(&mut c, "\r\nconnection: close\r\n\r\n");
    string_of(&c)
}

/// The head of the event-stream answer.
pub fn event_stream_head() -> (r: String)
    ensures
        r@ == "HTTP/1.1 200 OK\r\ncontent-type: text/event-stream\r\ncache-control: no-cache\r\nconnection: close\r\n\r\n"@,
{
    owned("HTTP/1.1 200 OK\r\ncontent-type: text/event-stream\r\ncache-control: no-cache\r\nconnection: close\r\n\r\n")
}

/// One server-sent event carrying `data` (a JSON text).
pub fn sse_frame(event: &str, data: &str) -> (r: String)
    ensures
        r@ == "event: "@ + event@ + "\ndata: "@ + data@ + "\n\n"@,
{
    let mut c = chars_of("event: ");
    push_str_chars(&mut c, event);
    push_str_chars(&mut c, "\ndata: ");
    push_str_chars(&mut c, data);
    push_str_chars(&mut c, "\n\n");
    string_of(&c)
}

/// The end-of-stream marker sent after the last event.
pub fn done_frame() -> (r: String)
    ensures
        r@ == "data: [DONE]\n\n"@,
{
    owned("data: [DONE]\n\n")
}


/// How far the head of a request has arrived.
#[derive(Debug)]
pub enum HeaderScan {
    /// The head ends at this index (`\r\n\r\n` starts there).
    Complete(usize),
    /// More than 64 KiB arrived without the end of the head.
    TooLarge,
    /// More must be read.
    Incomplete,
}

/// Looks for the end of the head in what was read so far.
pub fn header_scan(buffer: &[u8]) -> (r: HeaderScan)
    ensures
        match r {
            HeaderScan::Complete(i) => i + 4 <= buffer@.len() && is_crlf2(buffer@, i as int)
                && forall|k: int| 0 <= k < i ==> !is_crlf2(buffer@, k),
            HeaderScan::TooLarge => buffer@.len() > 65536 && forall|k: int|
                0 <= k && k + 4 <= buffer@.len() ==> !is_crlf2(buffer@, k),
            HeaderScan::Incomplete => buffer@.len() <= 65536 && forall|k: int|
                0 <= k && k + 4 <= buffer@.len() ==> !is_crlf2(buffer@, k),
        },
{
    match find_header_end(buffer) {
        Some(i) => HeaderScan::Complete(i),
        None => if buffer.len() > 65536 {
            HeaderScan::TooLarge
        } else {
            HeaderScan::Incomplete
        },
    }
}

/// The text that `String::from_utf8_lossy` makes of the bytes.
pub uninterp spec fn utf8_lossy(bytes: Seq<u8>) -> Seq<char>;

/// `String::from_utf8_lossy`: the bytes as text, each invalid sequence
/// replaced by U+FFFD.
#[verifier::external_body]
pub(crate) fn decode_utf8_lossy(bytes: &[u8]) -> (r: String)
    ensures
        r@ == utf8_lossy(bytes@),
{
    String::from_utf8_lossy(bytes).into_owned()
}

/// Index of the first `c` in `t`, or -1.
pub open spec fn first_index_of(t: Seq<char>, c: char) -> int
    decreases t.len(),
{
    if t.len() == 0 {
        -1
    } else if t[0] == c {
        0
    } else {
        let r = first_index_of(t.skip(1), c);
        if r < 0 {
            -1
        } else {
            r + 1
        }
    }
}

pub proof fn lemma_first_index_of(t: Seq<char>, c: char)
    ensures
        -1 <= first_index_of(t, c) < t.len(),
        first_index_of(t, c) >= 0 ==> t[first_index_of(t, c)] == c,
        forall|j: int| 0 <= j < t.len() && (first_index_of(t, c) < 0 || j < first_index_of(t, c)) ==> #[trigger] t[j] != c,
    decreases t.len(),
{
    if t.len() > 0 && t[0] != c {
        lemma_first_index_of(t.skip(1), c);
        assert forall|j: int| 0 <= j < t.len() && (first_index_of(t, c) < 0 || j < first_index_of(t, c)) implies #[trigger] t[j] != c by {
            if j > 0 {
                assert(t.skip(1)[j - 1] == t[j]);
            }
        }
    }
}

pub fn index_of_char(t: &[char], c: char) -> (r: Option<usize>)
    ensures
        match r {
            Some(i) => first_index_of(t@, c) == i,
            None => first_index_of(t@, c) < 0,
        },
{
    let mut i: usize = 0;
    proof {
        lemma_first_index_of(t@, c);
    }
    while i < t.len()
        invariant
            i <= t@.len(),
            forall|j: int| 0 <= j < i ==> t@[j] != c,
            -1 <= first_index_of(t@, c) < t@.len(),
            first_index_of(t@, c) >= 0 ==> t@[first_index_of(t@, c)] == c,
            forall|j: int| 0 <= j < t@.len() && (first_index_of(t@, c) < 0 || j < first_index_of(t@, c)) ==> #[trigger] t@[j] != c,
        decreases t.len() - i,
    {
        if t[i] == c {
            return Some(i);
        }
        i += 1;
    }
    None
}

/// A line without the `\r` before its `\n`.
pub open spec fn strip_cr(l: Seq<char>) -> Seq<char> {
    if l.len() > 0 && l.last() == '\r' {
        l.drop_last()
    } else {
        l
    }
}

/// The lines of a text (`str::lines`): split at `\n`, a `\r` before it
/// dropped, no line after a final `\n`.
pub open spec fn text_lines(t: Seq<char>) -> Seq<Seq<char>>
    decreases t.len(),
{
    let i = first_index_of(t, '\n');
    if i < 0 {
        if t.len() == 0 {
            Seq::empty()
        } else {
            seq![t]
        }
    } else {
        proof {
            lemma_first_index_of(t, '\n');
        }
        seq![strip_cr(t.take(i))] + text_lines(t.skip(i + 1))
    }
}

/// Index of the first white-space character of `t`, or its length.
pub open spec fn ws_index(t: Seq<char>) -> nat
    decreases t.len(),
{
    if t.len() == 0 {
        0
    } else if is_white_space(t[0]) {
        0
    } else {
        ws_index(t.skip(1)) + 1
    }
}

/// The first white-space separated word of `t` and what follows it.
pub open spec fn first_word(t: Seq<char>) -> (Seq<char>, Seq<char>) {
    let u = trim_start_seq(t);
    let e = ws_index(u);
    (u.take(e as int), u.skip(e as int))
}

/// An ASCII upper-case letter's lower-case code; any other character's code.
pub open spec fn ascii_lower_code(c: char) -> u32 {
    if 'A' <= c && c <= 'Z' {
        (c as u32 + 32) as u32
    } else {
        c as u32
    }
}

/// `str::eq_ignore_ascii_case`.
pub open spec fn eq_ignore_ascii_case(a: Seq<char>, b: Seq<char>) -> bool {
    a.len() == b.len() && forall|i: int| 0 <= i < a.len() ==> #[trigger] ascii_lower_code(a[i]) == ascii_lower_code(b[i])
}

/// The value of a run of decimal digits.
pub open spec fn digits_value(d: Seq<char>) -> nat
    decreases d.len(),
{
    if d.len() == 0 {
        0
    } else {
        digits_value(d.drop_last()) * 10 + (d.last() as nat - '0' as nat) as nat
    }
}

pub open spec fn all_digits(d: Seq<char>) -> bool {
    forall|i: int| 0 <= i < d.len() ==> '0' <= #[trigger] d[i] && d[i] <= '9'
}

/// `str::parse` into an unsigned integer type whose largest value is
/// `max`: an optional `+`, then at least one digit, and a value that fits.
pub open spec fn parse_bounded_v(s: Seq<char>, max: nat) -> Option<nat> {
    let d = if s.len() > 0 && s[0] == '+' {
        s.skip(1)
    } else {
        s
    };
    if d.len() == 0 || !all_digits(d) || digits_value(d) > max {
        None
    } else {
        Some(digits_value(d))
    }
}

/// `str::parse::<usize>`.
pub open spec fn parse_usize_v(s: Seq<char>) -> Option<nat> {
    parse_bounded_v(s, usize::MAX as nat)
}

proof fn lemma_digits_prefix(d: Seq<char>, i: int)
    requires
        0 <= i <= d.len(),
        all_digits(d),
    ensures
        digits_value(d.take(i)) <= digits_value(d),
    decreases d.len(),
{
    if i < d.len() {
        let dl = d.drop_last();
        assert(dl.take(i) =~= d.take(i));
        assert(all_digits(dl));
        lemma_digits_prefix(dl, i);
    } else {
        assert(d.take(i) =~= d);
    }
}

/// Parses a decimal number no larger than `max`; see `parse_bounded_v`.
pub fn parse_bounded(s: &[char], max: usize) -> (r: Option<usize>)
    ensures
        match r {
            Some(n) => parse_bounded_v(s@, max as nat) == Some(n as nat),
            None => parse_bounded_v(s@, max as nat) is None,
        },
{
    let start: usize = if s.len() > 0 && s[0] == '+' {
        1
    } else {
        0
    };
    let ghost d = if s@.len() > 0 && s@[0] == '+' {
        s@.skip(1)
    } else {
        s@
    };
    if start >= s.len() {
        proof {
            assert(d.len() == 0);
        }
        return None;
    }
    let mut v: usize = 0;
    let mut i: usize = start;
    proof {
        assert(d.take(0) =~= Seq::<char>::empty());
    }
    while i < s.len()
        invariant
            start <= i <= s@.len(),
            d == s@.skip(start as int),
            parse_bounded_v(s@, max as nat) == (if d.len() == 0 || !all_digits(d) || digits_value(d) > max {
                None
            } else {
                Some(digits_value(d))
            }),
            all_digits(d.take(i - start)),
            v as nat == digits_value(d.take(i - start)),
            v <= max,
        decreases s.len() - i,
    {
        let c = s[i];
        if !('0' <= c && c <= '9') {
            proof {
                assert(d[i - start] == c);
            }
            return None;
        }
        let digit: usize = (c as u32 - '0' as u32) as usize;
        proof {
            assert(d.take(i + 1 - start).drop_last() =~= d.take(i - start));
            assert(d.take(i + 1 - start).last() == c);
            assert(all_digits(d.take(i + 1 - start)));
        }
        let m = v.checked_mul(10);
        let next = match m {
            Some(x) => x.checked_add(digit),
            None => None,
        };
        match next {
            Some(n) => {
                if n > max {
                    proof {
                        if all_digits(d) {
                            lemma_digits_prefix(d, i + 1 - start);
                        }
                    }
                    return None;
                }
                v = n;
            },
            None => {
                proof {
                    if all_digits(d) {
                        lemma_digits_prefix(d, i + 1 - start);
                    }
                }
                return None;
            },
        }
        i += 1;
    }
    proof {
        assert(d.take(i - start) =~= d);
    }
    Some(v)
}

pub fn parse_usize(s: &[char]) -> (r: Option<usize>)
    ensures
        match r {
            Some(n) => parse_usize_v(s@) == Some(n as nat),
            None => parse_usize_v(s@) is None,
        },
{
    parse_bounded(s, usize::MAX)
}

/// What the head of a request says.
#[derive(Debug)]
pub struct RequestHead {
    pub method: String,
    pub path: String,
    pub content_length: usize,
}

/// The `Content-Length` of header lines: the value of the first line whose
/// name (before its first `:`) is `content-length` in any case, trimmed and
/// parsed; 0 when there is none or it does not parse.
pub open spec fn content_length_v(lines: Seq<Seq<char>>) -> nat
    decreases lines.len(),
{
    if lines.len() == 0 {
        0
    } else {
        let l = lines[0];
        let ci = first_index_of(l, ':');
        if ci >= 0 && eq_ignore_ascii_case(l.take(ci), "content-length"@) {
            match parse_usize_v(trim_seq(l.skip(ci + 1))) {
                Some(n) => n,
                None => 0,
            }
        } else {
            content_length_v(lines.skip(1))
        }
    }
}

/// The head of a request from its text: method and path are the first two
/// words of the first line.
pub open spec fn request_head_v(text: Seq<char>) -> Option<(Seq<char>, Seq<char>, nat)> {
    let lines = text_lines(text);
    if lines.len() == 0 {
        None
    } else {
        let (method, rest) = first_word(lines[0]);
        let (path, _) = first_word(rest);
        Some((method, path, content_length_v(lines.skip(1))))
    }
}


pub open spec fn lines_view(v: Seq<Vec<char>>) -> Seq<Seq<char>> {
    v.map_values(|l: Vec<char>| l@)
}

/// The lines of a text; see `text_lines`.
pub fn split_lines(t: &[char]) -> (r: Vec<Vec<char>>)
    ensures
        lines_view(r@) == text_lines(t@),
{
    let mut out: Vec<Vec<char>> = Vec::new();
    let mut rest: Vec<char> = crate::text::slice_chars(t, 0, t.len());
    proof {
        assert(rest@ =~= t@);
        assert(lines_view(out@) =~= Seq::<Seq<char>>::empty());
    }
    while rest.len() > 0
        invariant
            lines_view(out@) + text_lines(rest@) == text_lines(t@),
        decreases rest.len(),
    {
        let ghost before = rest@;
        match index_of_char(&rest, '\n') {
            Some(i) => {
                proof {
                    lemma_first_index_of(rest@, '\n');
                }
                let mut line = crate::text::slice_chars(&rest, 0, i);
                if line.len() > 0 && line[line.len() - 1] == '\r' {
                    line.pop();
                }
                let next = crate::text::slice_chars(&rest, i + 1, rest.len());
                proof {
                    assert(line@ == strip_cr(before.take(i as int))) by {
                        assert(before.subrange(0, i as int) =~= before.take(i as int));
                    }
                    assert(next@ =~= before.skip(i + 1));
                }
                let ghost out_before = lines_view(out@);
                out.push(line);
                proof {
                    assert(lines_view(out@) =~= out_before.push(strip_cr(before.take(i as int))));
                    assert(text_lines(before) == seq![strip_cr(before.take(i as int))] + text_lines(before.skip(i + 1)));
                    assert(lines_view(out@) + text_lines(next@) =~= out_before + text_lines(before));
                }
                rest = next;
            },
            None => {
                let ghost out_before = lines_view(out@);
                let last = rest;
                rest = Vec::new();
                out.push(last);
                proof {
                    assert(text_lines(before) == seq![before]);
                    assert(text_lines(rest@) == Seq::<Seq<char>>::empty());
                    assert(lines_view(out@) =~= out_before.push(before));
                    assert(lines_view(out@) + text_lines(rest@) =~= out_before + text_lines(before));
                }
            },
        }
    }
    proof {
        assert(text_lines(rest@) == Seq::<Seq<char>>::empty());
        assert(lines_view(out@) + text_lines(rest@) =~= lines_view(out@));
    }
    out
}

proof fn lemma_ws_index(t: Seq<char>)
    ensures
        ws_index(t) <= t.len(),
    decreases t.len(),
{
    if t.len() > 0 && !is_white_space(t[0]) {
        lemma_ws_index(t.skip(1));
    }
}

/// The first word of `t` and what follows it; see `first_word`.
pub fn first_word_exec(t: &[char]) -> (r: (Vec<char>, Vec<char>))
    ensures
        (r.0@, r.1@) == first_word(t@),
{
    let u = crate::text::trim_start_chars(t);
    let mut e: usize = 0;
    proof {
        lemma_ws_index(u@);
        assert(u@.skip(0) =~= u@);
    }
    while e < u.len() && !crate::text::char_is_white_space(u[e])
        invariant
            e <= u@.len(),
            ws_index(u@) == e + ws_index(u@.skip(e as int)),
        decreases u.len() - e,
    {
        proof {
            assert(u@.skip(e as int).skip(1) =~= u@.skip(e + 1));
        }
        e += 1;
    }
    proof {
        assert(ws_index(u@.skip(e as int)) == 0);
    }
    (crate::text::slice_chars(&u, 0, e), crate::text::slice_chars(&u, e, u.len()))
}

pub fn eq_ignore_ascii_case_exec(a: &[char], b: &[char]) -> (r: bool)
    ensures
        r == eq_ignore_ascii_case(a@, b@),
{
    if a.len() != b.len() {
        return false;
    }
    let mut i: usize = 0;
    while i < a.len()
        invariant
            a@.len() == b@.len(),
            i <= a@.len(),
            forall|j: int| 0 <= j < i ==> #[trigger] ascii_lower_code(a@[j]) == ascii_lower_code(b@[j]),
        decreases a.len() - i,
    {
        let x = a[i];
        let y = b[i];
        let lx: u32 = if 'A' <= x && x <= 'Z' {
            x as u32 + 32
        } else {
            x as u32
        };
        let ly: u32 = if 'A' <= y && y <= 'Z' {
            y as u32 + 32
        } else {
            y as u32
        };
        if lx != ly {
            assert(ascii_lower_code(a@[i as int]) != ascii_lower_code(b@[i as int]));
            return false;
        }
        i += 1;
    }
    true
}

/// The head of a request from its text; `None` when it has no line.
pub fn parse_request_head(text: &str) -> (r: Option<RequestHead>)
    ensures
        match r {
            Some(h) => request_head_v(text@) == Some((h.method@, h.path@, h.content_length as nat)),
            None => request_head_v(text@) is None,
        },
{
    let t = chars_of(text);
    let lines = split_lines(&t);
    if lines.len() == 0 {
        return None;
    }
    let (method, rest) = first_word_exec(&lines[0]);
    let (path, _) = first_word_exec(&rest);
    let name_ref = chars_of("content-length");
    let mut content_length: usize = 0;
    let mut k: usize = 1;
    let ghost lv = lines_view(lines@);
    proof {
        assert(lv.skip(1).skip(0) =~= lv.skip(1));
        assert(lv[0] == lines@[0]@);
    }
    let ghost head = request_head_v(text@);
    while k < lines.len()
        invariant
            1 <= k <= lines@.len(),
            lv == lines_view(lines@),
            name_ref@ == "content-length"@,
            content_length == 0,
            content_length_v(lv.skip(1)) == content_length_v(lv.skip(k as int)),
            head == request_head_v(text@),
            head == Some((method@, path@, content_length_v(lv.skip(1)))),
        decreases lines.len() - k,
    {
        let l = &lines[k];
        proof {
            assert(lv.skip(k as int)[0] == l@);
            assert(lv.skip(k as int).skip(1) =~= lv.skip(k + 1));
        }
        match index_of_char(l, ':') {
            Some(ci) => {
                proof {
                    lemma_first_index_of(l@, ':');
                }
                let name = crate::text::slice_chars(l, 0, ci);
                proof {
                    assert(name@ =~= l@.take(ci as int));
                }
                if eq_ignore_ascii_case_exec(&name, &name_ref) {
                    let value = crate::text::slice_chars(l, ci + 1, l.len());
                    let tv = trim_chars(&value);
                    proof {
                        assert(value@ =~= l@.skip(ci + 1));
                    }
                    let n = match parse_usize(&tv) {
                        Some(n) => n,
                        None => 0,
                    };
                    return Some(RequestHead { method: string_of(&method), path: string_of(&path), content_length: n });
                }
            },
            None => {},
        }
        k += 1;
    }
    proof {
        assert(lv.skip(k as int) =~= Seq::<Seq<char>>::empty());
    }
    Some(RequestHead { method: string_of(&method), path: string_of(&path), content_length })
}

/// The head of a request from the bytes before its blank line (decoded
/// lossily); an error when it has no line.
pub fn read_request_head(buffer: &[u8], header_end: usize) -> (r: Result<RequestHead, String>)
    requires
        header_end <= buffer@.len(),
    ensures
        match r {
            Ok(h) => request_head_v(utf8_lossy(buffer@.take(header_end as int))) == Some(
                (h.method@, h.path@, h.content_length as nat),
            ),
            Err(e) => request_head_v(utf8_lossy(buffer@.take(header_end as int))) is None
                && e@ == "HTTP request line is missing."@,
        },
{
    let mut head: Vec<u8> = Vec::new();
    let mut i: usize = 0;
    while i < header_end
        invariant
            i <= header_end <= buffer@.len(),
            head@ == buffer@.take(i as int),
        decreases header_end - i,
    {
        head.push(buffer[i]);
        proof {
            assert(buffer@.take(i + 1) =~= buffer@.take(i as int).push(buffer@[i as int]));
        }
        i += 1;
    }
    let text = decode_utf8_lossy(head.as_slice());
    match parse_request_head(text.as_str()) {
        Some(h) => Ok(h),
        None => Err(owned("HTTP request line is missing.")),
    }
}
} // verus!
