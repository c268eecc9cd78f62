//! Token usage statistics from Codex session logs: token counts per event,
//! hourly and daily buckets, and totals per provider.
//!
//! Instants are seconds since the Unix epoch with the nanoseconds within
//! that second, compared in that order (as `chrono` orders UTC times).

use vstd::prelude::*;

use crate::history_sync::{lemma_str_lt_irrefl, lemma_str_lt_total, lemma_str_lt_trans, str_lt, str_lt_exec};
use crate::json::{jv, v_as_i64, v_as_u64, v_get, v_get_opt, v_is_number, v_opt_str, Json, JsonV};
use crate::local_router::opt_str_view;
use crate::router_http::{eq_ignore_ascii_case, eq_ignore_ascii_case_exec, first_index_of, lines_view, split_lines, text_lines};
use crate::text::{chars_of, owned, slice_chars, starts_with, starts_with_exec, str_eq, string_of, trim_chars, trim_seq, trim_start_seq, trim_start_chars};

verus! {

/// Token counts of one event or of a sum of events.
#[derive(Debug)]
pub struct TokenUsage {
    pub input_tokens: u64,
    pub cached_input_tokens: u64,
    pub output_tokens: u64,
    pub reasoning_output_tokens: u64,
    pub total_tokens: u64,
}

/// The sum of two usages, field by field, when every field fits.
pub open spec fn usage_sum_fits(a: TokenUsage, b: TokenUsage) -> bool {
    &&& a.input_tokens + b.input_tokens <= u64::MAX
    &&& a.cached_input_tokens + b.cached_input_tokens <= u64::MAX
    &&& a.output_tokens + b.output_tokens <= u64::MAX
    &&& a.reasoning_output_tokens + b.reasoning_output_tokens <= u64::MAX
    &&& a.total_tokens + b.total_tokens <= u64::MAX
}

impl TokenUsage {
    /// No tokens.
    pub fn zero() -> (r: Self)
        ensures
            r.input_tokens == 0 && r.cached_input_tokens == 0 && r.output_tokens == 0
                && r.reasoning_output_tokens == 0 && r.total_tokens == 0,
    {
        TokenUsage { input_tokens: 0, cached_input_tokens: 0, output_tokens: 0, reasoning_output_tokens: 0, total_tokens: 0 }
    }

    /// A copy.
    pub fn copy(&self) -> (r: Self)
        ensures
            r == *self,
    {
        TokenUsage {
            input_tokens: self.input_tokens,
            cached_input_tokens: self.cached_input_tokens,
            output_tokens: self.output_tokens,
            reasoning_output_tokens: self.reasoning_output_tokens,
            total_tokens: self.total_tokens,
        }
    }

    /// Adds another usage, field by field.
    pub fn add_assign(&mut self, other: &TokenUsage)
        requires
            usage_sum_fits(*old(self), *other),
        ensures
            final(self).input_tokens == old(self).input_tokens + other.input_tokens,
            final(self).cached_input_tokens == old(self).cached_input_tokens + other.cached_input_tokens,
            final(self).output_tokens == old(self).output_tokens + other.output_tokens,
            final(self).reasoning_output_tokens == old(self).reasoning_output_tokens + other.reasoning_output_tokens,
            final(self).total_tokens == old(self).total_tokens + other.total_tokens,
    {
        self.input_tokens = self.input_tokens + other.input_tokens;
        self.cached_input_tokens = self.cached_input_tokens + other.cached_input_tokens;
        self.output_tokens = self.output_tokens + other.output_tokens;
        self.reasoning_output_tokens = self.reasoning_output_tokens + other.reasoning_output_tokens;
        self.total_tokens = self.total_tokens + other.total_tokens;
    }
}

/// Token counts and events within a time slot.
#[derive(Debug)]
pub struct TokenBucket {
    pub input_tokens: u64,
    pub cached_input_tokens: u64,
    pub output_tokens: u64,
    pub reasoning_output_tokens: u64,
    pub total_tokens: u64,
    pub event_count: usize,
}

impl Default for TokenBucket {
    fn default() -> (r: Self)
        ensures
            r.input_tokens == 0 && r.cached_input_tokens == 0 && r.output_tokens == 0
                && r.reasoning_output_tokens == 0 && r.total_tokens == 0 && r.event_count == 0,
    {
        TokenBucket {
            input_tokens: 0,
            cached_input_tokens: 0,
            output_tokens: 0,
            reasoning_output_tokens: 0,
            total_tokens: 0,
            event_count: 0,
        }
    }
}

impl TokenBucket {
    /// Adds one event's usage.
    pub fn add_usage(&mut self, usage: &TokenUsage)
        requires
            old(self).input_tokens + usage.input_tokens <= u64::MAX,
            old(self).cached_input_tokens + usage.cached_input_tokens <= u64::MAX,
            old(self).output_tokens + usage.output_tokens <= u64::MAX,
            old(self).reasoning_output_tokens + usage.reasoning_output_tokens <= u64::MAX,
            old(self).total_tokens + usage.total_tokens <= u64::MAX,
            old(self).event_count < usize::MAX,
        ensures
            final(self).input_tokens == old(self).input_tokens + usage.input_tokens,
            final(self).cached_input_tokens == old(self).cached_input_tokens + usage.cached_input_tokens,
            final(self).output_tokens == old(self).output_tokens + usage.output_tokens,
            final(self).reasoning_output_tokens == old(self).reasoning_output_tokens + usage.reasoning_output_tokens,
            final(self).total_tokens == old(self).total_tokens + usage.total_tokens,
            final(self).event_count == old(self).event_count + 1,
    {
        self.input_tokens = self.input_tokens + usage.input_tokens;
        self.cached_input_tokens = self.cached_input_tokens + usage.cached_input_tokens;
        self.output_tokens = self.output_tokens + usage.output_tokens;
        self.reasoning_output_tokens = self.reasoning_output_tokens + usage.reasoning_output_tokens;
        self.total_tokens = self.total_tokens + usage.total_tokens;
        self.event_count = self.event_count + 1;
    }
}

/// The usage object of an event: all five counts, as unsigned integers.
pub open spec fn parse_usage_v(v: JsonV) -> Option<TokenUsage> {
    match (
        v_as_u64_opt(v_get(v, "input_tokens"@)),
        v_as_u64_opt(v_get(v, "cached_input_tokens"@)),
        v_as_u64_opt(v_get(v, "output_tokens"@)),
        v_as_u64_opt(v_get(v, "reasoning_output_tokens"@)),
        v_as_u64_opt(v_get(v, "total_tokens"@)),
    ) {
        (Some(a), Some(b), Some(c), Some(d), Some(e)) => Some(
            TokenUsage { input_tokens: a, cached_input_tokens: b, output_tokens: c, reasoning_output_tokens: d, total_tokens: e },
        ),
        _ => None,
    }
}

pub open spec fn v_as_u64_opt(v: Option<JsonV>) -> Option<u64> {
    match v {
        Some(x) => v_as_u64(x),
        None => None,
    }
}

fn get_u64(v: &Json, key: &str) -> (r: Option<u64>)
    ensures
        r == v_as_u64_opt(v_get(jv(*v), key@)),
{
    match v.get(key) {
        Some(x) => x.as_u64(),
        None => None,
    }
}

pub fn parse_usage(value: &Json) -> (r: Option<TokenUsage>)
    ensures
        r == parse_usage_v(jv(*value)),
{
    let a = get_u64(value, "input_tokens");
    let b = get_u64(value, "cached_input_tokens");
    let c = get_u64(value, "output_tokens");
    let d = get_u64(value, "reasoning_output_tokens");
    let e = get_u64(value, "total_tokens");
    match (a, b, c, d, e) {
        (Some(a), Some(b), Some(c), Some(d), Some(e)) => Some(
            TokenUsage { input_tokens: a, cached_input_tokens: b, output_tokens: c, reasoning_output_tokens: d, total_tokens: e },
        ),
        _ => None,
    }
}

/// A provider behind a relay reports token usage rather than rate limits:
/// any provider but `openai` (in any case) and `unknown`.
pub open spec fn relay_usage_provider_v(p: Seq<char>) -> bool {
    !eq_ignore_ascii_case(p, "openai"@) && p != "unknown"@
}

pub fn is_relay_usage_provider(provider: &str) -> (r: bool)
    ensures
        r == relay_usage_provider_v(provider@),
{
    let p = chars_of(provider);
    let o = chars_of("openai");
    !eq_ignore_ascii_case_exec(&p, &o) && !str_eq(provider, "unknown")
}

/// How the usage snapshot is shown, by the provider of the latest event:
/// `"token_usage"` for a relay provider, `"rate_limit"` otherwise. With no
/// event there is no snapshot.
pub open spec fn usage_mode_v(events: Seq<TokenEvent>) -> Result<Seq<char>, Seq<char>> {
    if events.len() == 0 {
        Err("No Codex usage events were found"@)
    } else if relay_usage_provider_v(events.last().provider@) {
        Ok("token_usage"@)
    } else {
        Ok("rate_limit"@)
    }
}

/// The usage mode of the snapshot of `events`, the latest last; see
/// `usage_mode_v`.
pub fn usage_mode(events: &Vec<TokenEvent>) -> (r: Result<String, String>)
    ensures
        match r {
            Ok(m) => usage_mode_v(events@) == Ok::<Seq<char>, Seq<char>>(m@),
            Err(e) => usage_mode_v(events@) == Err::<Seq<char>, Seq<char>>(e@),
        },
{
    if events.len() == 0 {
        return Err(owned("No Codex usage events were found"));
    }
    let last = &events[events.len() - 1];
    if is_relay_usage_provider(last.provider.as_str()) {
        Ok(owned("token_usage"))
    } else {
        Ok(owned("rate_limit"))
    }
}

/// The value of `key = "..."` at the start of a line: after the key,
/// optional space, `=`, optional space and a quote, the text up to the next
/// quote.
pub open spec fn quoted_value_v(line: Seq<char>, key: Seq<char>) -> Option<Seq<char>> {
    if !starts_with(line, key) {
        None
    } else {
        let rest = trim_start_seq(line.skip(key.len() as int));
        if rest.len() == 0 || rest[0] != '=' {
            None
        } else {
            let value = trim_start_seq(rest.skip(1));
            if value.len() == 0 || value[0] != '"' {
                None
            } else {
                let v = value.skip(1);
                let end = first_index_of(v, '"');
                if end < 0 {
                    None
                } else {
                    Some(v.take(end))
                }
            }
        }
    }
}

pub fn parse_quoted_toml_value(line: &str, key: &str) -> (r: Option<String>)
    ensures
        opt_str_view(r) == quoted_value_v(line@, key@),
{
    let l = chars_of(line);
    let k = chars_of(key);
    if !starts_with_exec(&l, &k) {
        return None;
    }
    let after = slice_chars(&l, k.len(), l.len());
    let rest = trim_start_chars(&after);
    proof {
        assert(after@ =~= l@.skip(k@.len() as int));
    }
    if rest.len() == 0 || rest[0] != '=' {
        return None;
    }
    let after_eq = slice_chars(&rest, 1, rest.len());
    let value = trim_start_chars(&after_eq);
    proof {
        assert(after_eq@ =~= rest@.skip(1));
    }
    if value.len() == 0 || value[0] != '"' {
        return None;
    }
    let v = slice_chars(&value, 1, value.len());
    proof {
        assert(v@ =~= value@.skip(1));
        crate::router_http::lemma_first_index_of(v@, '"');
    }
    match crate::router_http::index_of_char(&v, '"') {
        Some(end) => {
            let out = slice_chars(&v, 0, end);
            proof {
                assert(out@ =~= v@.take(end as int));
            }
            Some(string_of(&out))
        },
        None => None,
    }
}

/// Adds a provider unless it is listed.
pub open spec fn add_provider(ps: Seq<Seq<char>>, p: Seq<char>) -> Seq<Seq<char>> {
    if ps.contains(p) {
        ps
    } else {
        ps.push(p)
    }
}

/// The provider a configuration line names: the root `model_provider`
/// value, or a `[model_providers.<id>]` header's trimmed id (when not
/// empty).
pub open spec fn line_provider(line: Seq<char>) -> Option<Seq<char>> {
    let t = trim_seq(line);
    match quoted_value_v(t, "model_provider"@) {
        Some(v) => Some(v),
        None => crate::history_sync::header_provider(t),
    }
}

/// The providers a configuration names, after `openai`, each once.
pub open spec fn usage_providers_v(lines: Seq<Seq<char>>) -> Seq<Seq<char>>
    decreases lines.len(),
{
    if lines.len() == 0 {
        seq!["openai"@]
    } else {
        let prev = usage_providers_v(lines.drop_last());
        match line_provider(lines.last()) {
            Some(p) => add_provider(prev, p),
            None => prev,
        }
    }
}

/// The providers of the configuration text, when there is one.
pub fn read_configured_providers(contents: Option<&str>) -> (r: Vec<String>)
    ensures
        crate::history_sync::strings_view(r@) == match contents {
            Some(c) => usage_providers_v(text_lines(c@)),
            None => seq!["openai"@],
        },
{
    let mut providers: Vec<String> = Vec::new();
    providers.push(owned("openai"));
    proof {
        assert(crate::history_sync::strings_view(providers@) =~= seq!["openai"@]);
    }
    let contents = match contents {
        Some(c) => c,
        None => return providers,
    };
    let c = chars_of(contents);
    let lines = split_lines(&c);
    let ghost lv = lines_view(lines@);
    let mut k: usize = 0;
    proof {
        assert(lv.take(0) =~= Seq::<Seq<char>>::empty());
    }
    while k < lines.len()
        invariant
            k <= lines@.len(),
            lv == lines_view(lines@),
            lv == text_lines(contents@),
            crate::history_sync::strings_view(providers@) == usage_providers_v(lv.take(k as int)),
        decreases lines.len() - k,
    {
        proof {
            assert(lv.take(k + 1).drop_last() =~= lv.take(k as int));
            assert(lv.take(k + 1).last() == lines@[k as int]@);
        }
        let t = trim_chars(&lines[k]);
        let ts = string_of(&t);
        let found: Option<String> = match parse_quoted_toml_value(ts.as_str(), "model_provider") {
            Some(v) => Some(v),
            None => {
                let prefix = chars_of("[model_providers.");
                if starts_with_exec(&t, &prefix) && t.len() > prefix.len() && t[t.len() - 1] == ']' {
                    let inner = slice_chars(&t, prefix.len(), t.len() - 1);
                    let p = trim_chars(&inner);
                    if p.len() > 0 {
                        Some(string_of(&p))
                    } else {
                        None
                    }
                } else {
                    None
                }
            },
        };
        proof {
            crate::text::lemma_trim_idempotent(lines@[k as int]@);
        }
        match found {
            Some(p) => crate::history_sync::push_unique_provider(&mut providers, p),
            None => {},
        }
        k += 1;
    }
    proof {
        assert(lv.take(lines@.len() as int) =~= lv);
    }
    providers
}

/// The seconds and nanoseconds of an instant that `DateTime::parse_from_rfc3339`
/// reads from a text, in UTC.
pub uninterp spec fn rfc3339_instant(s: Seq<char>) -> Option<(i64, u32)>;

/// `DateTime::parse_from_rfc3339`, as a UTC timestamp and its sub-second
/// nanoseconds; `None` when the text is not an RFC 3339 date-time.
#[verifier::external_body]
pub(crate) fn parse_rfc3339(s: &str) -> (r: Option<(i64, u32)>)
    ensures
        r == rfc3339_instant(s@),
{
    chrono::DateTime::parse_from_rfc3339(s).ok().map(|t| (t.timestamp(), t.timestamp_subsec_nanos()))
}

/// A token-count event: when it happened, the provider of its session, and
/// the usage it reports.
#[derive(Debug)]
pub struct TokenEvent {
    pub secs: i64,
    pub nanos: u32,
    pub provider: String,
    pub total_usage: Option<TokenUsage>,
    pub last_usage: Option<TokenUsage>,
}

/// What a session log line holds when it is a token count: its time, and
/// the total and last usage (at least one of them).
pub open spec fn token_event_v(v: JsonV) -> Option<(i64, u32, Option<TokenUsage>, Option<TokenUsage>)> {
    match v_opt_str(v_get(v, "timestamp"@)) {
        None => None,
        Some(ts) => match rfc3339_instant(ts) {
            None => None,
            Some((secs, nanos)) => match v_get(v, "payload"@) {
                None => None,
                Some(payload) => if v_opt_str(v_get(payload, "type"@)) != Some("token_count"@) {
                    None
                } else {
                    let info = v_get(payload, "info"@);
                    let total = match info {
                        Some(i) => match v_get(i, "total_token_usage"@) {
                            Some(u) => parse_usage_v(u),
                            None => None,
                        },
                        None => None,
                    };
                    let last = match info {
                        Some(i) => match v_get(i, "last_token_usage"@) {
                            Some(u) => parse_usage_v(u),
                            None => None,
                        },
                        None => None,
                    };
                    if total is None && last is None {
                        None
                    } else {
                        Some((secs, nanos, total, last))
                    }
                },
            },
        },
    }
}

fn usage_at(info: Option<&Json>, key: &str) -> (r: Option<TokenUsage>)
    ensures
        r == match opt_jv_ref(info) {
            Some(i) => match v_get(i, key@) {
                Some(u) => parse_usage_v(u),
                None => None,
            },
            None => None,
        },
{
    match info {
        Some(i) => match i.get(key) {
            Some(u) => parse_usage(u),
            None => None,
        },
        None => None,
    }
}

pub open spec fn opt_jv_ref(o: Option<&Json>) -> Option<JsonV> {
    match o {
        Some(j) => Some(jv(*j)),
        None => None,
    }
}

/// The token-count event of a log line of a session of `provider`.
pub fn token_event(value: &Json, provider: &str) -> (r: Option<TokenEvent>)
    ensures
        match r {
            Some(e) => token_event_v(jv(*value)) == Some((e.secs, e.nanos, e.total_usage, e.last_usage)) && e.provider@ == provider@,
            None => token_event_v(jv(*value)) is None,
        },
{
    let ts = match value.get("timestamp") {
        Some(t) => match t.as_str() {
            Some(s) => s,
            None => return None,
        },
        None => return None,
    };
    let (secs, nanos) = match parse_rfc3339(ts.as_str()) {
        Some(x) => x,
        None => return None,
    };
    let payload = match value.get("payload") {
        Some(p) => p,
        None => return None,
    };
    let is_count = match payload.get("type") {
        Some(t) => match t.as_str() {
            Some(s) => str_eq(s.as_str(), "token_count"),
            None => false,
        },
        None => false,
    };
    if !is_count {
        return None;
    }
    let info = payload.get("info");
    let total = usage_at(info, "total_token_usage");
    let last = usage_at(info, "last_token_usage");
    if total.is_none() && last.is_none() {
        return None;
    }
    Some(TokenEvent { secs, nanos, provider: owned(provider), total_usage: total, last_usage: last })
}

/// The provider a log line names, when it is the session's metadata.
pub open spec fn session_provider_v(value: JsonV) -> Option<Seq<char>> {
    if v_opt_str(v_get(value, "type"@)) == Some("session_meta"@) {
        match v_get(value, "payload"@) {
            Some(p) => v_opt_str(v_get(p, "model_provider"@)),
            None => None,
        }
    } else {
        None
    }
}

/// The provider named by the metadata line of a session log.
pub fn session_provider(value: &Json) -> (r: Option<String>)
    ensures
        opt_str_view(r) == session_provider_v(jv(*value)),
{
    let is_meta = match value.get("type") {
        Some(t) => match t.as_str() {
            Some(s) => str_eq(s.as_str(), "session_meta"),
            None => false,
        },
        None => false,
    };
    if !is_meta {
        return None;
    }
    match value.get("payload") {
        Some(p) => match p.get("model_provider") {
            Some(m) => match m.as_str() {
                Some(s) => Some(s.clone()),
                None => None,
            },
            None => None,
        },
        None => None,
    }
}

/// The `rate_limits` object of a log line: `payload.rate_limits`.
pub open spec fn rate_limits_v(value: JsonV) -> Option<JsonV> {
    v_get_opt(v_get(value, "payload"@), "rate_limits"@)
}

/// The plan named by a log line's rate limits, `"unknown"` where it names none.
pub open spec fn plan_type_v(value: JsonV) -> Seq<char> {
    match v_opt_str(v_get_opt(rate_limits_v(value), "plan_type"@)) {
        Some(s) => s,
        None => "unknown"@,
    }
}

/// The plan named by the rate limits of a log line.
pub fn plan_type(value: &Json) -> (r: String)
    ensures
        r@ == plan_type_v(jv(*value)),
{
    let found = match value.get("payload") {
        Some(p) => match p.get("rate_limits") {
            Some(l) => match l.get("plan_type") {
                Some(t) => t.as_str(),
                None => None,
            },
            None => None,
        },
        None => None,
    };
    match found {
        Some(s) => s.clone(),
        None => {
            proof {
                reveal_strlit("unknown");
            }
            owned("unknown")
        },
    }
}

/// The integer parts of one rate-limit window (`"primary"` or `"secondary"`
/// under `payload.rate_limits`): its length in minutes and the time it resets
/// at. A window is read only where its `used_percent` is a number and both
/// parts are integers that fit `i64`.
pub open spec fn rate_window_v(value: JsonV, which: Seq<char>) -> Option<(i64, i64)> {
    let w = v_get_opt(rate_limits_v(value), which);
    match (v_get_opt(w, "used_percent"@), v_get_opt(w, "window_minutes"@), v_get_opt(w, "resets_at"@)) {
        (Some(p), Some(m), Some(t)) => if v_is_number(p) {
            match (v_as_i64(m), v_as_i64(t)) {
                (Some(a), Some(b)) => Some((a, b)),
                _ => None,
            }
        } else {
            None
        },
        _ => None,
    }
}

/// The window length and reset time of one rate-limit window of a log line;
/// see `rate_window_v`.
pub fn rate_window(value: &Json, which: &str) -> (r: Option<(i64, i64)>)
    ensures
        r == rate_window_v(jv(*value), which@),
{
    let w = match value.get("payload") {
        Some(p) => match p.get("rate_limits") {
            Some(l) => l.get(which),
            None => None,
        },
        None => None,
    };
    let w = match w {
        Some(w) => w,
        None => return None,
    };
    let p = match w.get("used_percent") {
        Some(p) => p,
        None => return None,
    };
    let m = match w.get("window_minutes") {
        Some(m) => m,
        None => return None,
    };
    let t = match w.get("resets_at") {
        Some(t) => t,
        None => return None,
    };
    if !p.is_number() {
        return None;
    }
    match (m.as_i64(), t.as_i64()) {
        (Some(a), Some(b)) => Some((a, b)),
        _ => None,
    }
}

/// The model's context window reported by a log line:
/// `payload.info.model_context_window`, where it is an unsigned integer.
pub open spec fn context_window_v(value: JsonV) -> Option<u64> {
    match v_get_opt(v_get_opt(v_get(value, "payload"@), "info"@), "model_context_window"@) {
        Some(n) => v_as_u64(n),
        None => None,
    }
}

/// The model's context window reported by a log line; see `context_window_v`.
pub fn context_window(value: &Json) -> (r: Option<u64>)
    ensures
        r == context_window_v(jv(*value)),
{
    match value.get("payload") {
        Some(p) => match p.get("info") {
            Some(i) => match i.get("model_context_window") {
                Some(n) => n.as_u64(),
                None => None,
            },
            None => None,
        },
        None => None,
    }
}

/// The usage counted for an event: the last usage, else the total.
pub open spec fn event_usage(e: TokenEvent) -> Option<TokenUsage> {
    match e.last_usage {
        Some(u) => Some(u),
        None => e.total_usage,
    }
}

/// `(s1, n1)` is not later than `(s2, n2)`.
pub open spec fn not_after(s1: int, n1: int, s2: int, n2: int) -> bool {
    s1 < s2 || (s1 == s2 && n1 <= n2)
}

/// The model of a bucket.
pub struct BucketV {
    pub input: nat,
    pub cached: nat,
    pub output: nat,
    pub reasoning: nat,
    pub total: nat,
    pub count: nat,
}

/// The event lies in the slot from `(ls, ln)` (included when `incl`) to
/// `(hs, hn)` (included).
pub open spec fn in_slot(e: TokenEvent, ls: int, ln: int, incl: bool, hs: int, hn: int) -> bool {
    (if incl {
        not_after(ls, ln, e.secs as int, e.nanos as int)
    } else {
        !not_after(e.secs as int, e.nanos as int, ls, ln)
    }) && not_after(e.secs as int, e.nanos as int, hs, hn)
}

/// The usage of the events of a slot that report one.
pub open spec fn slot_bucket(events: Seq<TokenEvent>, ls: int, ln: int, incl: bool, hs: int, hn: int) -> BucketV
    decreases events.len(),
{
    if events.len() == 0 {
        BucketV { input: 0, cached: 0, output: 0, reasoning: 0, total: 0, count: 0 }
    } else {
        let b = slot_bucket(events.drop_last(), ls, ln, incl, hs, hn);
        let e = events.last();
        match event_usage(e) {
            Some(u) => if in_slot(e, ls, ln, incl, hs, hn) {
                BucketV {
                    input: b.input + u.input_tokens as nat,
                    cached: b.cached + u.cached_input_tokens as nat,
                    output: b.output + u.output_tokens as nat,
                    reasoning: b.reasoning + u.reasoning_output_tokens as nat,
                    total: b.total + u.total_tokens as nat,
                    count: b.count + 1,
                }
            } else {
                b
            },
            None => b,
        }
    }
}

/// A bucket whose sums fit its integer types.
pub open spec fn bucket_fits(b: BucketV) -> bool {
    b.input <= u64::MAX && b.cached <= u64::MAX && b.output <= u64::MAX && b.reasoning <= u64::MAX
        && b.total <= u64::MAX && b.count <= usize::MAX
}

/// No sum of `a` is larger than that of `b`.
pub open spec fn bucket_le(a: BucketV, b: BucketV) -> bool {
    a.input <= b.input && a.cached <= b.cached && a.output <= b.output && a.reasoning <= b.reasoning
        && a.total <= b.total && a.count <= b.count
}

proof fn lemma_slot_prefix(events: Seq<TokenEvent>, k: int, ls: int, ln: int, incl: bool, hs: int, hn: int)
    requires
        0 <= k <= events.len(),
    ensures
        bucket_le(slot_bucket(events.take(k), ls, ln, incl, hs, hn), slot_bucket(events, ls, ln, incl, hs, hn)),
    decreases events.len(),
{
    if k < events.len() {
        assert(events.drop_last().take(k) =~= events.take(k));
        lemma_slot_prefix(events.drop_last(), k, ls, ln, incl, hs, hn);
    } else {
        assert(events.take(k) =~= events);
    }
}

pub open spec fn bucket_view(b: TokenBucket) -> BucketV {
    BucketV {
        input: b.input_tokens as nat,
        cached: b.cached_input_tokens as nat,
        output: b.output_tokens as nat,
        reasoning: b.reasoning_output_tokens as nat,
        total: b.total_tokens as nat,
        count: b.event_count as nat,
    }
}

fn event_usage_exec(e: &TokenEvent) -> (r: Option<&TokenUsage>)
    ensures
        match r {
            Some(u) => event_usage(*e) == Some(*u),
            None => event_usage(*e) is None,
        },
{
    match &e.last_usage {
        Some(u) => Some(u),
        None => match &e.total_usage {
            Some(u) => Some(u),
            None => None,
        },
    }
}

fn not_after_exec(s1: i64, n1: u32, s2: i64, n2: u32) -> (r: bool)
    ensures
        r == not_after(s1 as int, n1 as int, s2 as int, n2 as int),
{
    s1 < s2 || (s1 == s2 && n1 <= n2)
}

/// One event's usage added to a bucket.
pub open spec fn add_usage_v(b: BucketV, u: TokenUsage) -> BucketV {
    BucketV {
        input: b.input + u.input_tokens as nat,
        cached: b.cached + u.cached_input_tokens as nat,
        output: b.output + u.output_tokens as nat,
        reasoning: b.reasoning + u.reasoning_output_tokens as nat,
        total: b.total + u.total_tokens as nat,
        count: b.count + 1,
    }
}

/// The bucket with one event's usage added; `None` when a sum would not fit.
fn checked_add_usage(b: &TokenBucket, u: &TokenUsage) -> (r: Option<TokenBucket>)
    ensures
        match r {
            Some(n) => bucket_view(n) == add_usage_v(bucket_view(*b), *u),
            None => !bucket_fits(add_usage_v(bucket_view(*b), *u)),
        },
{
    match (
        b.input_tokens.checked_add(u.input_tokens),
        b.cached_input_tokens.checked_add(u.cached_input_tokens),
        b.output_tokens.checked_add(u.output_tokens),
        b.reasoning_output_tokens.checked_add(u.reasoning_output_tokens),
        b.total_tokens.checked_add(u.total_tokens),
        b.event_count.checked_add(1),
    ) {
        (Some(i), Some(c), Some(o), Some(r), Some(t), Some(n)) => Some(
            TokenBucket {
                input_tokens: i,
                cached_input_tokens: c,
                output_tokens: o,
                reasoning_output_tokens: r,
                total_tokens: t,
                event_count: n,
            },
        ),
        _ => None,
    }
}

/// The bucket of the slot (see `slot_bucket`), or `None` when one of its
/// sums does not fit its integer type.
pub fn try_slot_bucket(events: &Vec<TokenEvent>, ls: i64, ln: u32, incl: bool, hs: i64, hn: u32) -> (r: Option<TokenBucket>)
    ensures
        match r {
            Some(b) => bucket_view(b) == slot_bucket(events@, ls as int, ln as int, incl, hs as int, hn as int),
            None => !bucket_fits(slot_bucket(events@, ls as int, ln as int, incl, hs as int, hn as int)),
        },
{
    let mut bucket = TokenBucket::default();
    let mut i: usize = 0;
    proof {
        assert(events@.take(0) =~= Seq::<TokenEvent>::empty());
    }
    while i < events.len()
        invariant
            i <= events@.len(),
            bucket_view(bucket) == slot_bucket(events@.take(i as int), ls as int, ln as int, incl, hs as int, hn as int),
        decreases events.len() - i,
    {
        proof {
            assert(events@.take(i + 1).drop_last() =~= events@.take(i as int));
            assert(events@.take(i + 1).last() == events@[i as int]);
        }
        let e = &events[i];
        let lower = if incl {
            not_after_exec(ls, ln, e.secs, e.nanos)
        } else {
            !not_after_exec(e.secs, e.nanos, ls, ln)
        };
        if lower && not_after_exec(e.secs, e.nanos, hs, hn) {
            match event_usage_exec(e) {
                Some(u) => match checked_add_usage(&bucket, u) {
                    Some(n) => bucket = n,
                    None => {
                        proof {
                            lemma_slot_prefix(events@, i + 1, ls as int, ln as int, incl, hs as int, hn as int);
                        }
                        return None;
                    },
                },
                None => {},
            }
        }
        i += 1;
    }
    proof {
        assert(events@.take(events@.len() as int) =~= events@);
    }
    Some(bucket)
}

/// The bucket of the slot; see `slot_bucket`.
pub fn bucket_for_slot(events: &Vec<TokenEvent>, ls: i64, ln: u32, incl: bool, hs: i64, hn: u32) -> (r: TokenBucket)
    requires
        bucket_fits(slot_bucket(events@, ls as int, ln as int, incl, hs as int, hn as int)),
    ensures
        bucket_view(r) == slot_bucket(events@, ls as int, ln as int, incl, hs as int, hn as int),
{
    match try_slot_bucket(events, ls, ln, incl, hs, hn) {
        Some(b) => b,
        None => TokenBucket::default(),
    }
}

/// The hourly slots: the one that ends at `now` last, and the 23 before,
/// each an hour long, its start excluded.
pub open spec fn hourly_bucket_v(events: Seq<TokenEvent>, now_s: int, now_n: int, index: int) -> BucketV {
    let end = now_s - (23 - index) * 3600;
    slot_bucket(events, end - 3600, now_n, false, end, now_n)
}

/// Two buckets added field by field.
pub open spec fn add_buckets(a: BucketV, b: BucketV) -> BucketV {
    BucketV {
        input: a.input + b.input,
        cached: a.cached + b.cached,
        output: a.output + b.output,
        reasoning: a.reasoning + b.reasoning,
        total: a.total + b.total,
        count: a.count + b.count,
    }
}

/// The first `k` hourly buckets added up.
pub open spec fn hourly_prefix(events: Seq<TokenEvent>, now_s: int, now_n: int, k: nat) -> BucketV
    decreases k,
{
    if k == 0 {
        BucketV { input: 0, cached: 0, output: 0, reasoning: 0, total: 0, count: 0 }
    } else {
        add_buckets(hourly_prefix(events, now_s, now_n, (k - 1) as nat), hourly_bucket_v(events, now_s, now_n, k - 1))
    }
}

/// A slot that ends where it starts holds nothing.
proof fn lemma_empty_slot(events: Seq<TokenEvent>, a: int, n: int)
    ensures
        slot_bucket(events, a, n, false, a, n) == (BucketV { input: 0, cached: 0, output: 0, reasoning: 0, total: 0, count: 0 }),
    decreases events.len(),
{
    if events.len() > 0 {
        lemma_empty_slot(events.drop_last(), a, n);
    }
}

/// The slot from `a` to `c` is the slot from `a` to `b` and the one from
/// `b` to `c`, each start excluded and each end included.
proof fn lemma_split_slot(events: Seq<TokenEvent>, a: int, b: int, c: int, n: int)
    requires
        a <= b <= c,
    ensures
        slot_bucket(events, a, n, false, c, n) == add_buckets(
            slot_bucket(events, a, n, false, b, n),
            slot_bucket(events, b, n, false, c, n),
        ),
    decreases events.len(),
{
    if events.len() > 0 {
        lemma_split_slot(events.drop_last(), a, b, c, n);
        let e = events.last();
        assert(in_slot(e, a, n, false, c, n) <==> (in_slot(e, a, n, false, b, n) || in_slot(e, b, n, false, c, n)));
        assert(!(in_slot(e, a, n, false, b, n) && in_slot(e, b, n, false, c, n)));
    }
}

/// The hourly buckets cover the last day without gap or overlap: the
/// first `k` of them add up to the usage of the events after `now` minus
/// 24 hours and at most `now` minus `24 - k` hours; all 24 add up to the
/// usage of the last 24 hours.
pub proof fn law_hourly_buckets_cover_last_day(events: Seq<TokenEvent>, now_s: int, now_n: int, k: nat)
    requires
        k <= 24,
    ensures
        hourly_prefix(events, now_s, now_n, k) == slot_bucket(
            events,
            now_s - 86400,
            now_n,
            false,
            now_s - (24 - k) * 3600,
            now_n,
        ),
    decreases k,
{
    if k == 0 {
        lemma_empty_slot(events, now_s - 86400, now_n);
    } else {
        law_hourly_buckets_cover_last_day(events, now_s, now_n, (k - 1) as nat);
        lemma_split_slot(events, now_s - 86400, now_s - (24 - (k - 1)) * 3600, now_s - (24 - k) * 3600, now_n);
    }
}

/// Instants that `chrono` can hold (a few hundred thousand years around
/// 1970), so that day and hour arithmetic stays in range.
pub open spec fn instant_in_range(secs: int) -> bool {
    -8_000_000_000_000 <= secs <= 8_000_000_000_000
}

/// The 24 hourly buckets up to `now`; see `hourly_bucket_v`.
pub fn build_hourly_token_buckets(events: &Vec<TokenEvent>, now_secs: i64, now_nanos: u32) -> (r: Vec<TokenBucket>)
    requires
        hourly_fit(events@, now_secs as int, now_nanos as int),
        instant_in_range(now_secs as int),
    ensures
        r@.len() == 24,
        forall|i: int| 0 <= i < 24 ==> bucket_view(#[trigger] r@[i]) == hourly_bucket_v(events@, now_secs as int, now_nanos as int, i),
{
    let mut out: Vec<TokenBucket> = Vec::new();
    let mut index: i64 = 0;
    while index < 24
        invariant
            0 <= index <= 24,
            out@.len() == index,
            hourly_fit(events@, now_secs as int, now_nanos as int),
            instant_in_range(now_secs as int),
            forall|i: int| 0 <= i < index ==> bucket_view(#[trigger] out@[i]) == hourly_bucket_v(events@, now_secs as int, now_nanos as int, i),
        decreases 24 - index,
    {
        let end = now_secs - (23 - index) * 3600;
        let start = end - 3600;
        proof {
            assert(bucket_fits(hourly_bucket_v(events@, now_secs as int, now_nanos as int, index as int)));
        }
        let b = bucket_for_slot(events, start, now_nanos, false, end, now_nanos);
        out.push(b);
        index += 1;
    }
    out
}

/// The day (since 1970-01-01) of an instant in UTC.
pub open spec fn day_of(secs: int) -> int {
    secs / 86400
}

/// The daily slots: today and the six days before, each from 00:00:00 to
/// 23:59:59 (both included).
pub open spec fn weekly_bucket_v(events: Seq<TokenEvent>, now_s: int, index: int) -> BucketV {
    let day = day_of(now_s) - (6 - index);
    slot_bucket(events, day * 86400, 0, true, day * 86400 + 86399, 0)
}

fn day_of_exec(secs: i64) -> (r: i64)
    requires
        instant_in_range(secs as int),
    ensures
        r == day_of(secs as int),
        instant_in_range(r as int),
{
    if secs >= 0 {
        secs / 86400
    } else {
        let m: i64 = -secs - 1;
        let q: i64 = m / 86400;
        proof {
            assert(m >= 0);
            assert(m == 86400 * (m / 86400) + m % 86400) by (nonlinear_arith)
                requires
                    m >= 0,
            ;
            assert((secs as int) == 86400 * (-q - 1) + (86399 - m % 86400)) by (nonlinear_arith)
                requires
                    m == 86400 * q + m % 86400,
                    secs == -m - 1,
            ;
            assert(0 <= 86399 - m % 86400 < 86400);
            assert((secs as int) / 86400 == -q - 1) by (nonlinear_arith)
                requires
                    (secs as int) == 86400 * (-q - 1) + (86399 - m % 86400),
                    0 <= 86399 - m % 86400 < 86400,
            ;
        }
        -q - 1
    }
}

/// The 7 daily buckets up to today; see `weekly_bucket_v`.
pub fn build_weekly_token_buckets(events: &Vec<TokenEvent>, now_secs: i64) -> (r: Vec<TokenBucket>)
    requires
        weekly_fit(events@, now_secs as int),
        instant_in_range(now_secs as int),
    ensures
        r@.len() == 7,
        forall|i: int| 0 <= i < 7 ==> bucket_view(#[trigger] r@[i]) == weekly_bucket_v(events@, now_secs as int, i),
{
    let today = day_of_exec(now_secs);
    let mut out: Vec<TokenBucket> = Vec::new();
    let mut index: i64 = 0;
    while index < 7
        invariant
            0 <= index <= 7,
            out@.len() == index,
            weekly_fit(events@, now_secs as int),
            today == day_of(now_secs as int),
            instant_in_range(today as int),
            forall|i: int| 0 <= i < index ==> bucket_view(#[trigger] out@[i]) == weekly_bucket_v(events@, now_secs as int, i),
        decreases 7 - index,
    {
        let day = today - (6 - index);
        let start = day * 86400;
        let end = start + 86399;
        proof {
            assert(bucket_fits(weekly_bucket_v(events@, now_secs as int, index as int)));
        }
        let b = bucket_for_slot(events, start, 0, true, end, 0);
        out.push(b);
        index += 1;
    }
    out
}

/// Every hourly bucket's sums fit their integer types.
pub open spec fn hourly_fit(events: Seq<TokenEvent>, now_s: int, now_n: int) -> bool {
    forall|i: int| 0 <= i < 24 ==> bucket_fits(#[trigger] hourly_bucket_v(events, now_s, now_n, i))
}

/// Every daily bucket's sums fit their integer types.
pub open spec fn weekly_fit(events: Seq<TokenEvent>, now_s: int) -> bool {
    forall|i: int| 0 <= i < 7 ==> bucket_fits(#[trigger] weekly_bucket_v(events, now_s, i))
}

/// Whether the hourly buckets can be counted: the test that
/// `build_hourly_token_buckets` asks of its callers.
pub fn hourly_buckets_fit(events: &Vec<TokenEvent>, now_secs: i64, now_nanos: u32) -> (r: bool)
    requires
        instant_in_range(now_secs as int),
    ensures
        r == hourly_fit(events@, now_secs as int, now_nanos as int),
{
    let mut index: i64 = 0;
    while index < 24
        invariant
            0 <= index <= 24,
            instant_in_range(now_secs as int),
            forall|i: int| 0 <= i < index ==> bucket_fits(#[trigger] hourly_bucket_v(events@, now_secs as int, now_nanos as int, i)),
        decreases 24 - index,
    {
        let end = now_secs - (23 - index) * 3600;
        let start = end - 3600;
        if try_slot_bucket(events, start, now_nanos, false, end, now_nanos).is_none() {
            assert(!bucket_fits(hourly_bucket_v(events@, now_secs as int, now_nanos as int, index as int)));
            return false;
        }
        index += 1;
    }
    true
}

/// Whether the daily buckets can be counted: the test that
/// `build_weekly_token_buckets` asks of its callers.
pub fn weekly_buckets_fit(events: &Vec<TokenEvent>, now_secs: i64) -> (r: bool)
    requires
        instant_in_range(now_secs as int),
    ensures
        r == weekly_fit(events@, now_secs as int),
{
    let today = day_of_exec(now_secs);
    let mut index: i64 = 0;
    while index < 7
        invariant
            0 <= index <= 7,
            today == day_of(now_secs as int),
            instant_in_range(today as int),
            forall|i: int| 0 <= i < index ==> bucket_fits(#[trigger] weekly_bucket_v(events@, now_secs as int, i)),
        decreases 7 - index,
    {
        let day = today - (6 - index);
        let start = day * 86400;
        let end = start + 86399;
        if try_slot_bucket(events, start, 0, true, end, 0).is_none() {
            assert(!bucket_fits(weekly_bucket_v(events@, now_secs as int, index as int)));
            return false;
        }
        index += 1;
    }
    true
}

/// The sum of the buckets' totals.
pub open spec fn sum_totals(bs: Seq<TokenBucket>) -> nat
    decreases bs.len(),
{
    if bs.len() == 0 {
        0
    } else {
        sum_totals(bs.drop_last()) + bs.last().total_tokens as nat
    }
}

/// The sum of the buckets' event counts.
pub open spec fn sum_events(bs: Seq<TokenBucket>) -> nat
    decreases bs.len(),
{
    if bs.len() == 0 {
        0
    } else {
        sum_events(bs.drop_last()) + bs.last().event_count as nat
    }
}

/// The largest total of the buckets, 0 for none.
pub open spec fn peak_total(bs: Seq<TokenBucket>) -> nat
    decreases bs.len(),
{
    if bs.len() == 0 {
        0
    } else {
        let p = peak_total(bs.drop_last());
        if bs.last().total_tokens as nat > p {
            bs.last().total_tokens as nat
        } else {
            p
        }
    }
}

/// Figures of the last 24 hours: total tokens, events, the current hour's
/// tokens and the peak hour's tokens. `None` when a sum does not fit.
pub fn token_totals(hourly: &Vec<TokenBucket>) -> (r: Option<(u64, usize, u64, u64)>)
    ensures
        match r {
            Some((total, events, current, peak)) => total as nat == sum_totals(hourly@) && events as nat == sum_events(hourly@)
                && current == (if hourly@.len() == 0 {
                0
            } else {
                hourly@.last().total_tokens
            }) && peak as nat == peak_total(hourly@),
            None => sum_totals(hourly@) > u64::MAX || sum_events(hourly@) > usize::MAX,
        },
{
    let mut total: u64 = 0;
    let mut events: usize = 0;
    let mut peak: u64 = 0;
    let mut ok = true;
    let mut i: usize = 0;
    proof {
        assert(hourly@.take(0) =~= Seq::<TokenBucket>::empty());
    }
    while i < hourly.len()
        invariant
            i <= hourly@.len(),
            ok ==> total as nat == sum_totals(hourly@.take(i as int)) && events as nat == sum_events(hourly@.take(i as int)),
            peak as nat == peak_total(hourly@.take(i as int)),
            !ok ==> sum_totals(hourly@.take(i as int)) > u64::MAX || sum_events(hourly@.take(i as int)) > usize::MAX,
        decreases hourly.len() - i,
    {
        proof {
            assert(hourly@.take(i + 1).drop_last() =~= hourly@.take(i as int));
            assert(hourly@.take(i + 1).last() == hourly@[i as int]);
        }
        let b = &hourly[i];
        if ok {
            match total.checked_add(b.total_tokens) {
                Some(t) => {
                    match events.checked_add(b.event_count) {
                        Some(e) => {
                            total = t;
                            events = e;
                        },
                        None => {
                            ok = false;
                        },
                    }
                },
                None => {
                    ok = false;
                },
            }
        } else {
            proof {
                lemma_sums_grow(hourly@, i as int);
            }
        }
        if b.total_tokens > peak {
            peak = b.total_tokens;
        }
        i += 1;
    }
    proof {
        assert(hourly@.take(hourly@.len() as int) =~= hourly@);
    }
    if !ok {
        return None;
    }
    let current = if hourly.len() == 0 {
        0
    } else {
        hourly[hourly.len() - 1].total_tokens
    };
    Some((total, events, current, peak))
}

proof fn lemma_sums_grow(bs: Seq<TokenBucket>, i: int)
    requires
        0 <= i < bs.len(),
    ensures
        sum_totals(bs.take(i + 1)) >= sum_totals(bs.take(i)),
        sum_events(bs.take(i + 1)) >= sum_events(bs.take(i)),
{
    assert(bs.take(i + 1).drop_last() =~= bs.take(i));
}

/// Token usage of one provider.
#[derive(Debug)]
pub struct ProviderTokenSummary {
    pub provider: String,
    pub event_count: usize,
    pub input_tokens: u64,
    pub cached_input_tokens: u64,
    pub output_tokens: u64,
    pub reasoning_output_tokens: u64,
    pub total_tokens: u64,
    pub last_event_at: Option<i64>,
}

/// The usage of the events of `p` that report one, and the latest second
/// among them.
pub open spec fn provider_usage(events: Seq<TokenEvent>, p: Seq<char>) -> (BucketV, Option<i64>)
    decreases events.len(),
{
    if events.len() == 0 {
        (BucketV { input: 0, cached: 0, output: 0, reasoning: 0, total: 0, count: 0 }, None)
    } else {
        let (b, last) = provider_usage(events.drop_last(), p);
        let e = events.last();
        match event_usage(e) {
            Some(u) => if e.provider@ == p {
                (
                    BucketV {
                        input: b.input + u.input_tokens as nat,
                        cached: b.cached + u.cached_input_tokens as nat,
                        output: b.output + u.output_tokens as nat,
                        reasoning: b.reasoning + u.reasoning_output_tokens as nat,
                        total: b.total + u.total_tokens as nat,
                        count: b.count + 1,
                    },
                    Some(
                        match last {
                            Some(l) => if e.secs > l {
                                e.secs
                            } else {
                                l
                            },
                            None => e.secs,
                        },
                    ),
                )
            } else {
                (b, last)
            },
            None => (b, last),
        }
    }
}

proof fn lemma_provider_prefix(events: Seq<TokenEvent>, k: int, p: Seq<char>)
    requires
        0 <= k <= events.len(),
    ensures
        bucket_le(provider_usage(events.take(k), p).0, provider_usage(events, p).0),
    decreases events.len(),
{
    if k < events.len() {
        assert(events.drop_last().take(k) =~= events.take(k));
        lemma_provider_prefix(events.drop_last(), k, p);
    } else {
        assert(events.take(k) =~= events);
    }
}

/// A provider of no event that reports usage has nothing counted.
proof fn lemma_provider_absent(events: Seq<TokenEvent>, p: Seq<char>)
    requires
        forall|j: int| 0 <= j < events.len() ==> !((#[trigger] events[j]).provider@ == p && event_usage(events[j]) is Some),
    ensures
        provider_usage(events, p).0 == (BucketV { input: 0, cached: 0, output: 0, reasoning: 0, total: 0, count: 0 }),
    decreases events.len(),
{
    if events.len() > 0 {
        let d = events.drop_last();
        assert forall|j: int| 0 <= j < d.len() implies !((#[trigger] d[j]).provider@ == p && event_usage(d[j]) is Some) by {
            assert(d[j] == events[j]);
        }
        lemma_provider_absent(d, p);
        assert(events[events.len() - 1] == events.last());
    }
}

/// The sums of the provider's events fit their integer types.
pub open spec fn provider_fits(events: Seq<TokenEvent>, p: Seq<char>) -> bool {
    bucket_fits(provider_usage(events, p).0)
}

/// The sums of every provider's events fit their integer types.
pub open spec fn providers_fit(events: Seq<TokenEvent>) -> bool {
    forall|p: Seq<char>| #[trigger] provider_fits(events, p)
}

/// An event counts its own turn: an event in the slot adds its last usage
/// to the slot's bucket, and its cumulative total only when it reports no
/// last usage; an event that reports neither, or lies outside the slot,
/// adds nothing.
pub proof fn law_slot_counts_last_usage(
    events: Seq<TokenEvent>,
    e: TokenEvent,
    ls: int,
    ln: int,
    incl: bool,
    hs: int,
    hn: int,
)
    ensures
        ({
            let before = slot_bucket(events, ls, ln, incl, hs, hn);
            let after = slot_bucket(events.push(e), ls, ln, incl, hs, hn);
            &&& (in_slot(e, ls, ln, incl, hs, hn) && e.last_usage is Some) ==> after == add_usage_v(
                before,
                e.last_usage->0,
            )
            &&& (in_slot(e, ls, ln, incl, hs, hn) && e.last_usage is None && e.total_usage is Some) ==> after
                == add_usage_v(before, e.total_usage->0)
            &&& (!in_slot(e, ls, ln, incl, hs, hn) || (e.last_usage is None && e.total_usage is None)) ==> after == before
        }),
{
    assert(events.push(e).drop_last() =~= events);
}

/// A provider counts its own events only: an event of the provider adds its
/// last usage (its cumulative total only when it reports no last usage) to
/// the provider's sums, and an event of another provider, or one that
/// reports no usage, adds nothing.
pub proof fn law_provider_counts_own_events(events: Seq<TokenEvent>, e: TokenEvent, p: Seq<char>)
    ensures
        ({
            let before = provider_usage(events, p).0;
            let after = provider_usage(events.push(e), p).0;
            &&& (e.provider@ == p && e.last_usage is Some) ==> after == add_usage_v(before, e.last_usage->0)
            &&& (e.provider@ == p && e.last_usage is None && e.total_usage is Some) ==> after == add_usage_v(
                before,
                e.total_usage->0,
            )
            &&& (e.provider@ != p || (e.last_usage is None && e.total_usage is None)) ==> after == before
        }),
{
    assert(events.push(e).drop_last() =~= events);
}

/// A provider's last event time is that of its latest event that reports
/// usage: no such event is later, one has exactly that time, and there is
/// none only when the provider has no such event.
pub proof fn law_provider_last_event_is_latest(events: Seq<TokenEvent>, p: Seq<char>)
    ensures
        match provider_usage(events, p).1 {
            Some(last) => (forall|j: int|
                0 <= j < events.len() && (#[trigger] events[j]).provider@ == p && event_usage(events[j]) is Some
                    ==> events[j].secs <= last) && exists|j: int|
                0 <= j < events.len() && (#[trigger] events[j]).provider@ == p && event_usage(events[j]) is Some
                    && events[j].secs == last,
            None => forall|j: int|
                0 <= j < events.len() ==> !((#[trigger] events[j]).provider@ == p && event_usage(events[j]) is Some),
        },
    decreases events.len(),
{
    if events.len() > 0 {
        let d = events.drop_last();
        law_provider_last_event_is_latest(d, p);
        let n = events.len() - 1;
        assert(events[n] == events.last());
        assert forall|j: int| 0 <= j < d.len() implies #[trigger] events[j] == d[j] by {}
        match provider_usage(d, p).1 {
            Some(l) => {
                let w = choose|j: int|
                    0 <= j < d.len() && (#[trigger] d[j]).provider@ == p && event_usage(d[j]) is Some && d[j].secs == l;
                assert(events[w] == d[w]);
            },
            None => {},
        }
    }
}

/// The summary of `p` matches the events.
pub open spec fn token_summary_of(s: ProviderTokenSummary, events: Seq<TokenEvent>) -> bool {
    let (b, last) = provider_usage(events, s.provider@);
    &&& s.event_count as nat == b.count
    &&& s.input_tokens as nat == b.input
    &&& s.cached_input_tokens as nat == b.cached
    &&& s.output_tokens as nat == b.output
    &&& s.reasoning_output_tokens as nat == b.reasoning
    &&& s.total_tokens as nat == b.total
    &&& s.last_event_at == last
}

/// More tokens first, then providers in text order.
pub open spec fn token_before(a: ProviderTokenSummary, b: ProviderTokenSummary) -> bool {
    a.total_tokens > b.total_tokens || (a.total_tokens == b.total_tokens && str_lt(a.provider@, b.provider@))
}

/// The providers that get a summary: the configured ones and those of
/// events that report usage.
pub open spec fn token_provider(p: Seq<char>, configured: Seq<Seq<char>>, events: Seq<TokenEvent>) -> bool {
    configured.contains(p) || exists|j: int| 0 <= j < events.len() && (#[trigger] events[j]).provider@ == p && event_usage(events[j]) is Some
}

/// The summary of `p` (see `token_summary_of`), or `None` when one of its
/// sums does not fit its integer type.
fn try_provider_summary(events: &Vec<TokenEvent>, p: &String) -> (r: Option<ProviderTokenSummary>)
    ensures
        match r {
            Some(s) => s.provider@ == p@ && token_summary_of(s, events@),
            None => !provider_fits(events@, p@),
        },
{
    let mut b = TokenBucket::default();
    let mut last: Option<i64> = None;
    let mut i: usize = 0;
    proof {
        assert(events@.take(0) =~= Seq::<TokenEvent>::empty());
    }
    while i < events.len()
        invariant
            i <= events@.len(),
            (bucket_view(b), last) == provider_usage(events@.take(i as int), p@),
        decreases events.len() - i,
    {
        proof {
            assert(events@.take(i + 1).drop_last() =~= events@.take(i as int));
            assert(events@.take(i + 1).last() == events@[i as int]);
        }
        let e = &events[i];
        match event_usage_exec(e) {
            Some(u) => {
                if str_eq(e.provider.as_str(), p.as_str()) {
                    match checked_add_usage(&b, u) {
                        Some(n) => b = n,
                        None => {
                            proof {
                                lemma_provider_prefix(events@, i + 1, p@);
                            }
                            return None;
                        },
                    }
                    last = Some(match last {
                        Some(l) => if e.secs > l {
                            e.secs
                        } else {
                            l
                        },
                        None => e.secs,
                    });
                }
            },
            None => {},
        }
        i += 1;
    }
    proof {
        assert(events@.take(events@.len() as int) =~= events@);
    }
    Some(ProviderTokenSummary {
        provider: p.clone(),
        event_count: b.event_count,
        input_tokens: b.input_tokens,
        cached_input_tokens: b.cached_input_tokens,
        output_tokens: b.output_tokens,
        reasoning_output_tokens: b.reasoning_output_tokens,
        total_tokens: b.total_tokens,
        last_event_at: last,
    })
}

/// Whether every provider's usage can be counted: the test that
/// `build_provider_token_summaries` asks of its callers.
pub fn provider_usage_fits(events: &Vec<TokenEvent>) -> (r: bool)
    ensures
        r == providers_fit(events@),
{
    let mut j: usize = 0;
    while j < events.len()
        invariant
            j <= events@.len(),
            forall|x: int| 0 <= x < j && event_usage(events@[x]) is Some ==> provider_fits(events@, (#[trigger] events@[x]).provider@),
        decreases events.len() - j,
    {
        if event_usage_exec(&events[j]).is_some() {
            if try_provider_summary(events, &events[j].provider).is_none() {
                return false;
            }
        }
        j += 1;
    }
    assert forall|p: Seq<char>| #[trigger] provider_fits(events@, p) by {
        if exists|x: int| 0 <= x < events@.len() && (#[trigger] events@[x]).provider@ == p && event_usage(events@[x]) is Some {
            let x = choose|x: int| 0 <= x < events@.len() && (#[trigger] events@[x]).provider@ == p && event_usage(events@[x]) is Some;
            assert(provider_fits(events@, events@[x].provider@));
        } else {
            lemma_provider_absent(events@, p);
        }
    }
    true
}

fn token_before_exec(a: &ProviderTokenSummary, b: &ProviderTokenSummary) -> (r: bool)
    ensures
        r == token_before(*a, *b),
{
    a.total_tokens > b.total_tokens || (a.total_tokens == b.total_tokens && str_lt_exec(a.provider.as_str(), b.provider.as_str()))
}

proof fn lemma_token_order(a: ProviderTokenSummary, b: ProviderTokenSummary, c: ProviderTokenSummary)
    ensures
        !token_before(a, a),
        a.provider@ != b.provider@ ==> token_before(a, b) || token_before(b, a),
        token_before(a, b) && token_before(b, c) ==> token_before(a, c),
{
    lemma_str_lt_irrefl(a.provider@);
    lemma_str_lt_total(a.provider@, b.provider@);
    if str_lt(a.provider@, b.provider@) && str_lt(b.provider@, c.provider@) {
        lemma_str_lt_trans(a.provider@, b.provider@, c.provider@);
    }
}

pub open spec fn token_sorted(v: Seq<ProviderTokenSummary>) -> bool {
    forall|i: int, j: int| 0 <= i < j < v.len() ==> token_before(#[trigger] v[i], #[trigger] v[j])
}

pub open spec fn token_providers(v: Seq<ProviderTokenSummary>) -> Seq<Seq<char>> {
    v.map_values(|s: ProviderTokenSummary| s.provider@)
}

proof fn lemma_insert_token(v: Seq<ProviderTokenSummary>, j: int, x: ProviderTokenSummary)
    requires
        token_sorted(v),
        0 <= j <= v.len(),
        forall|y: int| 0 <= y < j ==> !token_before(x, #[trigger] v[y]),
        j == v.len() || token_before(x, v[j]),
        !token_providers(v).contains(x.provider@),
    ensures
        token_sorted(v.insert(j, x)),
        forall|q: Seq<char>| token_providers(v.insert(j, x)).contains(q) <==> (token_providers(v).contains(q) || q == x.provider@),
{
    let w = v.insert(j, x);
    assert forall|a: int, b: int| 0 <= a < b < w.len() implies token_before(#[trigger] w[a], #[trigger] w[b]) by {
        if b < j {
        } else if a > j {
            assert(w[a] == v[a - 1] && w[b] == v[b - 1]);
        } else if a == j {
            assert(w[b] == v[b - 1]);
            if b - 1 > j {
                lemma_token_order(x, v[j], v[b - 1]);
            }
        } else {
            if b == j {
                assert(token_providers(v)[a] == v[a].provider@);
                lemma_token_order(v[a], x, x);
            } else {
                assert(w[b] == v[b - 1]);
            }
        }
    }
    let pw = token_providers(w);
    let pv = token_providers(v);
    assert(pw =~= pv.insert(j, x.provider@));
    assert forall|q: Seq<char>| pw.contains(q) <==> (pv.contains(q) || q == x.provider@) by {
        if pw.contains(q) {
            let k = choose|k: int| 0 <= k < pw.len() && pw[k] == q;
            if k < j {
                assert(pv[k] == q);
            } else if k > j {
                assert(pv[k - 1] == q);
            }
        }
        if pv.contains(q) {
            let k = choose|k: int| 0 <= k < pv.len() && pv[k] == q;
            if k < j {
                assert(pw[k] == q);
            } else {
                assert(pw[k + 1] == q);
            }
        }
        if q == x.provider@ {
            assert(pw[j] == q);
        }
    }
}

/// The providers of the events that report usage.
pub open spec fn event_providers(events: Seq<TokenEvent>) -> Seq<Seq<char>>
    decreases events.len(),
{
    if events.len() == 0 {
        Seq::empty()
    } else {
        event_providers(events.drop_last()) + if event_usage(events.last()) is Some {
            seq![events.last().provider@]
        } else {
            Seq::<Seq<char>>::empty()
        }
    }
}

proof fn lemma_event_providers(events: Seq<TokenEvent>)
    ensures
        forall|q: Seq<char>| event_providers(events).contains(q) <==> exists|j: int| 0 <= j < events.len() && (#[trigger] events[j]).provider@ == q && event_usage(events[j]) is Some,
    decreases events.len(),
{
    if events.len() > 0 {
        let d = events.drop_last();
        lemma_event_providers(d);
        let tail = if event_usage(events.last()) is Some {
            seq![events.last().provider@]
        } else {
            Seq::<Seq<char>>::empty()
        };
        crate::history_sync::lemma_contains_concat(event_providers(d), tail);
        assert forall|q: Seq<char>| event_providers(events).contains(q) <==> exists|j: int| 0 <= j < events.len() && (#[trigger] events[j]).provider@ == q && event_usage(events[j]) is Some by {
            if exists|j: int| 0 <= j < events.len() && (#[trigger] events[j]).provider@ == q && event_usage(events[j]) is Some {
                let j = choose|j: int| 0 <= j < events.len() && (#[trigger] events[j]).provider@ == q && event_usage(events[j]) is Some;
                if j < events.len() - 1 {
                    assert(d[j] == events[j]);
                } else {
                    assert(tail[0] == q);
                }
            }
            if event_providers(d).contains(q) {
                let j = choose|j: int| 0 <= j < d.len() && (#[trigger] d[j]).provider@ == q && event_usage(d[j]) is Some;
                assert(events[j] == d[j]);
            }
        }
    }
}

/// The token usage of every provider, more tokens first.
pub fn build_provider_token_summaries(events: &Vec<TokenEvent>, configured_providers: &Vec<String>) -> (r: Vec<ProviderTokenSummary>)
    requires
        providers_fit(events@),
    ensures
        token_sorted(r@),
        forall|i: int| 0 <= i < r@.len() ==> token_provider((#[trigger] r@[i]).provider@, crate::history_sync::strings_view(configured_providers@), events@)
            && token_summary_of(r@[i], events@),
        forall|p: Seq<char>| token_provider(p, crate::history_sync::strings_view(configured_providers@), events@) ==> token_providers(r@).contains(p),
{
    let ghost cv = crate::history_sync::strings_view(configured_providers@);
    let mut all: Vec<String> = Vec::new();
    let mut i: usize = 0;
    proof {
        assert(crate::history_sync::strings_view(all@) =~= cv.take(0));
    }
    while i < configured_providers.len()
        invariant
            i <= configured_providers@.len(),
            cv == crate::history_sync::strings_view(configured_providers@),
            crate::history_sync::strings_view(all@) == cv.take(i as int),
        decreases configured_providers.len() - i,
    {
        let ghost before = crate::history_sync::strings_view(all@);
        all.push(configured_providers[i].clone());
        proof {
            assert(cv[i as int] == configured_providers@[i as int]@);
            assert(crate::history_sync::strings_view(all@) =~= before.push(cv[i as int]));
            assert(crate::history_sync::strings_view(all@) =~= cv.take(i + 1));
        }
        i += 1;
    }
    proof {
        assert(cv.take(cv.len() as int) =~= cv);
    }
    let ghost ev = events@;
    let mut e: usize = 0;
    proof {
        assert(ev.take(0) =~= Seq::<TokenEvent>::empty());
        assert(crate::history_sync::strings_view(all@) =~= cv + event_providers(ev.take(0)));
    }
    while e < events.len()
        invariant
            e <= ev.len(),
            ev == events@,
            crate::history_sync::strings_view(all@) == cv + event_providers(ev.take(e as int)),
        decreases events.len() - e,
    {
        proof {
            assert(ev.take(e + 1).drop_last() =~= ev.take(e as int));
            assert(ev.take(e + 1).last() == ev[e as int]);
        }
        let ghost before = crate::history_sync::strings_view(all@);
        if event_usage_exec(&events[e]).is_some() {
            all.push(events[e].provider.clone());
            proof {
                assert(crate::history_sync::strings_view(all@) =~= before.push(ev[e as int].provider@));
            }
        }
        proof {
            assert(crate::history_sync::strings_view(all@) =~= cv + event_providers(ev.take(e + 1)));
        }
        e += 1;
    }
    let ghost lv = crate::history_sync::strings_view(all@);
    proof {
        assert(ev.take(ev.len() as int) =~= ev);
        lemma_event_providers(ev);
        crate::history_sync::lemma_contains_concat(cv, event_providers(ev));
    }
    let mut providers: Vec<String> = Vec::new();
    let mut m: usize = 0;
    proof {
        assert(lv.take(0) =~= Seq::<Seq<char>>::empty());
        assert(crate::history_sync::strings_view(providers@) =~= crate::history_sync::unique_fold(lv.take(0)));
    }
    while m < all.len()
        invariant
            m <= all@.len(),
            lv == crate::history_sync::strings_view(all@),
            crate::history_sync::strings_view(providers@) == crate::history_sync::unique_fold(lv.take(m as int)),
        decreases all.len() - m,
    {
        proof {
            assert(lv.take(m + 1).drop_last() =~= lv.take(m as int));
        }
        crate::history_sync::push_unique_provider(&mut providers, all[m].clone());
        m += 1;
    }
    let ghost pv = crate::history_sync::strings_view(providers@);
    proof {
        assert(lv.take(all@.len() as int) =~= lv);
        crate::history_sync::lemma_unique_fold(lv);
        assert(pv.take(0) =~= Seq::<Seq<char>>::empty());
    }
    let mut out: Vec<ProviderTokenSummary> = Vec::new();
    let mut k: usize = 0;
    while k < providers.len()
        invariant
            k <= providers@.len(),
            pv == crate::history_sync::strings_view(providers@),
            crate::history_sync::no_dups(pv),
            providers_fit(events@),
            token_sorted(out@),
            forall|q: Seq<char>| token_providers(out@).contains(q) <==> pv.take(k as int).contains(q),
            forall|x: int| 0 <= x < out@.len() ==> token_summary_of(#[trigger] out@[x], events@),
        decreases providers.len() - k,
    {
        let item = match try_provider_summary(events, &providers[k]) {
            Some(item) => item,
            None => {
                proof {
                    assert(provider_fits(events@, providers@[k as int]@));
                }
                return Vec::new();
            },
        };
        let ghost iv = item;
        proof {
            assert(pv[k as int] == providers@[k as int]@);
            assert(iv.provider@ == pv[k as int]);
        }
        let mut j: usize = 0;
        while j < out.len() && !token_before_exec(&item, &out[j])
            invariant
                j <= out@.len(),
                forall|x: int| 0 <= x < j ==> !token_before(iv, #[trigger] out@[x]),
                item == iv,
            decreases out.len() - j,
        {
            j += 1;
        }
        let ghost old_out = out@;
        proof {
            if token_providers(old_out).contains(iv.provider@) {
                let s0 = pv.take(k as int);
                assert(s0.contains(pv[k as int]));
                let y = choose|y: int| 0 <= y < s0.len() && s0[y] == pv[k as int];
                assert(pv[y] == pv[k as int]);
            }
            lemma_insert_token(old_out, j as int, iv);
        }
        out.insert(j, item);
        proof {
            assert(out@ =~= old_out.insert(j as int, iv));
            assert(pv.take(k + 1) =~= pv.take(k as int).push(pv[k as int]));
            crate::history_sync::lemma_push_unique(pv.take(k as int), pv[k as int]);
            assert(token_providers(out@) == token_providers(old_out.insert(j as int, iv)));
            assert forall|q: Seq<char>| token_providers(out@).contains(q) <==> pv.take(k + 1).contains(q) by {
                let s1 = pv.take(k + 1);
                let s0 = pv.take(k as int);
                assert(token_providers(old_out.insert(j as int, iv)).contains(q) <==> (token_providers(old_out).contains(q) || q == iv.provider@));
                assert(token_providers(old_out).contains(q) <==> s0.contains(q));
                if s1.contains(q) && q != pv[k as int] {
                    let y = choose|y: int| 0 <= y < s1.len() && s1[y] == q;
                    assert(s0[y] == q);
                }
                if s0.contains(q) {
                    let y = choose|y: int| 0 <= y < s0.len() && s0[y] == q;
                    assert(s1[y] == q);
                }
                if q == pv[k as int] {
                    assert(s1[k as int] == q);
                }
            }
            assert forall|x: int| 0 <= x < out@.len() implies token_summary_of(#[trigger] out@[x], events@) by {
                if x < j {
                    assert(out@[x] == old_out[x]);
                } else if x > j {
                    assert(out@[x] == old_out[x - 1]);
                }
            }
        }
        k += 1;
    }
    proof {
        assert(pv.take(pv.len() as int) =~= pv);
        assert forall|i: int| 0 <= i < out@.len() implies token_provider((#[trigger] out@[i]).provider@, cv, events@) && token_summary_of(out@[i], events@) by {
            assert(token_providers(out@)[i] == out@[i].provider@);
            assert(token_providers(out@).contains(out@[i].provider@));
        }
    }
    out
}

} // verus!
