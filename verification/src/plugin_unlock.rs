//! Unlocking the Codex plugin page: the toolkit finds the Codex window
//! through the DevTools protocol and injects a script into it, launching
//! Codex with DevTools first when asked to.
//!
//! The caller talks to the DevTools endpoint and starts processes; the
//! choices (which target, which arguments, what to report) are made here.

use vstd::prelude::*;

use crate::history_sync::{lowercase, to_lowercase, join, replace_char, replace_char_exec};
use crate::json::{entries_model, jv, obj, push_entry, Json, JsonV};
use crate::local_router::opt_str_view;
use crate::router_http::{eq_ignore_ascii_case, eq_ignore_ascii_case_exec, parse_bounded, parse_bounded_v};
use crate::text::{
    chars_of, contains_seq, decimal, decimal_chars, owned, push_str_chars, slice_chars, starts_with,
    starts_with_exec, string_of,
};

verus! {

/// The DevTools port used when none is given.
pub const DEFAULT_DEBUG_PORT: u16 = 9229;

/// What the user asked for: the DevTools port (0 for the default) and
/// whether Codex may be launched.
#[derive(Debug)]
pub struct UnlockRequest {
    pub debug_port: u16,
    pub restart_codex: bool,
}

/// What the unlock did.
#[derive(Debug)]
pub struct UnlockResult {
    pub debug_port: u16,
    pub restarted: bool,
    pub injected: bool,
    pub target_title: Option<String>,
    pub target_url: Option<String>,
    pub app_path: Option<String>,
    pub message: String,
}

/// A DevTools target as `/json` lists it.
#[derive(Debug)]
pub struct CdpTarget {
    pub target_type: String,
    pub title: String,
    pub url: String,
    pub web_socket_debugger_url: Option<String>,
}

/// The model of a target.
pub struct CdpTargetV {
    pub target_type: Seq<char>,
    pub title: Seq<char>,
    pub url: Seq<char>,
    pub web_socket_debugger_url: Option<Seq<char>>,
}

impl CdpTarget {
    pub open spec fn view(&self) -> CdpTargetV {
        CdpTargetV {
            target_type: self.target_type@,
            title: self.title@,
            url: self.url@,
            web_socket_debugger_url: opt_str_view(self.web_socket_debugger_url),
        }
    }
}

pub fn default_debug_port() -> (r: u16)
    ensures
        r == DEFAULT_DEBUG_PORT,
{
    DEFAULT_DEBUG_PORT
}

/// A page target with a websocket to inject through.
pub open spec fn injectable(t: CdpTarget) -> bool {
    t.target_type@ == "page"@ && match t.web_socket_debugger_url {
        Some(u) => u@.len() > 0,
        None => false,
    }
}

/// A target whose title or URL mentions Codex, in any case.
pub open spec fn mentions_codex(t: CdpTarget) -> bool {
    contains_seq(lowercase(t.title@ + " "@ + t.url@), "codex"@)
}

/// The first position from `i` on whose target satisfies both tests, or
/// -1.
pub open spec fn first_codex_page(ts: Seq<CdpTarget>, i: nat) -> int
    decreases ts.len() - i,
{
    if i >= ts.len() {
        -1
    } else if injectable(ts[i as int]) && mentions_codex(ts[i as int]) {
        i as int
    } else {
        first_codex_page(ts, i + 1)
    }
}

/// The first position from `i` on whose target is injectable, or -1.
pub open spec fn first_page(ts: Seq<CdpTarget>, i: nat) -> int
    decreases ts.len() - i,
{
    if i >= ts.len() {
        -1
    } else if injectable(ts[i as int]) {
        i as int
    } else {
        first_page(ts, i + 1)
    }
}

/// The target to inject into: the first injectable page that mentions
/// Codex, else the first injectable page.
pub open spec fn picked_target(ts: Seq<CdpTarget>) -> int {
    if first_codex_page(ts, 0) >= 0 {
        first_codex_page(ts, 0)
    } else {
        first_page(ts, 0)
    }
}

proof fn lemma_first_page(ts: Seq<CdpTarget>, i: nat)
    ensures
        first_page(ts, i) == -1 || (i <= first_page(ts, i) < ts.len()),
        first_codex_page(ts, i) == -1 || (i <= first_codex_page(ts, i) < ts.len()),
    decreases ts.len() - i,
{
    if i < ts.len() {
        lemma_first_page(ts, i + 1);
    }
}

fn clone_target(t: &CdpTarget) -> (r: CdpTarget)
    ensures
        r@ == t@,
{
    CdpTarget {
        target_type: t.target_type.clone(),
        title: t.title.clone(),
        url: t.url.clone(),
        web_socket_debugger_url: crate::relay_config::clone_opt(&t.web_socket_debugger_url),
    }
}

pub fn pick_page_target(targets: &Vec<CdpTarget>) -> (r: Result<CdpTarget, String>)
    ensures
        match r {
            Ok(t) => picked_target(targets@) >= 0 && t@ == targets@[picked_target(targets@)]@,
            Err(e) => picked_target(targets@) < 0 && e@ == "No injectable Codex page target found."@,
        },
{
    let ghost ts = targets@;
    let mut first: Option<usize> = None;
    let mut i: usize = 0;
    proof {
        lemma_first_page(ts, 0);
    }
    while i < targets.len()
        invariant
            i <= ts.len(),
            ts == targets@,
            first_codex_page(ts, 0) == first_codex_page(ts, i as nat),
            match first {
                Some(f) => f < i && first_page(ts, 0) == f,
                None => first_page(ts, 0) == first_page(ts, i as nat),
            },
        decreases targets.len() - i,
    {
        let t = &targets[i];
        let page = crate::text::str_eq(t.target_type.as_str(), "page") && match &t.web_socket_debugger_url {
            Some(u) => !u.as_str().is_empty(),
            None => false,
        };
        if page {
            if first.is_none() {
                first = Some(i);
            }
            let mut hay = chars_of(t.title.as_str());
            push_str_chars(&mut hay, " ");
            push_str_chars(&mut hay, t.url.as_str());
            let lower = to_lowercase(string_of(&hay).as_str());
            let lc = chars_of(lower.as_str());
            let needle = chars_of("codex");
            if crate::text::find_chars(&lc, &needle).is_some() {
                proof {
                    crate::text::lemma_find_first(lc@, needle@);
                    assert(mentions_codex(ts[i as int]));
                }
                return Ok(clone_target(t));
            } else {
                proof {
                    crate::text::lemma_find_first(lc@, needle@);
                    assert(!mentions_codex(ts[i as int]));
                }
            }
        }
        i += 1;
    }
    match first {
        Some(f) => Ok(clone_target(&targets[f])),
        None => Err(owned("No injectable Codex page target found.")),
    }
}

/// `--remote-debugging-port=<port>` and
/// `--remote-allow-origins=http://127.0.0.1:<port>`.
pub fn codex_debug_arguments(debug_port: u16) -> (r: Vec<String>)
    ensures
        r@.len() == 2,
        r@[0]@ == "--remote-debugging-port="@ + decimal(debug_port as nat),
        r@[1]@ == "--remote-allow-origins=http://127.0.0.1:"@ + decimal(debug_port as nat),
{
    let mut a = chars_of("--remote-debugging-port=");
    let mut d = decimal_chars(debug_port as u64);
    a.append(&mut d);
    let mut b = chars_of("--remote-allow-origins=http://127.0.0.1:");
    let mut d2 = decimal_chars(debug_port as u64);
    b.append(&mut d2);
    let mut out: Vec<String> = Vec::new();
    out.push(string_of(&a));
    out.push(string_of(&b));
    out
}

/// `n` backslashes.
pub open spec fn backslashes(n: nat) -> Seq<char> {
    Seq::new(n, |i: int| '\\')
}

/// The quoted body of a Windows argument and the backslashes still pending
/// at its end.
pub open spec fn quote_fold(s: Seq<char>) -> (Seq<char>, nat)
    decreases s.len(),
{
    if s.len() == 0 {
        (Seq::empty(), 0)
    } else {
        let (out, bs) = quote_fold(s.drop_last());
        let c = s.last();
        if c == '\\' {
            (out, bs + 1)
        } else if c == '"' {
            (out + backslashes(bs * 2 + 1) + seq!['"'], 0)
        } else {
            (out + backslashes(bs) + seq![c], 0)
        }
    }
}

/// A Windows command-line argument: unchanged when it is not empty and holds
/// no space, tab or quote; else quoted, with the backslashes before quotes
/// and at the end doubled.
pub open spec fn quoted_argument(arg: Seq<char>) -> Seq<char> {
    if arg.len() > 0 && forall|i: int| 0 <= i < arg.len() ==> #[trigger] arg[i] != ' ' && arg[i] != '\t' && arg[i] != '"' {
        arg
    } else {
        let (out, bs) = quote_fold(arg);
        seq!['"'] + out + backslashes(bs * 2) + seq!['"']
    }
}

fn push_backslashes(out: &mut Vec<char>, n: usize)
    ensures
        final(out)@ == old(out)@ + backslashes(n as nat),
{
    let ghost start = old(out)@;
    let mut i: usize = 0;
    while i < n
        invariant
            i <= n,
            out@ == start + backslashes(i as nat),
        decreases n - i,
    {
        out.push('\\');
        proof {
            assert(out@ =~= start + backslashes((i + 1) as nat));
        }
        i += 1;
    }
}

pub fn quote_windows_argument(arg: &str) -> (r: String)
    requires
        arg@.len() <= usize::MAX / 2,
    ensures
        r@ == quoted_argument(arg@),
{
    let c = chars_of(arg);
    let mut plain = c.len() > 0;
    let mut i: usize = 0;
    while i < c.len()
        invariant
            i <= c@.len(),
            c@ == arg@,
            plain == (c@.len() > 0 && forall|j: int| 0 <= j < i ==> #[trigger] c@[j] != ' ' && c@[j] != '\t' && c@[j] != '"'),
        decreases c.len() - i,
    {
        if c[i] == ' ' || c[i] == '\t' || c[i] == '"' {
            plain = false;
        }
        i += 1;
    }
    if plain {
        return owned(arg);
    }
    let mut out: Vec<char> = Vec::new();
    out.push('"');
    let mut bs: usize = 0;
    let mut k: usize = 0;
    proof {
        assert(c@.take(0) =~= Seq::<char>::empty());
        assert(out@ =~= seq!['"'] + quote_fold(c@.take(0)).0);
    }
    while k < c.len()
        invariant
            k <= c@.len(),
            c@.len() <= usize::MAX / 2,
            bs <= k,
            out@ == seq!['"'] + quote_fold(c@.take(k as int)).0,
            bs as nat == quote_fold(c@.take(k as int)).1,
        decreases c.len() - k,
    {
        proof {
            assert(c@.take(k + 1).drop_last() =~= c@.take(k as int));
            assert(c@.take(k + 1).last() == c@[k as int]);
        }
        let ch = c[k];
        if ch == '\\' {
            bs += 1;
        } else if ch == '"' {
            push_backslashes(&mut out, bs * 2 + 1);
            out.push('"');
            bs = 0;
        } else {
            push_backslashes(&mut out, bs);
            out.push(ch);
            bs = 0;
        }
        proof {
            assert(out@ =~= seq!['"'] + quote_fold(c@.take(k + 1)).0);
        }
        k += 1;
    }
    proof {
        assert(c@.take(c@.len() as int) =~= c@);
    }
    push_backslashes(&mut out, bs * 2);
    out.push('"');
    proof {
        assert(out@ =~= seq!['"'] + quote_fold(c@).0 + backslashes(quote_fold(c@).1 * 2) + seq!['"']);
    }
    string_of(&out)
}

/// The arguments quoted and joined with spaces.
pub open spec fn command_line_v(args: Seq<Seq<char>>) -> Seq<char> {
    join(args.map_values(|a: Seq<char>| quoted_argument(a)), " "@)
}

pub fn command_line_arguments(args: &Vec<String>) -> (r: String)
    requires
        forall|i: int| 0 <= i < args@.len() ==> (#[trigger] args@[i])@.len() <= usize::MAX / 2,
    ensures
        r@ == command_line_v(crate::history_sync::strings_view(args@)),
{
    let ghost av = crate::history_sync::strings_view(args@);
    let ghost qv = av.map_values(|a: Seq<char>| quoted_argument(a));
    let mut out: Vec<char> = Vec::new();
    let mut i: usize = 0;
    proof {
        assert(qv.take(0) =~= Seq::<Seq<char>>::empty());
    }
    while i < args.len()
        invariant
            i <= args@.len(),
            av == crate::history_sync::strings_view(args@),
            qv == av.map_values(|a: Seq<char>| quoted_argument(a)),
            forall|j: int| 0 <= j < args@.len() ==> (#[trigger] args@[j])@.len() <= usize::MAX / 2,
            out@ == join(qv.take(i as int), " "@),
        decreases args.len() - i,
    {
        proof {
            assert(qv.take(i + 1).drop_last() =~= qv.take(i as int));
            assert(qv.take(i + 1).last() == qv[i as int]);
            assert(qv[i as int] == quoted_argument(args@[i as int]@));
        }
        if i > 0 {
            push_str_chars(&mut out, " ");
        }
        let q = quote_windows_argument(args[i].as_str());
        push_str_chars(&mut out, q.as_str());
        proof {
            if i == 0 {
                assert(qv.take(1) =~= seq![qv[0]]);
                assert(out@ =~= qv[0]);
            }
        }
        i += 1;
    }
    proof {
        assert(qv.take(args@.len() as int) =~= qv);
    }
    string_of(&out)
}

/// `'` doubled, for a single-quoted PowerShell string.
pub open spec fn ps_quoted_v(s: Seq<char>) -> Seq<char>
    decreases s.len(),
{
    if s.len() == 0 {
        Seq::empty()
    } else {
        ps_quoted_v(s.drop_last()) + if s.last() == '\'' {
            seq!['\'', '\'']
        } else {
            seq![s.last()]
        }
    }
}

pub fn ps_single_quote(value: &str) -> (r: String)
    ensures
        r@ == ps_quoted_v(value@),
{
    let c = chars_of(value);
    let mut out: Vec<char> = Vec::new();
    let mut i: usize = 0;
    proof {
        assert(c@.take(0) =~= Seq::<char>::empty());
    }
    while i < c.len()
        invariant
            i <= c@.len(),
            c@ == value@,
            out@ == ps_quoted_v(c@.take(i as int)),
        decreases c.len() - i,
    {
        proof {
            assert(c@.take(i + 1).drop_last() =~= c@.take(i as int));
            assert(c@.take(i + 1).last() == c@[i as int]);
        }
        if c[i] == '\'' {
            out.push('\'');
            out.push('\'');
        } else {
            out.push(c[i]);
        }
        proof {
            assert(out@ =~= ps_quoted_v(c@.take(i + 1)));
        }
        i += 1;
    }
    proof {
        assert(c@.take(c@.len() as int) =~= c@);
    }
    string_of(&out)
}

/// The parts of a path between `/`, empty ones left out.
pub open spec fn path_parts(s: Seq<char>) -> Seq<Seq<char>>
    decreases s.len(),
{
    let i = crate::router_http::first_index_of(s, '/');
    if i < 0 {
        if s.len() > 0 {
            seq![s]
        } else {
            Seq::empty()
        }
    } else {
        proof {
            crate::router_http::lemma_first_index_of(s, '/');
        }
        (if i > 0 {
            seq![s.take(i)]
        } else {
            Seq::<Seq<char>>::empty()
        }) + path_parts(s.skip(i + 1))
    }
}

/// Index of the last `__` in `s`, or -1.
pub open spec fn last_double_underscore(s: Seq<char>) -> int
    decreases s.len(),
{
    if s.len() < 2 {
        -1
    } else if s[s.len() - 2] == '_' && s[s.len() - 1] == '_' {
        s.len() - 2
    } else {
        last_double_underscore(s.drop_last())
    }
}

/// The package directory named by an install path: its last part, or the
/// one before when the last is `app` (in any case).
pub open spec fn package_name_v(path: Seq<char>) -> Option<Seq<char>> {
    let parts = path_parts(replace_char(path, '\\', '/'));
    if parts.len() == 0 {
        None
    } else if eq_ignore_ascii_case(parts.last(), "app"@) {
        if parts.len() >= 2 {
            Some(parts[parts.len() - 2])
        } else {
            None
        }
    } else {
        Some(parts.last())
    }
}

/// The AppUserModelID of a packaged Codex install: `<name>_<publisher>!App`,
/// from a package directory `OpenAI.Codex_<version>_..__<publisher>`.
pub open spec fn app_user_model_id_v(path: Seq<char>) -> Option<Seq<char>> {
    match package_name_v(path) {
        None => None,
        Some(p) => {
            let u = last_double_underscore(p);
            if !starts_with(p, "OpenAI.Codex_"@) || u < 0 {
                None
            } else {
                let identity = p.take(crate::router_http::first_index_of(p, '_'));
                let publisher = p.skip(u + 2);
                if publisher.len() == 0 {
                    None
                } else {
                    Some(identity + "_"@ + publisher + "!App"@)
                }
            }
        },
    }
}

proof fn lemma_last_double_underscore(s: Seq<char>)
    ensures
        -1 <= last_double_underscore(s) <= s.len() - 2 || last_double_underscore(s) == -1,
        last_double_underscore(s) >= 0 ==> s[last_double_underscore(s)] == '_' && s[last_double_underscore(s) + 1] == '_',
    decreases s.len(),
{
    if s.len() >= 2 && !(s[s.len() - 2] == '_' && s[s.len() - 1] == '_') {
        lemma_last_double_underscore(s.drop_last());
    }
}

fn path_parts_exec(s: &[char]) -> (r: Vec<Vec<char>>)
    ensures
        crate::router_http::lines_view(r@) == path_parts(s@),
{
    let mut out: Vec<Vec<char>> = Vec::new();
    let mut rest: Vec<char> = slice_chars(s, 0, s.len());
    proof {
        assert(rest@ =~= s@);
        assert(crate::router_http::lines_view(out@) =~= Seq::<Seq<char>>::empty());
    }
    while rest.len() > 0
        invariant
            crate::router_http::lines_view(out@) + path_parts(rest@) == path_parts(s@),
        decreases rest.len(),
    {
        let ghost before = rest@;
        let ghost ob = crate::router_http::lines_view(out@);
        match crate::router_http::index_of_char(&rest, '/') {
            Some(i) => {
                proof {
                    crate::router_http::lemma_first_index_of(rest@, '/');
                }
                let part = slice_chars(&rest, 0, i);
                let next = slice_chars(&rest, i + 1, rest.len());
                if i > 0 {
                    out.push(part);
                }
                proof {
                    assert(next@ =~= before.skip(i + 1));
                    if i > 0 {
                        assert(crate::router_http::lines_view(out@) =~= ob.push(before.take(i as int)));
                        assert(crate::router_http::lines_view(out@) + path_parts(next@) =~= ob + path_parts(before));
                    } else {
                        assert(crate::router_http::lines_view(out@) =~= ob);
                        assert(path_parts(before) =~= path_parts(next@));
                    }
                }
                rest = next;
            },
            None => {
                let last = rest;
                rest = Vec::new();
                out.push(last);
                proof {
                    assert(path_parts(rest@) =~= Seq::<Seq<char>>::empty());
                    assert(crate::router_http::lines_view(out@) =~= ob.push(before));
                    assert(crate::router_http::lines_view(out@) + path_parts(rest@) =~= ob + path_parts(before));
                }
            },
        }
    }
    proof {
        assert(path_parts(rest@) =~= Seq::<Seq<char>>::empty());
        assert(crate::router_http::lines_view(out@) + path_parts(rest@) =~= crate::router_http::lines_view(out@));
    }
    out
}

pub fn packaged_app_user_model_id(app_dir: &str) -> (r: Option<String>)
    ensures
        opt_str_view(r) == app_user_model_id_v(app_dir@),
{
    let path = replace_char_exec(&chars_of(app_dir), '\\', '/');
    let parts = path_parts_exec(&path);
    let ghost pv = crate::router_http::lines_view(parts@);
    if parts.len() == 0 {
        return None;
    }
    proof {
        assert(pv.last() == parts@[parts@.len() - 1]@);
    }
    let app = chars_of("app");
    let package: &Vec<char> = if eq_ignore_ascii_case_exec(&parts[parts.len() - 1], &app) {
        if parts.len() >= 2 {
            proof {
                assert(pv[pv.len() - 2] == parts@[parts@.len() - 2]@);
            }
            &parts[parts.len() - 2]
        } else {
            return None;
        }
    } else {
        &parts[parts.len() - 1]
    };
    let prefix = chars_of("OpenAI.Codex_");
    if !starts_with_exec(package, &prefix) {
        return None;
    }
    let mut u: usize = package.len();
    let mut found = false;
    proof {
        lemma_last_double_underscore(package@);
        assert(package@.take(package@.len() as int) =~= package@);
    }
    while u >= 2 && !found
        invariant
            u <= package@.len(),
            found ==> u >= 2 && last_double_underscore(package@) == u - 2,
            !found ==> last_double_underscore(package@) == last_double_underscore(package@.take(u as int)),
        decreases u + if found { 0int } else { 1int },
    {
        proof {
            assert(package@.take(u as int).drop_last() =~= package@.take(u - 1));
        }
        if package[u - 2] == '_' && package[u - 1] == '_' {
            found = true;
        } else {
            u -= 1;
        }
    }
    if !found {
        proof {
            assert(last_double_underscore(package@.take(u as int)) == -1);
        }
        return None;
    }
    let first = match crate::router_http::index_of_char(package, '_') {
        Some(f) => f,
        None => {
            proof {
                crate::router_http::lemma_first_index_of(package@, '_');
                lemma_last_double_underscore(package@);
            }
            return None;
        },
    };
    proof {
        crate::router_http::lemma_first_index_of(package@, '_');
    }
    let publisher = slice_chars(package, u, package.len());
    if publisher.len() == 0 {
        return None;
    }
    let mut out = slice_chars(package, 0, first);
    out.push('_');
    let mut p2 = publisher;
    out.append(&mut p2);
    push_str_chars(&mut out, "!App");
    proof {
        assert(package@.subrange(u as int, package@.len() as int) =~= package@.skip(u as int));
        reveal_strlit("_");
        assert(out@ =~= package@.take(first as int) + "_"@ + package@.skip(u as int) + "!App"@);
    }
    Some(string_of(&out))
}

/// The `.`-separated pieces of a text, empty ones included.
pub open spec fn dot_pieces(s: Seq<char>) -> Seq<Seq<char>>
    decreases s.len(),
{
    let i = crate::router_http::first_index_of(s, '.');
    if i < 0 {
        seq![s]
    } else {
        proof {
            crate::router_http::lemma_first_index_of(s, '.');
        }
        seq![s.take(i)] + dot_pieces(s.skip(i + 1))
    }
}

/// The version of a package directory `OpenAI.Codex_<a>.<b>.<c>.<d>_...`.
pub open spec fn version_tuple_v(name: Seq<char>) -> Option<(nat, nat, nat, nat)> {
    if !starts_with(name, "OpenAI.Codex_"@) {
        None
    } else {
        let rest = name.skip(13);
        let u = crate::router_http::first_index_of(rest, '_');
        if u < 0 {
            None
        } else {
            let ps = dot_pieces(rest.take(u));
            if ps.len() < 4 {
                None
            } else {
                match (parse_bounded_v(ps[0], u32::MAX as nat), parse_bounded_v(ps[1], u32::MAX as nat), parse_bounded_v(ps[2], u32::MAX as nat), parse_bounded_v(ps[3], u32::MAX as nat)) {
                    (Some(a), Some(b), Some(c), Some(d)) => Some((a, b, c, d)),
                    _ => None,
                }
            }
        }
    }
}

fn dot_pieces_exec(s: &[char]) -> (r: Vec<Vec<char>>)
    ensures
        crate::router_http::lines_view(r@) == dot_pieces(s@),
{
    let mut out: Vec<Vec<char>> = Vec::new();
    let mut rest: Vec<char> = slice_chars(s, 0, s.len());
    proof {
        assert(rest@ =~= s@);
        assert(crate::router_http::lines_view(out@) =~= Seq::<Seq<char>>::empty());
    }
    loop
        invariant
            crate::router_http::lines_view(out@) + dot_pieces(rest@) == dot_pieces(s@),
        decreases rest@.len(),
    {
        let ghost before = rest@;
        let ghost ob = crate::router_http::lines_view(out@);
        match crate::router_http::index_of_char(&rest, '.') {
            Some(i) => {
                proof {
                    crate::router_http::lemma_first_index_of(rest@, '.');
                }
                let part = slice_chars(&rest, 0, i);
                assert(i < rest.len());
                let after: usize = i + 1;
                let next = slice_chars(&rest, after, rest.len());
                out.push(part);
                proof {
                    assert(next@ =~= before.skip(i + 1));
                    assert(crate::router_http::lines_view(out@) =~= ob.push(before.take(i as int)));
                    assert(crate::router_http::lines_view(out@) + dot_pieces(next@) =~= ob + dot_pieces(before));
                }
                rest = next;
            },
            None => {
                out.push(rest);
                proof {
                    assert(crate::router_http::lines_view(out@) =~= ob.push(before));
                    assert(crate::router_http::lines_view(out@) =~= ob + dot_pieces(before));
                }
                return out;
            },
        }
    }
}

/// The version in a package directory's name.
pub fn version_tuple(name: &str) -> (r: Option<(u32, u32, u32, u32)>)
    ensures
        match r {
            Some((a, b, c, d)) => version_tuple_v(name@) == Some((a as nat, b as nat, c as nat, d as nat)),
            None => version_tuple_v(name@) is None,
        },
{
    let n = chars_of(name);
    let prefix = chars_of("OpenAI.Codex_");
    proof {
        reveal_strlit("OpenAI.Codex_");
    }
    if !starts_with_exec(&n, &prefix) {
        return None;
    }
    let rest = slice_chars(&n, 13, n.len());
    proof {
        assert(rest@ =~= n@.skip(13));
    }
    let u = match crate::router_http::index_of_char(&rest, '_') {
        Some(u) => u,
        None => return None,
    };
    proof {
        crate::router_http::lemma_first_index_of(rest@, '_');
    }
    let version = slice_chars(&rest, 0, u);
    proof {
        assert(version@ =~= rest@.take(u as int));
    }
    let ps = dot_pieces_exec(&version);
    let ghost pv = crate::router_http::lines_view(ps@);
    if ps.len() < 4 {
        return None;
    }
    proof {
        assert(pv[0] == ps@[0]@ && pv[1] == ps@[1]@ && pv[2] == ps@[2]@ && pv[3] == ps@[3]@);
    }
    let a = match parse_bounded(&ps[0], 4294967295) {
        Some(a) => a,
        None => return None,
    };
    let b = match parse_bounded(&ps[1], 4294967295) {
        Some(b) => b,
        None => return None,
    };
    let c = match parse_bounded(&ps[2], 4294967295) {
        Some(c) => c,
        None => return None,
    };
    let d = match parse_bounded(&ps[3], 4294967295) {
        Some(d) => d,
        None => return None,
    };
    Some((a as u32, b as u32, c as u32, d as u32))
}

/// The request for `path` on the local DevTools endpoint.
pub open spec fn cdp_request_v(port: u16, path: Seq<char>) -> Seq<char> {
    "GET "@ + path + " HTTP/1.1\r\nHost: 127.0.0.1:"@ + decimal(port as nat) + "\r\nConnection: close\r\n\r\n"@
}

pub fn cdp_request_text(port: u16, path: &str) -> (r: String)
    ensures
        r@ == cdp_request_v(port, path@),
{
    let mut c = chars_of("GET ");
    push_str_chars(&mut c, path);
    push_str_chars(&mut c, " HTTP/1.1\r\nHost: 127.0.0.1:");
    let mut d = decimal_chars(port as u64);
    c.append(&mut d);
    push_str_chars(&mut c, "\r\nConnection: close\r\n\r\n");
    string_of(&c)
}

/// The body of an HTTP response: what follows its first blank line.
pub open spec fn response_body_v(response: Seq<char>) -> Option<Seq<char>> {
    match crate::text::find_first(response, "\r\n\r\n"@) {
        Some(i) => Some(response.skip(i + 4)),
        None => None,
    }
}

pub fn http_response_body(response: &str) -> (r: Result<String, String>)
    ensures
        match r {
            Ok(b) => response_body_v(response@) == Some(b@),
            Err(e) => response_body_v(response@) is None && e@ == "Invalid HTTP response from CDP endpoint."@,
        },
{
    let c = chars_of(response);
    let sep = chars_of("\r\n\r\n");
    proof {
        reveal_strlit("\r\n\r\n");
    }
    match crate::text::find_chars(&c, &sep) {
        Some(i) => {
            proof {
                crate::text::lemma_find_first(c@, sep@);
                assert(crate::text::occurs_at(c@, sep@, i as int));
                assert(sep@.len() == 4);
            }
            assert(i + 4 <= c.len());
            let after: usize = i + 4;
            let body = slice_chars(&c, after, c.len());
            proof {
                assert(body@ =~= c@.skip(i + 4));
            }
            Ok(string_of(&body))
        },
        None => Err(owned("Invalid HTTP response from CDP endpoint.")),
    }
}

/// The `Runtime.evaluate` command (id 1) that runs `script`.
pub open spec fn evaluate_command_v(script: Seq<char>) -> JsonV {
    JsonV::Object(
        seq![
            ("id"@, crate::json::int_v(1)),
            ("method"@, JsonV::Str("Runtime.evaluate"@)),
            (
                "params"@,
                JsonV::Object(
                    seq![
                        ("expression"@, JsonV::Str(script)),
                        ("awaitPromise"@, JsonV::Bool(false)),
                        ("allowUnsafeEvalBlockedByCSP"@, JsonV::Bool(true)),
                    ],
                ),
            ),
        ],
    )
}

pub fn evaluate_command(script: &str) -> (r: Json)
    ensures
        jv(r) == evaluate_command_v(script@),
{
    let params = crate::json::obj3(
        "expression",
        Json::str_of(script),
        "awaitPromise",
        Json::Bool(false),
        "allowUnsafeEvalBlockedByCSP",
        Json::Bool(true),
    );
    crate::json::obj3("id", crate::json::json_u64(1), "method", Json::str_of("Runtime.evaluate"), "params", params)
}

/// What a DevTools message means for the command with `id`.
#[derive(Debug)]
pub enum CdpReply {
    /// Not the reply: keep reading.
    Skip,
    /// The command ran.
    Done,
    /// The command failed, with this message.
    Failed(String),
}

/// The message answers the command `id`.
pub open spec fn answers(m: JsonV, id: u64) -> bool {
    match crate::json::v_get(m, "id"@) {
        Some(v) => crate::json::v_as_u64(v) == Some(id),
        None => false,
    }
}

/// The reply to the command `id`: a message with that id, failed when it
/// carries an `error`.
pub fn cdp_reply(message: &Json, id: u64) -> (r: CdpReply)
    ensures
        match r {
            CdpReply::Skip => !answers(jv(*message), id),
            CdpReply::Done => answers(jv(*message), id) && crate::json::v_get(jv(*message), "error"@) is None,
            CdpReply::Failed(m) => answers(jv(*message), id) && match crate::json::v_get(jv(*message), "error"@) {
                Some(e) => m@ == "CDP evaluate failed: "@ + crate::json::compact(e),
                None => false,
            },
        },
{
    let matches = match message.get("id") {
        Some(v) => match v.as_u64() {
            Some(n) => n == id,
            None => false,
        },
        None => false,
    };
    if !matches {
        return CdpReply::Skip;
    }
    match message.get("error") {
        Some(e) => {
            let mut m = chars_of("CDP evaluate failed: ");
            let t = crate::json::to_compact_string(e);
            push_str_chars(&mut m, t.as_str());
            CdpReply::Failed(string_of(&m))
        },
        None => CdpReply::Done,
    }
}

/// The DevTools port to use.
pub fn unlock_port(request: &UnlockRequest) -> (r: u16)
    ensures
        r == if request.debug_port == 0 {
            DEFAULT_DEBUG_PORT
        } else {
            request.debug_port
        },
{
    if request.debug_port == 0 {
        DEFAULT_DEBUG_PORT
    } else {
        request.debug_port
    }
}

/// What to do next.
#[derive(Debug)]
pub enum UnlockAction {
    /// Inject the script through this websocket; on success, report this.
    Inject(String, UnlockResult),
    /// Launch Codex with DevTools on the port, then probe again.
    Launch,
    /// Probe again without launching anything.
    Probe,
    /// Stop with this error.
    Fail(String),
}

/// The result of an injection into `target`.
fn injected_result(port: u16, restarted: bool, target: CdpTarget, app_path: Option<String>, message: &str) -> (r: UnlockResult)
    ensures
        r.debug_port == port,
        r.restarted == restarted,
        r.injected,
        opt_str_view(r.target_title) == Some(target.title@),
        opt_str_view(r.target_url) == Some(target.url@),
        opt_str_view(r.app_path) == opt_str_view(app_path),
        r.message@ == message@,
{
    UnlockResult {
        debug_port: port,
        restarted,
        injected: true,
        target_title: Some(target.title),
        target_url: Some(target.url),
        app_path,
        message: owned(message),
    }
}

/// The first step of an unlock, given the first probe of the DevTools
/// targets and the path of a running Codex: inject into a target that was
/// found; else launch Codex when asked (an error when it runs already
/// without DevTools), or probe again.
pub fn unlock_plugins_default(request: &UnlockRequest, first_probe: Result<CdpTarget, String>, app_path: Option<String>) -> (r: UnlockAction)
    ensures
        match first_probe {
            Ok(t) => match t.web_socket_debugger_url {
                Some(u) => r matches UnlockAction::Inject(url, res) && url@ == u@ && res.debug_port == (if request.debug_port == 0 {
                    DEFAULT_DEBUG_PORT
                } else {
                    request.debug_port
                }) && !res.restarted && res.injected && opt_str_view(res.target_title) == Some(t.title@)
                    && opt_str_view(res.target_url) == Some(t.url@) && opt_str_view(res.app_path) == opt_str_view(app_path)
                    && res.message@ == "Plugin unlock script injected into the running Codex window."@,
                None => r matches UnlockAction::Fail(e) && e@ == "Selected Codex target has no websocket URL."@,
            },
            Err(_) => if request.restart_codex {
                if app_path is Some {
                    r matches UnlockAction::Fail(e) && e@ == "Codex is already running without DevTools on port "@
                        + decimal((if request.debug_port == 0 {
                        DEFAULT_DEBUG_PORT
                    } else {
                        request.debug_port
                    }) as nat) + ". Close Codex first, then launch it from this toolkit."@
                } else {
                    r is Launch
                }
            } else {
                r is Probe
            },
        },
{
    let port = unlock_port(request);
    match first_probe {
        Ok(t) => match &t.web_socket_debugger_url {
            Some(u) => {
                let url = u.clone();
                let res = injected_result(port, false, t, app_path, "Plugin unlock script injected into the running Codex window.");
                UnlockAction::Inject(url, res)
            },
            None => UnlockAction::Fail(owned("Selected Codex target has no websocket URL.")),
        },
        Err(_) => {
            if request.restart_codex {
                if app_path.is_some() {
                    let mut m = chars_of("Codex is already running without DevTools on port ");
                    let mut d = decimal_chars(port as u64);
                    m.append(&mut d);
                    push_str_chars(&mut m, ". Close Codex first, then launch it from this toolkit.");
                    UnlockAction::Fail(string_of(&m))
                } else {
                    UnlockAction::Launch
                }
            } else {
                UnlockAction::Probe
            }
        },
    }
}

/// The last step of an unlock, given the second probe: inject into the
/// target found, or fail with the probe's error.
pub fn unlock_after_probe(port: u16, probe: Result<CdpTarget, String>, restarted: bool, app_path: Option<String>) -> (r: Result<(String, UnlockResult), String>)
    ensures
        match probe {
            Ok(t) => match t.web_socket_debugger_url {
                Some(u) => r matches Ok((url, res)) && url@ == u@ && res.debug_port == port && res.restarted == restarted
                    && res.injected && opt_str_view(res.target_title) == Some(t.title@) && opt_str_view(res.target_url) == Some(t.url@)
                    && opt_str_view(res.app_path) == opt_str_view(app_path)
                    && res.message@ == "Plugin unlock script injected. Open the Codex plugin page to verify."@,
                None => r matches Err(e) && e@ == "Selected Codex target has no websocket URL."@,
            },
            Err(e) => r matches Err(e2) && e2@ == e@,
        },
{
    match probe {
        Ok(t) => match &t.web_socket_debugger_url {
            Some(u) => {
                let url = u.clone();
                Ok((url, injected_result(port, restarted, t, app_path, "Plugin unlock script injected. Open the Codex plugin page to verify.")))
            },
            None => Err(owned("Selected Codex target has no websocket URL.")),
        },
        Err(e) => Err(e),
    }
}

/// The error when the DevTools endpoint never answered.
pub fn devtools_unreachable(port: u16) -> (r: String)
    ensures
        r@ == "Could not connect to Codex DevTools on port "@ + decimal(port as nat) + ". Restart Codex with debug mode first."@,
{
    let mut m = chars_of("Could not connect to Codex DevTools on port ");
    let mut d = decimal_chars(port as u64);
    m.append(&mut d);
    push_str_chars(&mut m, ". Restart Codex with debug mode first.");
    string_of(&m)
}


/// Where Windows is in reading one command-line argument: the characters
/// so far, the backslashes not yet resolved, whether a quoted part is open,
/// and whether unquoted white space ended the argument.
pub struct ArgReadV {
    pub out: Seq<char>,
    pub bs: nat,
    pub quoted: bool,
    pub split: bool,
}

/// One character of an argument as Windows reads it: a backslash waits
/// for what follows; before a quote, each pair of backslashes gives one
/// and an odd one makes the quote literal, while an even count opens or
/// closes a quoted part; unquoted space or tab ends the argument; any
/// other character is kept after the waiting backslashes.
pub open spec fn read_arg_step(st: ArgReadV, c: char) -> ArgReadV {
    if c == '\\' {
        ArgReadV { bs: st.bs + 1, ..st }
    } else if c == '"' {
        if st.bs % 2 == 1 {
            ArgReadV { out: st.out + backslashes(st.bs / 2) + seq!['"'], bs: 0, ..st }
        } else {
            ArgReadV { out: st.out + backslashes(st.bs / 2), bs: 0, quoted: !st.quoted, ..st }
        }
    } else if (c == ' ' || c == '\t') && !st.quoted {
        ArgReadV { out: st.out + backslashes(st.bs), bs: 0, split: true, ..st }
    } else {
        ArgReadV { out: st.out + backslashes(st.bs) + seq![c], bs: 0, ..st }
    }
}

/// The reading of a whole text, character by character.
pub open spec fn read_arg_fold(s: Seq<char>) -> ArgReadV
    decreases s.len(),
{
    if s.len() == 0 {
        ArgReadV { out: Seq::empty(), bs: 0, quoted: false, split: false }
    } else {
        read_arg_step(read_arg_fold(s.drop_last()), s.last())
    }
}

/// The argument Windows reads from a text, and whether the text is exactly
/// one argument (no unquoted white space, no quoted part left open).
pub open spec fn windows_argument_v(s: Seq<char>) -> (Seq<char>, bool) {
    let st = read_arg_fold(s);
    (st.out + backslashes(st.bs), !st.split && !st.quoted)
}

proof fn lemma_read_backslashes(p: Seq<char>, n: nat)
    ensures
        read_arg_fold(p + backslashes(n)) == (ArgReadV { bs: read_arg_fold(p).bs + n, ..read_arg_fold(p) }),
    decreases n,
{
    if n == 0 {
        assert(p + backslashes(0) =~= p);
    } else {
        lemma_read_backslashes(p, (n - 1) as nat);
        assert((p + backslashes(n)).drop_last() =~= p + backslashes((n - 1) as nat));
        assert((p + backslashes(n)).last() == '\\');
    }
}

proof fn lemma_backslashes_add(a: nat, b: nat)
    ensures
        backslashes(a) + backslashes(b) == backslashes(a + b),
{
    assert(backslashes(a) + backslashes(b) =~= backslashes(a + b));
}

/// Text without space, tab or quote reads back as itself, in one piece.
proof fn lemma_read_plain(s: Seq<char>)
    requires
        forall|i: int| 0 <= i < s.len() ==> #[trigger] s[i] != ' ' && s[i] != '\t' && s[i] != '"',
    ensures
        read_arg_fold(s).out + backslashes(read_arg_fold(s).bs) == s,
        !read_arg_fold(s).quoted,
        !read_arg_fold(s).split,
    decreases s.len(),
{
    if s.len() > 0 {
        let d = s.drop_last();
        assert forall|i: int| 0 <= i < d.len() implies #[trigger] d[i] != ' ' && d[i] != '\t' && d[i] != '"' by {
            assert(d[i] == s[i]);
        }
        lemma_read_plain(d);
        let st = read_arg_fold(d);
        if s.last() == '\\' {
            lemma_backslashes_add(st.bs, 1);
            assert(backslashes(1) =~= seq!['\\']);
            assert(s =~= d + seq!['\\']);
        } else {
            assert(s =~= d + seq![s.last()]);
        }
    }
}

/// After the opening quote and the quoted body of `s`, a quoted part is
/// open and everything but the trailing backslashes of `s` has been read.
proof fn lemma_read_quoted_body(s: Seq<char>)
    ensures
        ({
            let (body, k) = quote_fold(s);
            let st = read_arg_fold(seq!['"'] + body);
            &&& k <= s.len()
            &&& st.out + backslashes(k) == s
            &&& st.bs == 0
            &&& st.quoted
            &&& !st.split
        }),
    decreases s.len(),
{
    if s.len() == 0 {
        let q = seq!['"'];
        assert(seq!['"'] + Seq::<char>::empty() =~= q);
        assert(q.drop_last() =~= Seq::<char>::empty());
        assert(q.last() == '"');
        let st = read_arg_fold(q);
        assert(st == read_arg_step(read_arg_fold(Seq::<char>::empty()), '"'));
        assert(st.out =~= Seq::<char>::empty());
        assert(st.out + backslashes(0) =~= s);
    } else {
        let d = s.drop_last();
        let c = s.last();
        lemma_read_quoted_body(d);
        let (bd, kd) = quote_fold(d);
        let pre = seq!['"'] + bd;
        let st = read_arg_fold(pre);
        assert(st.out + backslashes(kd) == d);
        if c == '\\' {
            assert(quote_fold(s) == (bd, kd + 1));
            lemma_backslashes_add(kd, 1);
            assert(backslashes(1) =~= seq!['\\']);
            assert(s =~= d + seq!['\\']);
            assert(st.out + backslashes(kd + 1) =~= (st.out + backslashes(kd)) + backslashes(1));
            assert(st.out + backslashes(kd + 1) == s);
        } else if c == '"' {
            let body = bd + backslashes(kd * 2 + 1) + seq!['"'];
            assert(quote_fold(s) == (body, 0nat));
            let mid = pre + backslashes(kd * 2 + 1);
            assert(seq!['"'] + body =~= mid + seq!['"']);
            lemma_read_backslashes(pre, kd * 2 + 1);
            let sm = read_arg_fold(mid);
            assert(sm == (ArgReadV { bs: kd * 2 + 1, ..st }));
            assert((mid + seq!['"']).drop_last() =~= mid);
            assert((mid + seq!['"']).last() == '"');
            assert(read_arg_fold(mid + seq!['"']) == read_arg_step(sm, '"'));
            assert((kd * 2 + 1) / 2 == kd) by (nonlinear_arith);
            assert((kd * 2 + 1) % 2 == 1) by (nonlinear_arith);
            let s2 = read_arg_step(sm, '"');
            assert(s2.out == st.out + backslashes(kd) + seq!['"']);
            assert(s =~= d + seq!['"']);
            assert(s2.out + backslashes(0) =~= s);
        } else {
            let body = bd + backslashes(kd) + seq![c];
            assert(quote_fold(s) == (body, 0nat));
            let mid = pre + backslashes(kd);
            assert(seq!['"'] + body =~= mid + seq![c]);
            lemma_read_backslashes(pre, kd);
            let sm = read_arg_fold(mid);
            assert(sm == (ArgReadV { bs: kd, ..st }));
            assert((mid + seq![c]).drop_last() =~= mid);
            assert((mid + seq![c]).last() == c);
            assert(read_arg_fold(mid + seq![c]) == read_arg_step(sm, c));
            let s2 = read_arg_step(sm, c);
            assert(s2.out == st.out + backslashes(kd) + seq![c]);
            assert(s =~= d + seq![c]);
            assert(s2.out + backslashes(0) =~= s);
        }
    }
}

/// A quoted argument reads back, on Windows, as exactly the argument it
/// quotes, in one piece.
pub proof fn law_quoted_argument_reads_back(arg: Seq<char>)
    ensures
        windows_argument_v(quoted_argument(arg)) == (arg, true),
{
    if arg.len() > 0 && forall|i: int| 0 <= i < arg.len() ==> #[trigger] arg[i] != ' ' && arg[i] != '\t' && arg[i] != '"' {
        lemma_read_plain(arg);
    } else {
        let (body, k) = quote_fold(arg);
        lemma_read_quoted_body(arg);
        let pre = seq!['"'] + body;
        let q = seq!['"'] + body + backslashes(k * 2) + seq!['"'];
        assert(q =~= (pre + backslashes(k * 2)) + seq!['"']);
        lemma_read_backslashes(pre, k * 2);
        assert(((pre + backslashes(k * 2)) + seq!['"']).drop_last() =~= pre + backslashes(k * 2));
        assert((k * 2) / 2 == k) by (nonlinear_arith);
        assert((k * 2) % 2 == 0) by (nonlinear_arith);
        let st = read_arg_fold(pre);
        assert(st.out + backslashes(k) + backslashes(0) =~= arg);
    }
}

} // verus!
