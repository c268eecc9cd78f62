//! History synchronisation: Codex lists a session only under the provider
//! recorded in it, so switching providers hides older sessions. This module
//! decides what the sessions and the state database say, which provider
//! they move to, and how the desktop's workspace list is merged.
//!
//! The caller walks the session files and the SQLite database and writes
//! the changes; the decisions are here.

use vstd::prelude::*;

use crate::json::{jv, values_model, Json, JsonV};
use crate::relay_config::{is_valid_provider_id, valid_provider_id};
use crate::router_http::{lines_view, split_lines, text_lines};
use crate::text::{
    chars_of, ends_with, ends_with_exec, owned, push_str_chars, slice_chars, starts_with,
    starts_with_exec, string_of, trim_chars, trim_seq, trim_string, chars_eq, decimal, decimal_chars,
};

verus! {

/// The provider Codex uses when its configuration names none.
pub const DEFAULT_PROVIDER: &'static str = "openai";

/// The text between the quotes of `key = "..."` at the start of a line.
pub open spec fn quoted_value_v(line: Seq<char>, key: Seq<char>) -> Option<Seq<char>> {
    let prefix = key + " ="@;
    if !starts_with(line, prefix) {
        None
    } else {
        let value = trim_seq(line.skip(prefix.len() as int));
        if value.len() < 2 || value[0] != '"' || value[value.len() - 1] != '"' {
            None
        } else {
            Some(value.subrange(1, value.len() - 1))
        }
    }
}

pub fn parse_quoted_toml_value(line: &str, key: &str) -> (r: Option<String>)
    ensures
        crate::local_router::opt_str_view(r) == quoted_value_v(line@, key@),
{
    let l = chars_of(line);
    let mut prefix = chars_of(key);
    push_str_chars(&mut prefix, " =");
    if !starts_with_exec(&l, &prefix) {
        return None;
    }
    let rest = slice_chars(&l, prefix.len(), l.len());
    let value = trim_chars(&rest);
    proof {
        assert(rest@ =~= l@.skip(prefix@.len() as int));
    }
    if value.len() < 2 || value[0] != '"' || value[value.len() - 1] != '"' {
        return None;
    }
    Some(string_of(&slice_chars(&value, 1, value.len() - 1)))
}

/// The provider of the configuration's root `model_provider = "..."`, read
/// line by line up to the first table header (blank lines and comments are
/// skipped); the default provider, implicitly, when there is none.
pub open spec fn current_provider_v(lines: Seq<Seq<char>>) -> (Seq<char>, bool)
    decreases lines.len(),
{
    if lines.len() == 0 {
        (DEFAULT_PROVIDER@, true)
    } else {
        let t = trim_seq(lines[0]);
        if t.len() == 0 || t[0] == '#' {
            current_provider_v(lines.skip(1))
        } else if t[0] == '[' {
            (DEFAULT_PROVIDER@, true)
        } else {
            match quoted_value_v(t, "model_provider"@) {
                Some(v) => (v, false),
                None => current_provider_v(lines.skip(1)),
            }
        }
    }
}

/// The provider that the configuration text routes to, and whether it is
/// only the default.
pub fn read_current_provider(contents: &str) -> (r: (String, bool))
    ensures
        (r.0@, r.1) == current_provider_v(text_lines(contents@)),
{
    let c = chars_of(contents);
    let lines = split_lines(&c);
    let ghost lv = lines_view(lines@);
    let mut k: usize = 0;
    proof {
        assert(lv.skip(0) =~= lv);
    }
    while k < lines.len()
        invariant
            k <= lines@.len(),
            lv == lines_view(lines@),
            lv == text_lines(contents@),
            current_provider_v(lv) == current_provider_v(lv.skip(k as int)),
            DEFAULT_PROVIDER@ == "openai"@,
        decreases lines.len() - k,
    {
        proof {
            assert(lv.skip(k as int)[0] == lines@[k as int]@);
            assert(lv.skip(k as int).skip(1) =~= lv.skip(k + 1));
        }
        let t = trim_chars(&lines[k]);
        if t.len() == 0 || t[0] == '#' {
            k += 1;
            continue;
        }
        if t[0] == '[' {
            return (owned(DEFAULT_PROVIDER), true);
        }
        let ts = string_of(&t);
        match parse_quoted_toml_value(ts.as_str(), "model_provider") {
            Some(v) => return (v, false),
            None => {},
        }
        k += 1;
    }
    proof {
        assert(lv.skip(k as int) =~= Seq::<Seq<char>>::empty());
    }
    (owned(DEFAULT_PROVIDER), true)
}

/// Adds a provider unless it is listed already.
pub open spec fn push_unique_v(ps: Seq<Seq<char>>, p: Seq<char>) -> Seq<Seq<char>> {
    if ps.contains(p) {
        ps
    } else {
        ps.push(p)
    }
}

pub open spec fn strings_view(v: Seq<String>) -> Seq<Seq<char>> {
    v.map_values(|s: String| s@)
}

pub fn push_unique_provider(providers: &mut Vec<String>, provider: String)
    ensures
        strings_view(final(providers)@) == push_unique_v(strings_view(old(providers)@), provider@),
{
    let ghost before = strings_view(providers@);
    let mut i: usize = 0;
    while i < providers.len()
        invariant
            i <= providers@.len(),
            before == strings_view(providers@),
            forall|j: int| 0 <= j < i ==> before[j] != provider@,
        decreases providers.len() - i,
    {
        if str_eq_string(&providers[i], &provider) {
            proof {
                assert(before[i as int] == provider@);
            }
            return;
        }
        i += 1;
    }
    providers.push(provider);
    proof {
        assert(!before.contains(provider@));
        assert(strings_view(providers@) =~= before.push(provider@));
    }
}

fn str_eq_string(a: &String, b: &String) -> (r: bool)
    ensures
        r == (a@ == b@),
{
    crate::text::str_eq(a.as_str(), b.as_str())
}

/// The provider named by a `[model_providers.<id>]` header, trimmed, if the
/// line is one.
pub open spec fn header_provider(line: Seq<char>) -> Option<Seq<char>> {
    let t = trim_seq(line);
    let prefix = "[model_providers."@;
    if starts_with(t, prefix) && t.len() >= prefix.len() + 1 && t[t.len() - 1] == ']' {
        let p = trim_seq(t.subrange(prefix.len() as int, t.len() - 1));
        if p.len() > 0 {
            Some(p)
        } else {
            None
        }
    } else {
        None
    }
}

/// The providers a configuration defines, after the default one, each once,
/// in order of appearance.
pub open spec fn configured_providers_v(lines: Seq<Seq<char>>) -> Seq<Seq<char>>
    decreases lines.len(),
{
    if lines.len() == 0 {
        seq![DEFAULT_PROVIDER@]
    } else {
        let prev = configured_providers_v(lines.drop_last());
        match header_provider(lines.last()) {
            Some(p) => push_unique_v(prev, p),
            None => prev,
        }
    }
}

pub fn read_configured_providers(contents: &str) -> (r: Vec<String>)
    ensures
        strings_view(r@) == configured_providers_v(text_lines(contents@)),
{
    let c = chars_of(contents);
    let lines = split_lines(&c);
    let ghost lv = lines_view(lines@);
    let mut providers: Vec<String> = Vec::new();
    providers.push(owned(DEFAULT_PROVIDER));
    let prefix = chars_of("[model_providers.");
    let mut k: usize = 0;
    proof {
        assert(lv.take(0) =~= Seq::<Seq<char>>::empty());
        assert(strings_view(providers@) =~= seq![DEFAULT_PROVIDER@]);
    }
    while k < lines.len()
        invariant
            k <= lines@.len(),
            lv == lines_view(lines@),
            lv == text_lines(contents@),
            prefix@ == "[model_providers."@,
            strings_view(providers@) == configured_providers_v(lv.take(k as int)),
        decreases lines.len() - k,
    {
        proof {
            assert(lv.take(k + 1).drop_last() =~= lv.take(k as int));
            assert(lv.take(k + 1).last() == lines@[k as int]@);
        }
        let t = trim_chars(&lines[k]);
        if starts_with_exec(&t, &prefix) && t.len() > prefix.len() && t[t.len() - 1] == ']' {
            let inner = slice_chars(&t, prefix.len(), t.len() - 1);
            let p = trim_chars(&inner);
            if p.len() > 0 {
                push_unique_provider(&mut providers, string_of(&p));
            }
        }
        k += 1;
    }
    proof {
        assert(lv.take(lines@.len() as int) =~= lv);
    }
    providers
}

/// `s` with every `from` replaced by `to`.
pub open spec fn replace_char(s: Seq<char>, from: char, to: char) -> Seq<char> {
    s.map_values(|c: char| if c == from {
        to
    } else {
        c
    })
}

pub fn replace_char_exec(s: &[char], from: char, to: char) -> (r: Vec<char>)
    ensures
        r@ == replace_char(s@, from, to),
{
    let mut out: Vec<char> = Vec::new();
    let mut i: usize = 0;
    while i < s.len()
        invariant
            i <= s@.len(),
            out@ == replace_char(s@.take(i as int), from, to),
        decreases s.len() - i,
    {
        out.push(if s[i] == from {
            to
        } else {
            s[i]
        });
        proof {
            assert(replace_char(s@.take(i + 1), from, to) =~= replace_char(s@.take(i as int), from, to).push(
                if s@[i as int] == from {
                    to
                } else {
                    s@[i as int]
                },
            ));
        }
        i += 1;
    }
    proof {
        assert(s@.take(s@.len() as int) =~= s@);
    }
    out
}

/// A Windows extended-length path (`\\?\C:\x`, `\\?\UNC\host\share`) in the
/// form the desktop app shows, with `/` as `\`; any other path unchanged.
pub open spec fn desktop_path_v(value: Seq<char>) -> Seq<char> {
    let t = trim_seq(value);
    if starts_with(t, "\\\\?\\UNC\\"@) {
        "\\\\"@ + replace_char(t.skip(8), '/', '\\')
    } else if starts_with(t, "\\\\?\\"@) {
        replace_char(t.skip(4), '/', '\\')
    } else {
        value
    }
}

pub fn to_desktop_workspace_path(value: &str) -> (r: String)
    ensures
        r@ == desktop_path_v(value@),
{
    let t = trim_chars(&chars_of(value));
    let unc = chars_of("\\\\?\\UNC\\");
    let ext = chars_of("\\\\?\\");
    proof {
        reveal_strlit("\\\\?\\UNC\\");
        reveal_strlit("\\\\?\\");
    }
    if starts_with_exec(&t, &unc) {
        let rest = slice_chars(&t, 8, t.len());
        let mut out = chars_of("\\\\");
        let mut r = replace_char_exec(&rest, '/', '\\');
        out.append(&mut r);
        proof {
            assert(rest@ =~= t@.skip(8));
        }
        string_of(&out)
    } else if starts_with_exec(&t, &ext) {
        let rest = slice_chars(&t, 4, t.len());
        proof {
            assert(rest@ =~= t@.skip(4));
        }
        string_of(&replace_char_exec(&rest, '/', '\\'))
    } else {
        owned(value)
    }
}

/// The text that `str::to_lowercase` makes of `s`.
pub uninterp spec fn lowercase(s: Seq<char>) -> Seq<char>;

/// `str::to_lowercase`: the Unicode lower case of the text.
#[verifier::external_body]
pub(crate) fn to_lowercase(s: &str) -> (r: String)
    ensures
        r@ == lowercase(s@),
{
    s.to_lowercase()
}

/// Bytes of a character in UTF-8.
pub open spec fn utf8_width(c: char) -> nat {
    if (c as u32) < 0x80 {
        1
    } else if (c as u32) < 0x800 {
        2
    } else if (c as u32) < 0x10000 {
        3
    } else {
        4
    }
}

/// Bytes of a text in UTF-8 (`str::len`).
pub open spec fn utf8_len(s: Seq<char>) -> nat
    decreases s.len(),
{
    if s.len() == 0 {
        0
    } else {
        utf8_len(s.drop_last()) + utf8_width(s.last())
    }
}

/// Drops trailing `\` while the text is longer than three bytes.
pub open spec fn trim_trailing_backslashes(s: Seq<char>) -> Seq<char>
    decreases s.len(),
{
    if s.len() > 0 && s.last() == '\\' && utf8_len(s) > 3 {
        trim_trailing_backslashes(s.drop_last())
    } else {
        s
    }
}

/// A path as it is compared: in desktop form, trimmed, `/` as `\`, without
/// trailing `\` (a drive root keeps its own), in lower case.
pub open spec fn comparable_path_v(value: Seq<char>) -> Seq<char> {
    lowercase(trim_trailing_backslashes(replace_char(trim_seq(desktop_path_v(value)), '/', '\\')))
}

fn utf8_len_exec(s: &[char]) -> (r: usize)
    requires
        s@.len() < 0x1000_0000,
    ensures
        r == utf8_len(s@),
{
    let mut n: usize = 0;
    let mut i: usize = 0;
    while i < s.len()
        invariant
            i <= s@.len(),
            s@.len() < 0x1000_0000,
            n == utf8_len(s@.take(i as int)),
            n <= 4 * i,
        decreases s.len() - i,
    {
        let u = s[i] as u32;
        let w: usize = if u < 0x80 {
            1
        } else if u < 0x800 {
            2
        } else if u < 0x10000 {
            3
        } else {
            4
        };
        proof {
            assert(s@.take(i + 1).drop_last() =~= s@.take(i as int));
        }
        n = n + w;
        i += 1;
    }
    proof {
        assert(s@.take(s@.len() as int) =~= s@);
    }
    n
}

proof fn lemma_utf8_len_ge(s: Seq<char>)
    ensures
        utf8_len(s) >= s.len(),
    decreases s.len(),
{
    if s.len() > 0 {
        lemma_utf8_len_ge(s.drop_last());
    }
}

pub fn normalize_comparable_path(value: &str) -> (r: String)
    ensures
        r@ == comparable_path_v(value@),
{
    let d = to_desktop_workspace_path(value);
    let t = trim_chars(&chars_of(d.as_str()));
    let mut n = replace_char_exec(&t, '/', '\\');
    let ghost start = n@;
    proof {
        lemma_utf8_len_ge(n@);
    }
    while n.len() > 0 && n[n.len() - 1] == '\\' && (n.len() >= 4 || utf8_len_exec(&n) > 3)
        invariant
            trim_trailing_backslashes(n@) == trim_trailing_backslashes(start),
            start == replace_char(trim_seq(desktop_path_v(value@)), '/', '\\'),
        decreases n@.len(),
    {
        proof {
            lemma_utf8_len_ge(n@);
        }
        n.pop();
        proof {
            lemma_utf8_len_ge(n@);
        }
    }
    proof {
        lemma_utf8_len_ge(n@);
    }
    to_lowercase(string_of(&n).as_str())
}

/// Text order by code points, which is the order of `String`'s `Ord`
/// (UTF-8 keeps it).
pub open spec fn str_lt(a: Seq<char>, b: Seq<char>) -> bool
    decreases a.len(),
{
    if a.len() == 0 {
        b.len() > 0
    } else if b.len() == 0 {
        false
    } else if a[0] != b[0] {
        a[0] < b[0]
    } else {
        str_lt(a.skip(1), b.skip(1))
    }
}

pub proof fn lemma_str_lt_irrefl(a: Seq<char>)
    ensures
        !str_lt(a, a),
    decreases a.len(),
{
    if a.len() > 0 {
        lemma_str_lt_irrefl(a.skip(1));
    }
}

pub proof fn lemma_str_lt_total(a: Seq<char>, b: Seq<char>)
    ensures
        a != b ==> (str_lt(a, b) || str_lt(b, a)),
        !(str_lt(a, b) && str_lt(b, a)),
    decreases a.len(),
{
    if a.len() > 0 && b.len() > 0 && a[0] == b[0] {
        lemma_str_lt_total(a.skip(1), b.skip(1));
        if a.skip(1) == b.skip(1) {
            assert(a =~= seq![a[0]] + a.skip(1));
            assert(b =~= seq![b[0]] + b.skip(1));
        }
    } else if a.len() == 0 && b.len() == 0 {
        assert(a =~= b);
    }
}

pub proof fn lemma_str_lt_trans(a: Seq<char>, b: Seq<char>, c: Seq<char>)
    requires
        str_lt(a, b),
        str_lt(b, c),
    ensures
        str_lt(a, c),
    decreases a.len(),
{
    if a.len() > 0 && b.len() > 0 && c.len() > 0 && a[0] == b[0] && b[0] == c[0] {
        lemma_str_lt_trans(a.skip(1), b.skip(1), c.skip(1));
    }
}

pub fn str_lt_exec(a: &str, b: &str) -> (r: bool)
    ensures
        r == str_lt(a@, b@),
{
    let x = chars_of(a);
    let y = chars_of(b);
    let mut i: usize = 0;
    proof {
        assert(x@.skip(0) =~= x@);
        assert(y@.skip(0) =~= y@);
    }
    while i < x.len() && i < y.len() && x[i] == y[i]
        invariant
            i <= x@.len(),
            i <= y@.len(),
            str_lt(x@, y@) == str_lt(x@.skip(i as int), y@.skip(i as int)),
        decreases x.len() - i,
    {
        proof {
            assert(x@.skip(i as int).skip(1) =~= x@.skip(i + 1));
            assert(y@.skip(i as int).skip(1) =~= y@.skip(i + 1));
        }
        i += 1;
    }
    if i == x.len() {
        i < y.len()
    } else if i == y.len() {
        false
    } else {
        x[i] < y[i]
    }
}

/// Session counts per provider, with keys in increasing order.
pub open spec fn sorted_keys(b: Seq<(Seq<char>, usize)>) -> bool {
    forall|i: int, j: int| 0 <= i < j < b.len() ==> str_lt(#[trigger] b[i].0, #[trigger] b[j].0)
}

/// The count for a provider, 0 when it has none.
pub open spec fn count_of(b: Seq<(Seq<char>, usize)>, p: Seq<char>) -> nat
    decreases b.len(),
{
    if b.len() == 0 {
        0
    } else if b.last().0 == p {
        b.last().1 as nat
    } else {
        count_of(b.drop_last(), p)
    }
}

/// Sessions and archived sessions per provider (a `BTreeMap` from provider
/// to count, held as a list in key order).
#[derive(Debug)]
pub struct ScopeCounts {
    pub sessions: Vec<(String, usize)>,
    pub archived_sessions: Vec<(String, usize)>,
}

pub open spec fn bucket_view(v: Seq<(String, usize)>) -> Seq<(Seq<char>, usize)> {
    v.map_values(|e: (String, usize)| (e.0@, e.1))
}

impl ScopeCounts {
    pub open spec fn sessions_v(&self) -> Seq<(Seq<char>, usize)> {
        bucket_view(self.sessions@)
    }

    pub open spec fn archived_v(&self) -> Seq<(Seq<char>, usize)> {
        bucket_view(self.archived_sessions@)
    }

    /// Both lists are in key order.
    pub open spec fn wf(&self) -> bool {
        sorted_keys(self.sessions_v()) && sorted_keys(self.archived_v())
    }

    /// No counts.
    pub fn new() -> (r: Self)
        ensures
            r.wf(),
            r.sessions_v() == Seq::<(Seq<char>, usize)>::empty(),
            r.archived_v() == Seq::<(Seq<char>, usize)>::empty(),
    {
        let r = ScopeCounts { sessions: Vec::new(), archived_sessions: Vec::new() };
        proof {
            assert(r.sessions_v() =~= Seq::<(Seq<char>, usize)>::empty());
            assert(r.archived_v() =~= Seq::<(Seq<char>, usize)>::empty());
        }
        r
    }
}

/// How many keys come before `p`.
pub open spec fn keys_before(b: Seq<(Seq<char>, usize)>, p: Seq<char>) -> nat
    decreases b.len(),
{
    if b.len() == 0 {
        0
    } else {
        keys_before(b.drop_last(), p) + if str_lt(b.last().0, p) {
            1nat
        } else {
            0nat
        }
    }
}

/// The list with one more session for `p`: its count raised, or a new
/// entry at its place in key order.
pub open spec fn bump(b: Seq<(Seq<char>, usize)>, p: Seq<char>) -> Seq<(Seq<char>, usize)> {
    let i = keys_before(b, p) as int;
    if i < b.len() && b[i].0 == p {
        b.update(i, (p, (b[i].1 + 1) as usize))
    } else {
        b.insert(i, (p, 1usize))
    }
}

proof fn lemma_keys_before(b: Seq<(Seq<char>, usize)>, p: Seq<char>, i: int)
    requires
        sorted_keys(b),
        0 <= i <= b.len(),
        forall|j: int| 0 <= j < i ==> str_lt(#[trigger] b[j].0, p),
        i == b.len() || !str_lt(b[i].0, p),
    ensures
        keys_before(b, p) == i,
    decreases b.len(),
{
    if b.len() > 0 {
        let d = b.drop_last();
        assert(sorted_keys(d)) by {
            assert forall|x: int, y: int| 0 <= x < y < d.len() implies str_lt(#[trigger] d[x].0, #[trigger] d[y].0) by {
                assert(d[x] == b[x] && d[y] == b[y]);
            }
        }
        if i == b.len() {
            lemma_keys_before(d, p, i - 1);
        } else {
            if i < b.len() - 1 {
                assert(str_lt(b[i].0, b.last().0));
                if str_lt(b.last().0, p) {
                    lemma_str_lt_trans(b[i].0, b.last().0, p);
                }
            }
            lemma_keys_before(d, p, i);
        }
    }
}

/// Adds a session of `provider` to the counts of `directory`
/// (`archived_sessions`, or else the current sessions).
pub fn increment_scope_count(counts: &mut ScopeCounts, directory: &str, provider: &str)
    requires
        old(counts).wf(),
        count_of(old(counts).sessions_v(), provider@) < usize::MAX,
        count_of(old(counts).archived_v(), provider@) < usize::MAX,
    ensures
        final(counts).wf(),
        directory@ == "archived_sessions"@ ==> final(counts).archived_v() == bump(old(counts).archived_v(), provider@)
            && final(counts).sessions_v() == old(counts).sessions_v(),
        directory@ != "archived_sessions"@ ==> final(counts).sessions_v() == bump(old(counts).sessions_v(), provider@)
            && final(counts).archived_v() == old(counts).archived_v(),
{
    if crate::text::str_eq(directory, "archived_sessions") {
        bump_bucket(&mut counts.archived_sessions, provider);
    } else {
        bump_bucket(&mut counts.sessions, provider);
    }
}

proof fn lemma_count_of_at(b: Seq<(Seq<char>, usize)>, i: int)
    requires
        sorted_keys(b),
        0 <= i < b.len(),
    ensures
        count_of(b, b[i].0) == b[i].1,
    decreases b.len(),
{
    if i < b.len() - 1 {
        let d = b.drop_last();
        assert(str_lt(b[i].0, b.last().0));
        lemma_str_lt_irrefl(b[i].0);
        assert(sorted_keys(d)) by {
            assert forall|x: int, y: int| 0 <= x < y < d.len() implies str_lt(#[trigger] d[x].0, #[trigger] d[y].0) by {
                assert(d[x] == b[x] && d[y] == b[y]);
            }
        }
        lemma_count_of_at(d, i);
    }
}

/// In a list with no key twice, a key's count is the one stored with it,
/// and a missing key counts 0.
proof fn lemma_count_of_unique(b: Seq<(Seq<char>, usize)>, q: Seq<char>)
    requires
        forall|x: int, y: int| 0 <= x < y < b.len() ==> #[trigger] b[x].0 != #[trigger] b[y].0,
    ensures
        forall|k: int| 0 <= k < b.len() && #[trigger] b[k].0 == q ==> count_of(b, q) == b[k].1,
        (forall|k: int| 0 <= k < b.len() ==> #[trigger] b[k].0 != q) ==> count_of(b, q) == 0,
    decreases b.len(),
{
    if b.len() > 0 {
        let d = b.drop_last();
        assert forall|x: int, y: int| 0 <= x < y < d.len() implies #[trigger] d[x].0 != #[trigger] d[y].0 by {
            assert(d[x] == b[x] && d[y] == b[y]);
        }
        lemma_count_of_unique(d, q);
        assert forall|k: int| 0 <= k < b.len() && #[trigger] b[k].0 == q implies count_of(b, q) == b[k].1 by {
            if k < b.len() - 1 {
                assert(d[k] == b[k]);
                assert(b.last().0 != q);
            }
        }
        if forall|k: int| 0 <= k < b.len() ==> #[trigger] b[k].0 != q {
            assert forall|k: int| 0 <= k < d.len() implies #[trigger] d[k].0 != q by {
                assert(d[k] == b[k]);
            }
        }
    }
}

/// The keys before `p` in a sorted list are those less than `p`.
proof fn lemma_keys_before_split(b: Seq<(Seq<char>, usize)>, p: Seq<char>)
    requires
        sorted_keys(b),
    ensures
        keys_before(b, p) <= b.len(),
        forall|j: int| 0 <= j < keys_before(b, p) ==> str_lt(#[trigger] b[j].0, p),
        forall|j: int| keys_before(b, p) <= j < b.len() ==> !str_lt(#[trigger] b[j].0, p),
    decreases b.len(),
{
    if b.len() > 0 {
        let d = b.drop_last();
        assert(sorted_keys(d)) by {
            assert forall|x: int, y: int| 0 <= x < y < d.len() implies str_lt(#[trigger] d[x].0, #[trigger] d[y].0) by {
                assert(d[x] == b[x] && d[y] == b[y]);
            }
        }
        lemma_keys_before_split(d, p);
        let i = keys_before(d, p);
        if str_lt(b.last().0, p) {
            assert forall|j: int| 0 <= j < b.len() implies str_lt(#[trigger] b[j].0, p) by {
                if j < b.len() - 1 {
                    assert(str_lt(b[j].0, b.last().0));
                    lemma_str_lt_trans(b[j].0, b.last().0, p);
                }
            }
            if i < d.len() {
                assert(str_lt(b[i as int].0, p));
                assert(d[i as int] == b[i as int]);
            }
        } else {
            assert forall|j: int| 0 <= j < keys_before(b, p) implies str_lt(#[trigger] b[j].0, p) by {
                assert(d[j] == b[j]);
            }
            assert forall|j: int| keys_before(b, p) <= j < b.len() implies !str_lt(#[trigger] b[j].0, p) by {
                if j < b.len() - 1 {
                    assert(d[j] == b[j]);
                }
            }
        }
    }
}

/// Counting one more session of `p` raises the count of `p` by one and
/// leaves every other provider's count as it was.
pub proof fn law_bump_counts_one(b: Seq<(Seq<char>, usize)>, p: Seq<char>, q: Seq<char>)
    requires
        sorted_keys(b),
        count_of(b, p) < usize::MAX,
    ensures
        count_of(bump(b, p), q) == count_of(b, q) + (if q == p { 1nat } else { 0nat }),
{
    lemma_keys_before_split(b, p);
    let i = keys_before(b, p) as int;
    assert forall|x: int, y: int| 0 <= x < y < b.len() implies #[trigger] b[x].0 != #[trigger] b[y].0 by {
        lemma_str_lt_irrefl(b[x].0);
    }
    lemma_count_of_unique(b, q);
    lemma_count_of_unique(b, p);
    let nb = bump(b, p);
    if i < b.len() && b[i].0 == p {
        assert(nb == b.update(i, (p, (b[i].1 + 1) as usize)));
        assert forall|x: int, y: int| 0 <= x < y < nb.len() implies #[trigger] nb[x].0 != #[trigger] nb[y].0 by {
            assert(nb[x].0 == b[x].0 && nb[y].0 == b[y].0);
        }
        lemma_count_of_unique(nb, q);
        assert(nb[i].0 == p);
        if q == p {
            assert(count_of(b, p) == b[i].1);
            assert(count_of(nb, p) == nb[i].1);
            assert(nb[i].1 == b[i].1 + 1);
        }
        if q != p {
            if exists|k: int| 0 <= k < b.len() && b[k].0 == q {
                let k = choose|k: int| 0 <= k < b.len() && b[k].0 == q;
                assert(nb[k] == b[k]);
            } else {
                assert forall|k: int| 0 <= k < nb.len() implies #[trigger] nb[k].0 != q by {
                    assert(nb[k].0 == b[k].0);
                }
            }
        }
    } else {
        assert(nb == b.insert(i, (p, 1usize)));
        assert forall|k: int| 0 <= k < b.len() implies #[trigger] b[k].0 != p by {
            lemma_str_lt_irrefl(p);
            if k >= i {
                if k == i {
                } else {
                    assert(str_lt(b[i].0, b[k].0));
                    lemma_str_lt_total(b[i].0, p);
                    lemma_str_lt_trans(p, b[i].0, b[k].0);
                }
            }
        }
        assert forall|x: int, y: int| 0 <= x < y < nb.len() implies #[trigger] nb[x].0 != #[trigger] nb[y].0 by {
            if y < i {
                assert(nb[x] == b[x] && nb[y] == b[y]);
            } else if x > i {
                assert(nb[x] == b[x - 1] && nb[y] == b[y - 1]);
            } else if x == i {
                assert(nb[y] == b[y - 1]);
            } else if y == i {
                assert(nb[x] == b[x]);
            } else {
                assert(nb[x] == b[x] && nb[y] == b[y - 1]);
            }
        }
        lemma_count_of_unique(nb, q);
        assert(nb[i] == (p, 1usize));
        if q == p {
            assert(nb[i].0 == p);
            assert(count_of(nb, p) == 1);
        }
        if q != p {
            if exists|k: int| 0 <= k < b.len() && b[k].0 == q {
                let k = choose|k: int| 0 <= k < b.len() && b[k].0 == q;
                if k < i {
                    assert(nb[k] == b[k]);
                } else {
                    assert(nb[k + 1] == b[k]);
                }
            } else {
                assert forall|k: int| 0 <= k < nb.len() implies #[trigger] nb[k].0 != q by {
                    if k < i {
                        assert(nb[k] == b[k]);
                    } else if k > i {
                        assert(nb[k] == b[k - 1]);
                    }
                }
            }
        } else {
            assert(count_of(b, p) == 0);
        }
    }
}

fn bump_bucket(bucket: &mut Vec<(String, usize)>, provider: &str)
    requires
        sorted_keys(bucket_view(old(bucket)@)),
        count_of(bucket_view(old(bucket)@), provider@) < usize::MAX,
    ensures
        sorted_keys(bucket_view(final(bucket)@)),
        bucket_view(final(bucket)@) == bump(bucket_view(old(bucket)@), provider@),
{
    let ghost b = bucket_view(bucket@);
    let mut i: usize = 0;
    while i < bucket.len() && str_lt_exec(bucket[i].0.as_str(), provider)
        invariant
            i <= bucket@.len(),
            b == bucket_view(bucket@),
            sorted_keys(b),
            forall|j: int| 0 <= j < i ==> str_lt(#[trigger] b[j].0, provider@),
        decreases bucket.len() - i,
    {
        i += 1;
    }
    proof {
        lemma_keys_before(b, provider@, i as int);
    }
    if i < bucket.len() && crate::text::str_eq(bucket[i].0.as_str(), provider) {
        proof {
            lemma_count_of_at(b, i as int);
        }
        let (k, c) = bucket.remove(i);
        bucket.insert(i, (k, c + 1));
        proof {
            assert(bucket_view(bucket@) =~= b.update(i as int, (provider@, (b[i as int].1 + 1) as usize)));
        }
    } else {
        bucket.insert(i, (owned(provider), 1));
        proof {
            let nb = bucket_view(bucket@);
            assert(nb =~= b.insert(i as int, (provider@, 1usize)));
            if i < b.len() {
                lemma_str_lt_total(b[i as int].0, provider@);
            }
            assert forall|x: int, y: int| 0 <= x < y < nb.len() implies str_lt(#[trigger] nb[x].0, #[trigger] nb[y].0) by {
                if y < i {
                } else if x > i {
                    assert(nb[x] == b[x - 1] && nb[y] == b[y - 1]);
                } else if x == i {
                    assert(nb[y] == b[y - 1]);
                    if y - 1 > i {
                        assert(str_lt(b[i as int].0, b[y - 1].0));
                        lemma_str_lt_trans(provider@, b[i as int].0, b[y - 1].0);
                    }
                } else {
                    if y == i {
                    } else {
                        assert(nb[y] == b[y - 1]);
                    }
                }
            }
        }
    }
}

/// The providers, other than `target`, whose sessions hold encrypted
/// content: from the current sessions, then from the archived ones.
pub open spec fn risky_providers(b: Seq<(Seq<char>, usize)>, target: Seq<char>) -> Seq<Seq<char>>
    decreases b.len(),
{
    if b.len() == 0 {
        Seq::empty()
    } else {
        risky_providers(b.drop_last(), target) + if b.last().1 > 0 && b.last().0 != target {
            seq![b.last().0]
        } else {
            Seq::<Seq<char>>::empty()
        }
    }
}

/// The items joined with `sep` between them.
pub open spec fn join(items: Seq<Seq<char>>, sep: Seq<char>) -> Seq<char>
    decreases items.len(),
{
    if items.len() == 0 {
        Seq::empty()
    } else if items.len() == 1 {
        items[0]
    } else {
        join(items.drop_last(), sep) + sep + items.last()
    }
}

pub open spec fn encrypted_warning_v(enc: ScopeCounts, target: Seq<char>) -> Option<Seq<char>> {
    let risky = risky_providers(enc.sessions_v(), target) + risky_providers(enc.archived_v(), target);
    if risky.len() == 0 {
        None
    } else {
        Some(
            "Some histories contain encrypted_content from provider(s) "@ + join(risky, ", "@)
                + ". Sync can restore list visibility, but continuing those sessions may still fail."@,
        )
    }
}

fn collect_risky(b: &Vec<(String, usize)>, target: &str, out: &mut Vec<String>)
    ensures
        strings_view(final(out)@) == strings_view(old(out)@) + risky_providers(bucket_view(b@), target@),
{
    let ghost bv = bucket_view(b@);
    let ghost start = strings_view(out@);
    let mut i: usize = 0;
    proof {
        assert(bv.take(0) =~= Seq::<(Seq<char>, usize)>::empty());
        assert(start + risky_providers(bv.take(0), target@) =~= start);
    }
    while i < b.len()
        invariant
            i <= b@.len(),
            bv == bucket_view(b@),
            strings_view(out@) == start + risky_providers(bv.take(i as int), target@),
        decreases b.len() - i,
    {
        proof {
            assert(bv.take(i + 1).drop_last() =~= bv.take(i as int));
            assert(bv.take(i + 1).last() == bv[i as int]);
        }
        let ghost before = strings_view(out@);
        if b[i].1 > 0 && !crate::text::str_eq(b[i].0.as_str(), target) {
            out.push(b[i].0.clone());
            proof {
                assert(strings_view(out@) =~= before.push(bv[i as int].0));
            }
        }
        proof {
            assert(strings_view(out@) =~= start + risky_providers(bv.take(i + 1), target@));
        }
        i += 1;
    }
    proof {
        assert(bv.take(b@.len() as int) =~= bv);
    }
}

fn join_exec(items: &Vec<String>, sep: &str) -> (r: String)
    ensures
        r@ == join(strings_view(items@), sep@),
{
    let ghost iv = strings_view(items@);
    let mut out: Vec<char> = Vec::new();
    let mut i: usize = 0;
    proof {
        assert(iv.take(0) =~= Seq::<Seq<char>>::empty());
    }
    while i < items.len()
        invariant
            i <= items@.len(),
            iv == strings_view(items@),
            out@ == join(iv.take(i as int), sep@),
        decreases items.len() - i,
    {
        proof {
            assert(iv.take(i + 1).drop_last() =~= iv.take(i as int));
            assert(iv.take(i + 1).last() == iv[i as int]);
        }
        if i > 0 {
            push_str_chars(&mut out, sep);
        }
        push_str_chars(&mut out, items[i].as_str());
        proof {
            if i == 0 {
                assert(iv.take(1) =~= seq![iv[0]]);
                assert(out@ =~= iv[0]);
            }
        }
        i += 1;
    }
    proof {
        assert(iv.take(items@.len() as int) =~= iv);
    }
    string_of(&out)
}

/// A warning when sessions of other providers than `target_provider` hold
/// encrypted content, which only their provider can read.
pub fn build_encrypted_warning(encrypted_counts: &ScopeCounts, target_provider: &str) -> (r: Option<String>)
    ensures
        crate::local_router::opt_str_view(r) == encrypted_warning_v(*encrypted_counts, target_provider@),
{
    let mut risky: Vec<String> = Vec::new();
    proof {
        assert(strings_view(risky@) =~= Seq::<Seq<char>>::empty());
    }
    collect_risky(&encrypted_counts.sessions, target_provider, &mut risky);
    collect_risky(&encrypted_counts.archived_sessions, target_provider, &mut risky);
    if risky.len() == 0 {
        return None;
    }
    let mut out = chars_of("Some histories contain encrypted_content from provider(s) ");
    let joined = join_exec(&risky, ", ");
    push_str_chars(&mut out, joined.as_str());
    push_str_chars(&mut out, ". Sync can restore list visibility, but continuing those sessions may still fail.");
    Some(string_of(&out))
}

/// `"` doubled, the whole in quotes: an SQL identifier.
pub open spec fn quoted_identifier_v(s: Seq<char>) -> Seq<char> {
    seq!['"'] + doubled_quotes(s) + seq!['"']
}

pub open spec fn doubled_quotes(s: Seq<char>) -> Seq<char>
    decreases s.len(),
{
    if s.len() == 0 {
        Seq::empty()
    } else {
        doubled_quotes(s.drop_last()) + if s.last() == '"' {
            seq!['"', '"']
        } else {
            seq![s.last()]
        }
    }
}

pub fn quote_identifier(value: &str) -> (r: String)
    ensures
        r@ == quoted_identifier_v(value@),
{
    let c = chars_of(value);
    let mut out: Vec<char> = Vec::new();
    out.push('"');
    let mut i: usize = 0;
    proof {
        assert(c@.take(0) =~= Seq::<char>::empty());
        assert(out@ =~= seq!['"'] + doubled_quotes(c@.take(0)));
    }
    while i < c.len()
        invariant
            i <= c@.len(),
            c@ == value@,
            out@ == seq!['"'] + doubled_quotes(c@.take(i as int)),
        decreases c.len() - i,
    {
        proof {
            assert(c@.take(i + 1).drop_last() =~= c@.take(i as int));
            assert(c@.take(i + 1).last() == c@[i as int]);
        }
        if c[i] == '"' {
            out.push('"');
            out.push('"');
        } else {
            out.push(c[i]);
        }
        proof {
            assert(out@ =~= seq!['"'] + doubled_quotes(c@.take(i + 1)));
        }
        i += 1;
    }
    out.push('"');
    proof {
        assert(c@.take(c@.len() as int) =~= c@);
    }
    string_of(&out)
}

/// The provider histories move to: the given one, trimmed, unless it is
/// blank; else the current one. It must be a valid provider id.
pub open spec fn sync_target_v(provider: Option<Seq<char>>, current: Seq<char>) -> Result<Seq<char>, Seq<char>> {
    let t = match provider {
        Some(p) => if trim_seq(p).len() > 0 {
            trim_seq(p)
        } else {
            current
        },
        None => current,
    };
    if valid_provider_id(t) {
        Ok(t)
    } else {
        Err("Provider ID can only contain letters, numbers, underscore and hyphen."@)
    }
}

pub fn sync_target_provider(provider: Option<String>, current: String) -> (r: Result<String, String>)
    ensures
        match r {
            Ok(t) => sync_target_v(crate::local_router::opt_str_view(provider), current@) == Ok::<Seq<char>, Seq<char>>(t@),
            Err(e) => sync_target_v(crate::local_router::opt_str_view(provider), current@) == Err::<Seq<char>, Seq<char>>(e@),
        },
{
    let target = match provider {
        Some(p) => {
            let t = trim_string(p.as_str());
            if t.as_str().is_empty() {
                current
            } else {
                t
            }
        },
        None => current,
    };
    if is_valid_provider_id(target.as_str()) {
        Ok(target)
    } else {
        Err(owned("Provider ID can only contain letters, numbers, underscore and hyphen."))
    }
}

/// What a synchronisation did.
#[derive(Debug)]
pub struct HistorySyncResult {
    pub codex_home: String,
    pub target_provider: String,
    pub backup_dir: String,
    pub changed_session_files: usize,
    pub sqlite_rows_updated: usize,
    pub sqlite_present: bool,
    pub encrypted_content_warning: Option<String>,
    pub message: String,
}

pub open spec fn sync_message(target: Seq<char>, files: nat, rows: nat) -> Seq<char> {
    "History synced to "@ + target + ". Updated "@ + decimal(files) + " session file(s) and "@
        + decimal(rows) + " SQLite row(s)."@
}

/// The result of a synchronisation to `target_provider`.
pub fn history_sync_result(
    codex_home: String,
    target_provider: String,
    backup_dir: String,
    changed_session_files: usize,
    sqlite_rows_updated: usize,
    sqlite_present: bool,
    encrypted_content_warning: Option<String>,
) -> (r: HistorySyncResult)
    ensures
        r.codex_home@ == codex_home@,
        r.target_provider@ == target_provider@,
        r.backup_dir@ == backup_dir@,
        r.changed_session_files == changed_session_files,
        r.sqlite_rows_updated == sqlite_rows_updated,
        r.sqlite_present == sqlite_present,
        crate::local_router::opt_str_view(r.encrypted_content_warning) == crate::local_router::opt_str_view(encrypted_content_warning),
        r.message@ == sync_message(target_provider@, changed_session_files as nat, sqlite_rows_updated as nat),
{
    let mut m = chars_of("History synced to ");
    push_str_chars(&mut m, target_provider.as_str());
    push_str_chars(&mut m, ". Updated ");
    let mut a = decimal_chars(changed_session_files as u64);
    m.append(&mut a);
    push_str_chars(&mut m, " session file(s) and ");
    let mut b = decimal_chars(sqlite_rows_updated as u64);
    m.append(&mut b);
    push_str_chars(&mut m, " SQLite row(s).");
    HistorySyncResult {
        codex_home,
        target_provider,
        backup_dir,
        changed_session_files,
        sqlite_rows_updated,
        sqlite_present,
        encrypted_content_warning,
        message: string_of(&m),
    }
}

/// The list holds a path that compares equal to `p`.
pub open spec fn has_comparable(paths: Seq<Seq<char>>, p: Seq<char>) -> bool {
    exists|j: int| 0 <= j < paths.len() && comparable_path_v(#[trigger] paths[j]) == comparable_path_v(p)
}

pub fn push_unique_path(paths: &mut Vec<String>, path: String)
    ensures
        strings_view(final(paths)@) == if has_comparable(strings_view(old(paths)@), path@) {
            strings_view(old(paths)@)
        } else {
            strings_view(old(paths)@).push(path@)
        },
{
    let ghost before = strings_view(paths@);
    let comparable = normalize_comparable_path(path.as_str());
    let mut i: usize = 0;
    while i < paths.len()
        invariant
            i <= paths@.len(),
            before == strings_view(paths@),
            comparable@ == comparable_path_v(path@),
            forall|j: int| 0 <= j < i ==> comparable_path_v(#[trigger] before[j]) != comparable_path_v(path@),
        decreases paths.len() - i,
    {
        let other = normalize_comparable_path(paths[i].as_str());
        if crate::text::str_eq(other.as_str(), comparable.as_str()) {
            proof {
                assert(comparable_path_v(before[i as int]) == comparable_path_v(path@));
            }
            return;
        }
        i += 1;
    }
    paths.push(path);
    proof {
        assert(strings_view(paths@) =~= before.push(path@));
    }
}

/// The JSON array holds a string path that compares equal to `p`.
pub open spec fn array_has_path_v(a: Seq<JsonV>, p: Seq<char>) -> bool {
    exists|j: int| 0 <= j < a.len() && (#[trigger] a[j] matches JsonV::Str(s) && comparable_path_v(s) == comparable_path_v(p))
}

pub fn array_has_path(array: &Vec<Json>, path: &str) -> (r: bool)
    ensures
        r == array_has_path_v(values_model(array@), path@),
{
    let ghost a = values_model(array@);
    let target = normalize_comparable_path(path);
    let mut i: usize = 0;
    while i < array.len()
        invariant
            i <= array@.len(),
            a == values_model(array@),
            target@ == comparable_path_v(path@),
            forall|j: int| 0 <= j < i ==> !(#[trigger] a[j] matches JsonV::Str(s) && comparable_path_v(s) == comparable_path_v(path@)),
        decreases array.len() - i,
    {
        match array[i].as_str() {
            Some(v) => {
                let c = normalize_comparable_path(v.as_str());
                if crate::text::str_eq(c.as_str(), target.as_str()) {
                    assert(a[i as int] matches JsonV::Str(s) && comparable_path_v(s) == comparable_path_v(path@));
                    return true;
                }
            },
            None => {},
        }
        i += 1;
    }
    false
}

/// The roots added, in order, to a path array: each one for which no path
/// compares equal yet; with the number added.
pub open spec fn add_paths(a: Seq<JsonV>, roots: Seq<Seq<char>>) -> (Seq<JsonV>, nat)
    decreases roots.len(),
{
    if roots.len() == 0 {
        (a, 0)
    } else {
        let (prev, n) = add_paths(a, roots.drop_last());
        if array_has_path_v(prev, roots.last()) {
            (prev, n)
        } else {
            (prev.push(JsonV::Str(roots.last())), n + 1)
        }
    }
}

/// Position of the first entry for `key`.
pub open spec fn entry_index(es: Seq<(Seq<char>, JsonV)>, key: Seq<char>) -> int
    decreases es.len(),
{
    if es.len() == 0 {
        -1
    } else if es[0].0 == key {
        0
    } else {
        let r = entry_index(es.drop_first(), key);
        if r < 0 {
            -1
        } else {
            r + 1
        }
    }
}

/// Merges workspace roots into the path array `key` of the desktop state:
/// a missing array is created, a non-array member is replaced by all the
/// roots, and an array gets the roots it lacks. The state is unchanged when
/// it is not an object. The number is how many paths were added.
pub open spec fn merge_state_v(state: JsonV, key: Seq<char>, roots: Seq<Seq<char>>) -> (JsonV, nat) {
    match state {
        JsonV::Object(es) => {
            let i = entry_index(es, key);
            if i < 0 {
                let (a, n) = add_paths(Seq::empty(), roots);
                (JsonV::Object(es.push((key, JsonV::Array(a)))), n)
            } else {
                match es[i].1 {
                    JsonV::Array(a) => {
                        let (a2, n) = add_paths(a, roots);
                        (JsonV::Object(es.update(i, (key, JsonV::Array(a2)))), n)
                    },
                    _ => (
                        JsonV::Object(es.update(i, (key, JsonV::Array(roots.map_values(|r: Seq<char>| JsonV::Str(r)))))),
                        roots.len(),
                    ),
                }
            }
        },
        _ => (state, 0),
    }
}

pub proof fn lemma_entry_index(es: Seq<(Seq<char>, JsonV)>, key: Seq<char>)
    ensures
        -1 <= entry_index(es, key) < es.len(),
        entry_index(es, key) >= 0 ==> es[entry_index(es, key)].0 == key,
        forall|j: int| 0 <= j < es.len() && (entry_index(es, key) < 0 || j < entry_index(es, key)) ==> #[trigger] es[j].0 != key,
    decreases es.len(),
{
    if es.len() > 0 && es[0].0 != key {
        lemma_entry_index(es.drop_first(), key);
        assert forall|j: int| 0 <= j < es.len() && (entry_index(es, key) < 0 || j < entry_index(es, key)) implies #[trigger] es[j].0 != key by {
            if j > 0 {
                assert(es.drop_first()[j - 1] == es[j]);
            }
        }
    }
}

/// `entry_index` finds the first entry for the key.
proof fn lemma_entry_index_at(es: Seq<(Seq<char>, JsonV)>, key: Seq<char>, m: int)
    requires
        0 <= m < es.len(),
        es[m].0 == key,
        forall|j: int| 0 <= j < m ==> #[trigger] es[j].0 != key,
    ensures
        entry_index(es, key) == m,
    decreases es.len(),
{
    if m > 0 {
        assert(es[0].0 != key);
        assert forall|j: int| 0 <= j < m - 1 implies #[trigger] es.drop_first()[j].0 != key by {
            assert(es.drop_first()[j] == es[j + 1]);
        }
        lemma_entry_index_at(es.drop_first(), key, m - 1);
    }
}

/// After `add_paths`, every root has a path that compares equal to it, and
/// every path the array had is still there.
proof fn lemma_add_paths_covers(a: Seq<JsonV>, roots: Seq<Seq<char>>)
    ensures
        forall|k: int| 0 <= k < roots.len() ==> array_has_path_v(add_paths(a, roots).0, #[trigger] roots[k]),
        forall|p: Seq<char>| array_has_path_v(a, p) ==> array_has_path_v(add_paths(a, roots).0, p),
    decreases roots.len(),
{
    if roots.len() > 0 {
        let d = roots.drop_last();
        lemma_add_paths_covers(a, d);
        let prev = add_paths(a, d).0;
        let r = roots.last();
        let b = add_paths(a, roots).0;
        if !array_has_path_v(prev, r) {
            assert(b == prev.push(JsonV::Str(r)));
            assert(b[prev.len() as int] == JsonV::Str(r));
            assert(array_has_path_v(b, r));
            assert forall|p: Seq<char>| array_has_path_v(prev, p) implies array_has_path_v(b, p) by {
                let j = choose|j: int| 0 <= j < prev.len() && (#[trigger] prev[j] matches JsonV::Str(s) && comparable_path_v(s) == comparable_path_v(p));
                assert(b[j] == prev[j]);
            }
        }
        assert forall|k: int| 0 <= k < roots.len() implies array_has_path_v(b, #[trigger] roots[k]) by {
            if k < roots.len() - 1 {
                assert(roots[k] == d[k]);
                assert(array_has_path_v(prev, d[k]));
            }
        }
    }
}

/// `add_paths` adds nothing when every root has a path already.
proof fn lemma_add_paths_noop(b: Seq<JsonV>, roots: Seq<Seq<char>>)
    requires
        forall|k: int| 0 <= k < roots.len() ==> array_has_path_v(b, #[trigger] roots[k]),
    ensures
        add_paths(b, roots) == (b, 0nat),
    decreases roots.len(),
{
    if roots.len() > 0 {
        let d = roots.drop_last();
        assert forall|k: int| 0 <= k < d.len() implies array_has_path_v(b, #[trigger] d[k]) by {
            assert(d[k] == roots[k]);
        }
        lemma_add_paths_noop(b, d);
        assert(array_has_path_v(b, roots[roots.len() - 1]));
    }
}

/// Merging the same workspace roots a second time adds nothing and leaves
/// the desktop state as the first merge left it.
pub proof fn law_merge_state_idempotent(state: JsonV, key: Seq<char>, roots: Seq<Seq<char>>)
    ensures
        merge_state_v(merge_state_v(state, key, roots).0, key, roots) == (merge_state_v(state, key, roots).0, 0nat),
{
    match state {
        JsonV::Object(es) => {
            lemma_entry_index(es, key);
            let i = entry_index(es, key);
            let (s1, _) = merge_state_v(state, key, roots);
            let es1 = s1->Object_0;
            if i < 0 {
                let a = add_paths(Seq::empty(), roots).0;
                assert(es1 == es.push((key, JsonV::Array(a))));
                lemma_entry_index_at(es1, key, es.len() as int);
                lemma_add_paths_covers(Seq::empty(), roots);
                lemma_add_paths_noop(a, roots);
                assert(es1.update(es.len() as int, (key, JsonV::Array(a))) =~= es1);
            } else {
                let a2 = match es[i].1 {
                    JsonV::Array(a0) => {
                        lemma_add_paths_covers(a0, roots);
                        add_paths(a0, roots).0
                    },
                    _ => {
                        let rs = roots.map_values(|r: Seq<char>| JsonV::Str(r));
                        assert forall|k: int| 0 <= k < roots.len() implies array_has_path_v(rs, #[trigger] roots[k]) by {
                            assert(rs[k] == JsonV::Str(roots[k]));
                        }
                        rs
                    },
                };
                assert(es1 == es.update(i, (key, JsonV::Array(a2))));
                lemma_entry_index_at(es1, key, i);
                lemma_add_paths_noop(a2, roots);
                assert(es1.update(i, (key, JsonV::Array(a2))) =~= es1);
            }
        },
        _ => {},
    }
}

fn add_paths_exec(array: &mut Vec<Json>, roots: &Vec<String>) -> (n: usize)
    requires
        roots@.len() < usize::MAX,
    ensures
        (values_model(final(array)@), n as nat) == add_paths(values_model(old(array)@), strings_view(roots@)),
{
    let ghost a0 = values_model(array@);
    let ghost rv = strings_view(roots@);
    let mut n: usize = 0;
    let mut i: usize = 0;
    proof {
        assert(rv.take(0) =~= Seq::<Seq<char>>::empty());
    }
    while i < roots.len()
        invariant
            i <= roots@.len(),
            roots@.len() < usize::MAX,
            rv == strings_view(roots@),
            n <= i,
            (values_model(array@), n as nat) == add_paths(a0, rv.take(i as int)),
        decreases roots.len() - i,
    {
        proof {
            assert(rv.take(i + 1).drop_last() =~= rv.take(i as int));
            assert(rv.take(i + 1).last() == rv[i as int]);
        }
        if !array_has_path(array, roots[i].as_str()) {
            crate::json::push_value(array, Json::string_from(roots[i].clone()));
            n += 1;
        }
        i += 1;
    }
    proof {
        assert(rv.take(roots@.len() as int) =~= rv);
    }
    n
}

/// Merges workspace roots into the desktop state; see `merge_state_v`.
pub fn merge_state_path_array(state: &mut Json, key: &str, roots: &Vec<String>) -> (n: usize)
    requires
        roots@.len() < usize::MAX,
    ensures
        (jv(*final(state)), n as nat) == merge_state_v(jv(*old(state)), key@, strings_view(roots@)),
{
    let mut taken = Json::Null;
    std::mem::swap(&mut taken, state);
    let mut es = match taken {
        Json::Object(es) => es,
        other => {
            *state = other;
            return 0;
        },
    };
    let ghost em = crate::json::entries_model(es@);
    proof {
        crate::json::lemma_jv_entries(es@);
        assert(crate::json::jv_entries(es@) =~= em);
        assert(jv(*old(state)) == JsonV::Object(em));
    }
    let mut i: usize = 0;
    let k = owned(key);
    while i < es.len() && !crate::text::str_eq(es[i].0.as_str(), key)
        invariant
            i <= es@.len(),
            em == crate::json::entries_model(es@),
            forall|j: int| 0 <= j < i ==> #[trigger] em[j].0 != key@,
        decreases es.len() - i,
    {
        i += 1;
    }
    proof {
        lemma_entry_index(em, key@);
    }
    if i == es.len() {
        proof {
            assert(entry_index(em, key@) < 0);
        }
        let mut a: Vec<Json> = Vec::new();
        proof {
            assert(values_model(a@) =~= Seq::<JsonV>::empty());
        }
        let n = add_paths_exec(&mut a, roots);
        crate::json::push_entry(&mut es, key, crate::json::arr(a));
        *state = crate::json::obj(es);
        return n;
    }
    proof {
        assert(em[i as int].0 == key@);
        assert(entry_index(em, key@) == i);
    }
    let ghost evm = em[i as int].1;
    let (ek, ev) = es.remove(i);
    proof {
        assert(ek@ == key@);
        assert(jv(ev) == evm);
    }
    match ev {
        Json::Array(mut a) => {
            proof {
                crate::json::lemma_jv_seq(a@);
                assert(crate::json::jv_seq(a@) =~= values_model(a@));
            }
            let n = add_paths_exec(&mut a, roots);
            let ghost am = values_model(a@);
            es.insert(i, (ek, Json::Array(a)));
            proof {
                crate::json::lemma_jv_seq(a@);
                assert(crate::json::jv_seq(a@) =~= am);
                assert(crate::json::entries_model(es@) =~= em.update(i as int, (key@, JsonV::Array(am))));
            }
            *state = crate::json::obj(es);
            n
        },
        _ => {
            let mut a: Vec<Json> = Vec::new();
            let mut j: usize = 0;
            let ghost rv = strings_view(roots@);
            while j < roots.len()
                invariant
                    j <= roots@.len(),
                    rv == strings_view(roots@),
                    values_model(a@) == rv.take(j as int).map_values(|r: Seq<char>| JsonV::Str(r)),
                decreases roots.len() - j,
            {
                crate::json::push_value(&mut a, Json::string_from(roots[j].clone()));
                proof {
                    assert(rv.take(j + 1).map_values(|r: Seq<char>| JsonV::Str(r)) =~= rv.take(j as int).map_values(|r: Seq<char>| JsonV::Str(r)).push(JsonV::Str(rv[j as int])));
                }
                j += 1;
            }
            proof {
                assert(rv.take(roots@.len() as int) =~= rv);
            }
            let ghost am = values_model(a@);
            es.insert(i, (ek, crate::json::arr(a)));
            proof {
                assert(crate::json::entries_model(es@) =~= em.update(i as int, (key@, JsonV::Array(am))));
            }
            *state = crate::json::obj(es);
            roots.len()
        },
    }
}

/// The sessions of one provider, in the session files and in the state
/// database, with totals.
#[derive(Debug)]
pub struct ProviderHistorySummary {
    pub provider: String,
    pub is_current: bool,
    pub rollout_sessions: usize,
    pub rollout_archived_sessions: usize,
    pub sqlite_sessions: usize,
    pub sqlite_archived_sessions: usize,
    pub total_rollout: usize,
    pub total_sqlite: usize,
    pub total: usize,
}

/// The model of `ProviderHistorySummary`.
pub struct SummaryV {
    pub provider: Seq<char>,
    pub is_current: bool,
    pub rollout_sessions: nat,
    pub rollout_archived_sessions: nat,
    pub sqlite_sessions: nat,
    pub sqlite_archived_sessions: nat,
    pub total_rollout: nat,
    pub total_sqlite: nat,
    pub total: nat,
}

impl ProviderHistorySummary {
    pub open spec fn view(&self) -> SummaryV {
        SummaryV {
            provider: self.provider@,
            is_current: self.is_current,
            rollout_sessions: self.rollout_sessions as nat,
            rollout_archived_sessions: self.rollout_archived_sessions as nat,
            sqlite_sessions: self.sqlite_sessions as nat,
            sqlite_archived_sessions: self.sqlite_archived_sessions as nat,
            total_rollout: self.total_rollout as nat,
            total_sqlite: self.total_sqlite as nat,
            total: self.total as nat,
        }
    }
}

/// The summary of a provider from the counts.
pub open spec fn summary_for(p: Seq<char>, rollout: ScopeCounts, sqlite: Option<ScopeCounts>, current: Seq<char>) -> SummaryV {
    let rs = count_of(rollout.sessions_v(), p);
    let ra = count_of(rollout.archived_v(), p);
    let ss = match sqlite {
        Some(c) => count_of(c.sessions_v(), p),
        None => 0,
    };
    let sa = match sqlite {
        Some(c) => count_of(c.archived_v(), p),
        None => 0,
    };
    SummaryV {
        provider: p,
        is_current: p == current,
        rollout_sessions: rs,
        rollout_archived_sessions: ra,
        sqlite_sessions: ss,
        sqlite_archived_sessions: sa,
        total_rollout: rs + ra,
        total_sqlite: ss + sa,
        total: rs + ra + ss + sa,
    }
}

/// The order of the summaries: the current provider first, then larger
/// totals, then providers in text order.
pub open spec fn summary_before(a: SummaryV, b: SummaryV) -> bool {
    (a.is_current && !b.is_current) || (a.is_current == b.is_current && (a.total > b.total || (a.total
        == b.total && str_lt(a.provider, b.provider))))
}

pub proof fn lemma_summary_order(a: SummaryV, b: SummaryV, c: SummaryV)
    ensures
        !summary_before(a, a),
        a.provider != b.provider ==> summary_before(a, b) || summary_before(b, a),
        !(summary_before(a, b) && summary_before(b, a)),
        summary_before(a, b) && summary_before(b, c) ==> summary_before(a, c),
{
    lemma_str_lt_irrefl(a.provider);
    lemma_str_lt_total(a.provider, b.provider);
    if str_lt(a.provider, b.provider) && str_lt(b.provider, c.provider) {
        lemma_str_lt_trans(a.provider, b.provider, c.provider);
    }
}

pub open spec fn has_key(b: Seq<(Seq<char>, usize)>, p: Seq<char>) -> bool {
    exists|j: int| 0 <= j < b.len() && #[trigger] b[j].0 == p
}

/// The providers that get a summary: the configured ones and every
/// provider with a count.
pub open spec fn summary_provider(p: Seq<char>, configured: Seq<Seq<char>>, rollout: ScopeCounts, sqlite: Option<ScopeCounts>) -> bool {
    ||| configured.contains(p)
    ||| has_key(rollout.sessions_v(), p)
    ||| has_key(rollout.archived_v(), p)
    ||| (sqlite matches Some(c) && (has_key(c.sessions_v(), p) || has_key(c.archived_v(), p)))
}

/// The four counts of `p` added up.
pub open spec fn summary_total(p: Seq<char>, rollout: ScopeCounts, sqlite: Option<ScopeCounts>) -> nat {
    summary_for(p, rollout, sqlite, Seq::empty()).total
}

/// Every provider's four counts add up within `usize`, so its totals fit.
pub open spec fn counts_fit(rollout: ScopeCounts, sqlite: Option<ScopeCounts>) -> bool {
    forall|p: Seq<char>| #[trigger] summary_total(p, rollout, sqlite) <= usize::MAX
}

/// A provider without an entry has no count.
proof fn lemma_count_absent(b: Seq<(Seq<char>, usize)>, p: Seq<char>)
    requires
        forall|j: int| 0 <= j < b.len() ==> (#[trigger] b[j]).0 != p,
    ensures
        count_of(b, p) == 0,
    decreases b.len(),
{
    if b.len() > 0 {
        let d = b.drop_last();
        assert forall|j: int| 0 <= j < d.len() implies (#[trigger] d[j]).0 != p by {
            assert(d[j] == b[j]);
        }
        lemma_count_absent(d, p);
        assert(b[b.len() - 1] == b.last());
    }
}

/// The four counts of `p` added up, or `None` when they do not fit `usize`.
fn checked_summary_total(p: &str, rollout: &ScopeCounts, sqlite: &Option<ScopeCounts>) -> (r: Option<usize>)
    ensures
        match r {
            Some(t) => t == summary_total(p@, *rollout, *sqlite),
            None => summary_total(p@, *rollout, *sqlite) > usize::MAX,
        },
{
    let rs = count_get(&rollout.sessions, p);
    let ra = count_get(&rollout.archived_sessions, p);
    let (ss, sa) = match sqlite {
        Some(c) => (count_get(&c.sessions, p), count_get(&c.archived_sessions, p)),
        None => (0, 0),
    };
    match rs.checked_add(ra) {
        Some(x) => match x.checked_add(ss) {
            Some(y) => y.checked_add(sa),
            None => None,
        },
        None => None,
    }
}

/// Whether the four counts of every key of `bucket` add up within `usize`.
fn bucket_keys_fit(bucket: &Vec<(String, usize)>, rollout: &ScopeCounts, sqlite: &Option<ScopeCounts>) -> (r: bool)
    ensures
        r == forall|j: int| 0 <= j < bucket@.len() ==> summary_total((#[trigger] bucket@[j]).0@, *rollout, *sqlite) <= usize::MAX,
{
    let mut j: usize = 0;
    while j < bucket.len()
        invariant
            j <= bucket@.len(),
            forall|x: int| 0 <= x < j ==> summary_total((#[trigger] bucket@[x]).0@, *rollout, *sqlite) <= usize::MAX,
        decreases bucket.len() - j,
    {
        if checked_summary_total(bucket[j].0.as_str(), rollout, sqlite).is_none() {
            return false;
        }
        j += 1;
    }
    true
}

/// Whether every provider's totals can be counted: the test that the
/// summaries ask of their callers.
pub fn history_counts_fit(rollout: &ScopeCounts, sqlite: &Option<ScopeCounts>) -> (r: bool)
    ensures
        r == counts_fit(*rollout, *sqlite),
{
    let mut ok = bucket_keys_fit(&rollout.sessions, rollout, sqlite) && bucket_keys_fit(
        &rollout.archived_sessions,
        rollout,
        sqlite,
    );
    match sqlite {
        Some(c) => {
            ok = ok && bucket_keys_fit(&c.sessions, rollout, sqlite) && bucket_keys_fit(&c.archived_sessions, rollout, sqlite);
        },
        None => {},
    }
    proof {
        if ok {
            assert forall|p: Seq<char>| #[trigger] summary_total(p, *rollout, *sqlite) <= usize::MAX by {
                lemma_total_from_keys(p, rollout.sessions@, *rollout, *sqlite);
                lemma_total_from_keys(p, rollout.archived_sessions@, *rollout, *sqlite);
                match sqlite {
                    Some(c) => {
                        lemma_total_from_keys(p, c.sessions@, *rollout, *sqlite);
                        lemma_total_from_keys(p, c.archived_sessions@, *rollout, *sqlite);
                    },
                    None => {},
                }
            }
        } else {
            assert(!counts_fit(*rollout, *sqlite));
        }
    }
    ok
}

/// A provider with an entry in `bucket` is one of its keys; one without has
/// no count in it.
proof fn lemma_total_from_keys(p: Seq<char>, bucket: Seq<(String, usize)>, rollout: ScopeCounts, sqlite: Option<ScopeCounts>)
    ensures
        (exists|j: int| 0 <= j < bucket.len() && (#[trigger] bucket[j]).0@ == p) || count_of(bucket_view(bucket), p) == 0,
{
    if !(exists|j: int| 0 <= j < bucket.len() && (#[trigger] bucket[j]).0@ == p) {
        let b = bucket_view(bucket);
        assert forall|j: int| 0 <= j < b.len() implies (#[trigger] b[j]).0 != p by {
            assert(b[j].0 == bucket[j].0@);
        }
        lemma_count_absent(b, p);
    }
}

/// The count for `provider`, 0 when it has none.
pub fn count_get(bucket: &Vec<(String, usize)>, provider: &str) -> (r: usize)
    ensures
        r == count_of(bucket_view(bucket@), provider@),
{
    let ghost b = bucket_view(bucket@);
    let mut i: usize = bucket.len();
    proof {
        assert(b.take(b.len() as int) =~= b);
    }
    while i > 0
        invariant
            i <= bucket@.len(),
            b == bucket_view(bucket@),
            count_of(b, provider@) == count_of(b.take(i as int), provider@),
        decreases i,
    {
        proof {
            assert(b.take(i as int).drop_last() =~= b.take(i - 1));
            assert(b.take(i as int).last() == b[i - 1]);
        }
        if crate::text::str_eq(bucket[i - 1].0.as_str(), provider) {
            return bucket[i - 1].1;
        }
        i -= 1;
    }
    0
}

fn summary_of(p: &String, rollout: &ScopeCounts, sqlite: &Option<ScopeCounts>, current: &str) -> (r: ProviderHistorySummary)
    requires
        counts_fit(*rollout, *sqlite),
    ensures
        r@ == summary_for(p@, *rollout, *sqlite, current@),
{
    let rs = count_get(&rollout.sessions, p.as_str());
    let ra = count_get(&rollout.archived_sessions, p.as_str());
    let (ss, sa) = match sqlite {
        Some(c) => (count_get(&c.sessions, p.as_str()), count_get(&c.archived_sessions, p.as_str())),
        None => (0, 0),
    };
    proof {
        assert(summary_total(p@, *rollout, *sqlite) <= usize::MAX);
    }
    ProviderHistorySummary {
        provider: p.clone(),
        is_current: crate::text::str_eq(p.as_str(), current),
        rollout_sessions: rs,
        rollout_archived_sessions: ra,
        sqlite_sessions: ss,
        sqlite_archived_sessions: sa,
        total_rollout: rs + ra,
        total_sqlite: ss + sa,
        total: rs + ra + ss + sa,
    }
}

/// The keys of a count list.
pub open spec fn keys_of(b: Seq<(Seq<char>, usize)>) -> Seq<Seq<char>> {
    b.map_values(|e: (Seq<char>, usize)| e.0)
}

/// Every text of `l` once, in order of first appearance.
pub open spec fn unique_fold(l: Seq<Seq<char>>) -> Seq<Seq<char>>
    decreases l.len(),
{
    if l.len() == 0 {
        Seq::empty()
    } else {
        push_unique_v(unique_fold(l.drop_last()), l.last())
    }
}

/// No text occurs twice.
pub open spec fn no_dups(s: Seq<Seq<char>>) -> bool {
    forall|i: int, j: int| 0 <= i < j < s.len() ==> #[trigger] s[i] != #[trigger] s[j]
}

pub proof fn lemma_push_unique(s: Seq<Seq<char>>, p: Seq<char>)
    ensures
        forall|q: Seq<char>| push_unique_v(s, p).contains(q) <==> (s.contains(q) || q == p),
        no_dups(s) ==> no_dups(push_unique_v(s, p)),
{
    if !s.contains(p) {
        let t = s.push(p);
        assert forall|q: Seq<char>| t.contains(q) <==> (s.contains(q) || q == p) by {
            if t.contains(q) {
                let j = choose|j: int| 0 <= j < t.len() && t[j] == q;
                if j < s.len() {
                    assert(s[j] == q);
                }
            }
            if s.contains(q) {
                let j = choose|j: int| 0 <= j < s.len() && s[j] == q;
                assert(t[j] == q);
            }
            if q == p {
                assert(t[s.len() as int] == q);
            }
        }
        if no_dups(s) {
            assert forall|i: int, j: int| 0 <= i < j < t.len() implies #[trigger] t[i] != #[trigger] t[j] by {
                if j == s.len() {
                    assert(t[i] == s[i]);
                }
            }
        }
    }
}

pub proof fn lemma_unique_fold(l: Seq<Seq<char>>)
    ensures
        no_dups(unique_fold(l)),
        forall|q: Seq<char>| unique_fold(l).contains(q) <==> l.contains(q),
    decreases l.len(),
{
    if l.len() > 0 {
        let d = l.drop_last();
        lemma_unique_fold(d);
        lemma_push_unique(unique_fold(d), l.last());
        assert forall|q: Seq<char>| unique_fold(l).contains(q) <==> l.contains(q) by {
            if l.contains(q) {
                let j = choose|j: int| 0 <= j < l.len() && l[j] == q;
                if j < l.len() - 1 {
                    assert(d[j] == q);
                }
            }
            if d.contains(q) {
                let j = choose|j: int| 0 <= j < d.len() && d[j] == q;
                assert(l[j] == q);
            }
        }
    }
}

pub proof fn lemma_contains_concat(a: Seq<Seq<char>>, b: Seq<Seq<char>>)
    ensures
        forall|q: Seq<char>| (a + b).contains(q) <==> (a.contains(q) || b.contains(q)),
{
    assert forall|q: Seq<char>| (a + b).contains(q) <==> (a.contains(q) || b.contains(q)) by {
        if (a + b).contains(q) {
            let j = choose|j: int| 0 <= j < (a + b).len() && (a + b)[j] == q;
            if j < a.len() {
                assert(a[j] == q);
            } else {
                assert(b[j - a.len()] == q);
            }
        }
        if a.contains(q) {
            let j = choose|j: int| 0 <= j < a.len() && a[j] == q;
            assert((a + b)[j] == q);
        }
        if b.contains(q) {
            let j = choose|j: int| 0 <= j < b.len() && b[j] == q;
            assert((a + b)[a.len() + j] == q);
        }
    }
}

proof fn lemma_keys_of(b: Seq<(Seq<char>, usize)>)
    ensures
        forall|q: Seq<char>| keys_of(b).contains(q) <==> has_key(b, q),
{
    assert forall|q: Seq<char>| keys_of(b).contains(q) <==> has_key(b, q) by {
        if keys_of(b).contains(q) {
            let j = choose|j: int| 0 <= j < keys_of(b).len() && keys_of(b)[j] == q;
            assert(b[j].0 == q);
        }
        if has_key(b, q) {
            let j = choose|j: int| 0 <= j < b.len() && b[j].0 == q;
            assert(keys_of(b)[j] == q);
        }
    }
}

/// Every provider named in the configuration or the counts, each once.
pub open spec fn provider_list(configured: Seq<Seq<char>>, rollout: ScopeCounts, sqlite: Option<ScopeCounts>) -> Seq<Seq<char>> {
    configured + keys_of(rollout.sessions_v()) + keys_of(rollout.archived_v()) + match sqlite {
        Some(c) => keys_of(c.sessions_v()) + keys_of(c.archived_v()),
        None => Seq::empty(),
    }
}

proof fn lemma_provider_list(configured: Seq<Seq<char>>, rollout: ScopeCounts, sqlite: Option<ScopeCounts>)
    ensures
        forall|q: Seq<char>| provider_list(configured, rollout, sqlite).contains(q) <==> summary_provider(q, configured, rollout, sqlite),
{
    let a = keys_of(rollout.sessions_v());
    let b = keys_of(rollout.archived_v());
    lemma_keys_of(rollout.sessions_v());
    lemma_keys_of(rollout.archived_v());
    lemma_contains_concat(configured, a);
    lemma_contains_concat(configured + a, b);
    match sqlite {
        Some(c) => {
            let x = keys_of(c.sessions_v());
            let y = keys_of(c.archived_v());
            lemma_keys_of(c.sessions_v());
            lemma_keys_of(c.archived_v());
            lemma_contains_concat(x, y);
            lemma_contains_concat(configured + a + b, x + y);
        },
        None => {
            lemma_contains_concat(configured + a + b, Seq::<Seq<char>>::empty());
        },
    }
}

fn append_keys(out: &mut Vec<String>, bucket: &Vec<(String, usize)>)
    ensures
        strings_view(final(out)@) == strings_view(old(out)@) + keys_of(bucket_view(bucket@)),
{
    let ghost start = strings_view(out@);
    let ghost kv = keys_of(bucket_view(bucket@));
    let mut i: usize = 0;
    proof {
        assert(start + kv.take(0) =~= start);
    }
    while i < bucket.len()
        invariant
            i <= bucket@.len(),
            kv == keys_of(bucket_view(bucket@)),
            strings_view(out@) == start + kv.take(i as int),
        decreases bucket.len() - i,
    {
        let ghost before = strings_view(out@);
        out.push(bucket[i].0.clone());
        proof {
            assert(kv[i as int] == bucket@[i as int].0@);
            assert(strings_view(out@) =~= before.push(kv[i as int]));
            assert(strings_view(out@) =~= start + kv.take(i + 1));
        }
        i += 1;
    }
    proof {
        assert(kv.take(bucket@.len() as int) =~= kv);
    }
}

/// The summaries' models.
pub open spec fn summaries_v(v: Seq<ProviderHistorySummary>) -> Seq<SummaryV> {
    v.map_values(|s: ProviderHistorySummary| s@)
}

/// The summaries are in `summary_before` order.
pub open spec fn sorted_summaries(v: Seq<SummaryV>) -> bool {
    forall|i: int, j: int| 0 <= i < j < v.len() ==> summary_before(#[trigger] v[i], #[trigger] v[j])
}

pub open spec fn providers_of(v: Seq<SummaryV>) -> Seq<Seq<char>> {
    v.map_values(|s: SummaryV| s.provider)
}

proof fn lemma_insert_summary(v: Seq<SummaryV>, j: int, x: SummaryV)
    requires
        sorted_summaries(v),
        0 <= j <= v.len(),
        forall|y: int| 0 <= y < j ==> !summary_before(x, #[trigger] v[y]),
        j == v.len() || summary_before(x, v[j]),
        !providers_of(v).contains(x.provider),
    ensures
        sorted_summaries(v.insert(j, x)),
        forall|q: Seq<char>| providers_of(v.insert(j, x)).contains(q) <==> (providers_of(v).contains(q) || q == x.provider),
{
    let w = v.insert(j, x);
    assert forall|a: int, b: int| 0 <= a < b < w.len() implies summary_before(#[trigger] w[a], #[trigger] w[b]) by {
        if b < j {
        } else if a > j {
            assert(w[a] == v[a - 1] && w[b] == v[b - 1]);
        } else if a == j {
            assert(w[b] == v[b - 1]);
            if b - 1 > j {
                lemma_summary_order(x, v[j], v[b - 1]);
            }
        } else {
            if b == j {
                assert(providers_of(v)[a] == v[a].provider);
                lemma_summary_order(v[a], x, x);
            } else {
                assert(w[b] == v[b - 1]);
            }
        }
    }
    let pw = providers_of(w);
    let pv = providers_of(v);
    assert(pw =~= pv.insert(j, x.provider));
    assert forall|q: Seq<char>| pw.contains(q) <==> (pv.contains(q) || q == x.provider) by {
        if pw.contains(q) {
            let k = choose|k: int| 0 <= k < pw.len() && pw[k] == q;
            if k < j {
                assert(pv[k] == q);
            } else if k > j {
                assert(pv[k - 1] == q);
            }
        }
        if pv.contains(q) {
            let k = choose|k: int| 0 <= k < pv.len() && pv[k] == q;
            if k < j {
                assert(pw[k] == q);
            } else {
                assert(pw[k + 1] == q);
            }
        }
        if q == x.provider {
            assert(pw[j] == q);
        }
    }
}

/// The summaries of every provider, in `summary_before` order.
pub fn build_provider_summaries(
    rollout_counts: &ScopeCounts,
    sqlite_counts: &Option<ScopeCounts>,
    current_provider: &str,
    configured_providers: &Vec<String>,
) -> (r: Vec<ProviderHistorySummary>)
    requires
        counts_fit(*rollout_counts, *sqlite_counts),
    ensures
        sorted_summaries(summaries_v(r@)),
        forall|i: int| 0 <= i < r@.len() ==> summary_provider((#[trigger] r@[i]).provider@, strings_view(configured_providers@), *rollout_counts, *sqlite_counts)
            && r@[i]@ == summary_for(r@[i].provider@, *rollout_counts, *sqlite_counts, current_provider@),
        forall|p: Seq<char>| summary_provider(p, strings_view(configured_providers@), *rollout_counts, *sqlite_counts)
            ==> providers_of(summaries_v(r@)).contains(p),
{
    let ghost cv = strings_view(configured_providers@);
    let mut all: Vec<String> = Vec::new();
    let mut i: usize = 0;
    proof {
        assert(strings_view(all@) =~= cv.take(0));
    }
    while i < configured_providers.len()
        invariant
            i <= configured_providers@.len(),
            cv == strings_view(configured_providers@),
            strings_view(all@) == cv.take(i as int),
        decreases configured_providers.len() - i,
    {
        let ghost before = strings_view(all@);
        all.push(configured_providers[i].clone());
        proof {
            assert(cv[i as int] == configured_providers@[i as int]@);
            assert(strings_view(all@) =~= before.push(cv[i as int]));
            assert(strings_view(all@) =~= cv.take(i + 1));
        }
        i += 1;
    }
    proof {
        assert(cv.take(cv.len() as int) =~= cv);
    }
    append_keys(&mut all, &rollout_counts.sessions);
    append_keys(&mut all, &rollout_counts.archived_sessions);
    match sqlite_counts {
        Some(c) => {
            append_keys(&mut all, &c.sessions);
            append_keys(&mut all, &c.archived_sessions);
        },
        None => {},
    }
    let ghost lv = strings_view(all@);
    proof {
        let l = provider_list(cv, *rollout_counts, *sqlite_counts);
        match sqlite_counts {
            Some(c) => {
                assert(lv =~= l);
            },
            None => {
                assert(lv =~= l);
            },
        }
    }
    let mut providers: Vec<String> = Vec::new();
    let mut m: usize = 0;
    proof {
        assert(lv.take(0) =~= Seq::<Seq<char>>::empty());
        assert(strings_view(providers@) =~= unique_fold(lv.take(0)));
    }
    while m < all.len()
        invariant
            m <= all@.len(),
            lv == strings_view(all@),
            strings_view(providers@) == unique_fold(lv.take(m as int)),
        decreases all.len() - m,
    {
        proof {
            assert(lv.take(m + 1).drop_last() =~= lv.take(m as int));
        }
        push_unique_provider(&mut providers, all[m].clone());
        m += 1;
    }
    let ghost pv = strings_view(providers@);
    proof {
        assert(lv.take(all@.len() as int) =~= lv);
        lemma_unique_fold(lv);
        lemma_provider_list(cv, *rollout_counts, *sqlite_counts);
        assert(pv.take(0) =~= Seq::<Seq<char>>::empty());
    }
    let mut out: Vec<ProviderHistorySummary> = Vec::new();
    let mut k: usize = 0;
    while k < providers.len()
        invariant
            k <= providers@.len(),
            pv == strings_view(providers@),
            no_dups(pv),
            counts_fit(*rollout_counts, *sqlite_counts),
            sorted_summaries(summaries_v(out@)),
            forall|q: Seq<char>| providers_of(summaries_v(out@)).contains(q) <==> pv.take(k as int).contains(q),
            forall|x: int| 0 <= x < out@.len() ==> (#[trigger] out@[x])@ == summary_for(out@[x].provider@, *rollout_counts, *sqlite_counts, current_provider@),
        decreases providers.len() - k,
    {
        let item = summary_of(&providers[k], rollout_counts, sqlite_counts, current_provider);
        let ghost iv = item@;
        let mut j: usize = 0;
        while j < out.len() && !before_exec(&item, &out[j])
            invariant
                j <= out@.len(),
                forall|x: int| 0 <= x < j ==> !summary_before(iv, #[trigger] summaries_v(out@)[x]),
                item@ == iv,
            decreases out.len() - j,
        {
            proof {
                assert(summaries_v(out@)[j as int] == out@[j as int]@);
            }
            j += 1;
        }
        let ghost old_out = out@;
        proof {
            if j < old_out.len() {
                assert(summaries_v(old_out)[j as int] == old_out[j as int]@);
            }
            if providers_of(summaries_v(old_out)).contains(iv.provider) {
                let s0 = pv.take(k as int);
                assert(s0.contains(pv[k as int]));
                let y = choose|y: int| 0 <= y < s0.len() && s0[y] == pv[k as int];
                assert(pv[y] == pv[k as int]);
            }
            lemma_insert_summary(summaries_v(old_out), j as int, iv);
        }
        out.insert(j, item);
        proof {
            assert(summaries_v(out@) =~= summaries_v(old_out).insert(j as int, iv));
            assert(pv.take(k + 1) =~= pv.take(k as int).push(pv[k as int]));
            lemma_push_unique(pv.take(k as int), pv[k as int]);
            assert forall|q: Seq<char>| providers_of(summaries_v(out@)).contains(q) <==> pv.take(k + 1).contains(q) by {
                let s1 = pv.take(k + 1);
                let s0 = pv.take(k as int);
                if s1.contains(q) && q != pv[k as int] {
                    let y = choose|y: int| 0 <= y < s1.len() && s1[y] == q;
                    assert(s0[y] == q);
                }
                if s0.contains(q) {
                    let y = choose|y: int| 0 <= y < s0.len() && s0[y] == q;
                    assert(s1[y] == q);
                }
                if q == pv[k as int] {
                    assert(pv.take(k + 1)[k as int] == q);
                }
            }
            assert forall|x: int| 0 <= x < out@.len() implies (#[trigger] out@[x])@ == summary_for(out@[x].provider@, *rollout_counts, *sqlite_counts, current_provider@) by {
                if x < j {
                    assert(out@[x] == old_out[x]);
                } else if x > j {
                    assert(out@[x] == old_out[x - 1]);
                }
            }
        }
        k += 1;
    }
    proof {
        assert(pv.take(pv.len() as int) =~= pv);
        assert forall|i: int| 0 <= i < out@.len() implies summary_provider((#[trigger] out@[i]).provider@, cv, *rollout_counts, *sqlite_counts) && out@[i]@ == summary_for(out@[i].provider@, *rollout_counts, *sqlite_counts, current_provider@) by {
            assert(providers_of(summaries_v(out@))[i] == out@[i].provider@);
            assert(providers_of(summaries_v(out@)).contains(out@[i].provider@));
        }
    }
    out
}

fn before_exec(a: &ProviderHistorySummary, b: &ProviderHistorySummary) -> (r: bool)
    ensures
        r == summary_before(a@, b@),
{
    (a.is_current && !b.is_current) || (a.is_current == b.is_current && (a.total > b.total || (a.total == b.total
        && str_lt_exec(a.provider.as_str(), b.provider.as_str()))))
}

/// What the history of each provider looks like before a synchronisation.
#[derive(Debug)]
pub struct HistorySyncStatus {
    pub codex_home: String,
    pub current_provider: String,
    pub current_provider_implicit: bool,
    pub rollout_counts: ScopeCounts,
    pub sqlite_counts: Option<ScopeCounts>,
    pub provider_summaries: Vec<ProviderHistorySummary>,
    pub sqlite_error: Option<String>,
    pub backup_root: String,
    pub backup_count: usize,
    pub pending_rollout_files: usize,
    pub pending_sqlite_rows: usize,
    pub encrypted_content_warning: Option<String>,
}

/// The status, given the configuration text and what the scans of the
/// session files and of the state database found.
pub fn history_sync_status_default(
    codex_home: String,
    config_contents: &str,
    rollout_counts: ScopeCounts,
    encrypted_counts: &ScopeCounts,
    pending_rollout_files: usize,
    sqlite_counts: Option<ScopeCounts>,
    sqlite_error: Option<String>,
    pending_sqlite_rows: usize,
    backup_root: String,
    backup_count: usize,
) -> (r: HistorySyncStatus)
    requires
        counts_fit(rollout_counts, sqlite_counts),
    ensures
        r.codex_home@ == codex_home@,
        (r.current_provider@, r.current_provider_implicit) == current_provider_v(text_lines(config_contents@)),
        r.rollout_counts == rollout_counts,
        r.sqlite_counts == sqlite_counts,
        sorted_summaries(summaries_v(r.provider_summaries@)),
        forall|i: int| 0 <= i < r.provider_summaries@.len() ==> summary_provider(
            (#[trigger] r.provider_summaries@[i]).provider@,
            configured_providers_v(text_lines(config_contents@)),
            rollout_counts,
            sqlite_counts,
        ) && r.provider_summaries@[i]@ == summary_for(
            r.provider_summaries@[i].provider@,
            rollout_counts,
            sqlite_counts,
            r.current_provider@,
        ),
        forall|p: Seq<char>| summary_provider(p, configured_providers_v(text_lines(config_contents@)), rollout_counts, sqlite_counts)
            ==> providers_of(summaries_v(r.provider_summaries@)).contains(p),
        crate::local_router::opt_str_view(r.sqlite_error) == crate::local_router::opt_str_view(sqlite_error),
        r.backup_root@ == backup_root@,
        r.backup_count == backup_count,
        r.pending_rollout_files == pending_rollout_files,
        r.pending_sqlite_rows == pending_sqlite_rows,
        crate::local_router::opt_str_view(r.encrypted_content_warning) == encrypted_warning_v(*encrypted_counts, r.current_provider@),
{
    let (current, implicit) = read_current_provider(config_contents);
    let configured = read_configured_providers(config_contents);
    let summaries = build_provider_summaries(&rollout_counts, &sqlite_counts, current.as_str(), &configured);
    let warning = build_encrypted_warning(encrypted_counts, current.as_str());
    HistorySyncStatus {
        codex_home,
        current_provider: current,
        current_provider_implicit: implicit,
        rollout_counts,
        sqlite_counts,
        provider_summaries: summaries,
        sqlite_error,
        backup_root,
        backup_count,
        pending_rollout_files,
        pending_sqlite_rows,
        encrypted_content_warning: warning,
    }
}

/// The first line of a session file is its metadata (`type` is
/// `session_meta`).
pub open spec fn is_session_meta_v(v: JsonV) -> bool {
    crate::json::v_opt_str(crate::json::v_get(v, "type"@)) == Some("session_meta"@)
}

pub fn is_session_meta(value: &Json) -> (r: bool)
    ensures
        r == is_session_meta_v(jv(*value)),
{
    match value.get("type") {
        Some(t) => match t.as_str() {
            Some(s) => crate::text::str_eq(s.as_str(), "session_meta"),
            None => false,
        },
        None => false,
    }
}

/// What a session's metadata says: its provider (`(missing)` when absent),
/// its thread id, and its working directory in desktop form (when not
/// blank).
#[derive(Debug)]
pub struct SessionInfo {
    pub provider: String,
    pub thread_id: Option<String>,
    pub cwd: Option<String>,
}

pub open spec fn session_payload(meta: JsonV) -> Option<Seq<(Seq<char>, JsonV)>> {
    match crate::json::v_get(meta, "payload"@) {
        Some(JsonV::Object(es)) => Some(es),
        _ => None,
    }
}

pub open spec fn session_info_v(payload: JsonV) -> (Seq<char>, Option<Seq<char>>, Option<Seq<char>>) {
    let provider = match crate::json::v_opt_str(crate::json::v_get(payload, "model_provider"@)) {
        Some(p) => p,
        None => "(missing)"@,
    };
    let thread_id = crate::json::v_opt_str(crate::json::v_get(payload, "id"@));
    let cwd = match crate::json::v_opt_str(crate::json::v_get(payload, "cwd"@)) {
        Some(c) => if trim_seq(c).len() == 0 {
            None
        } else {
            Some(desktop_path_v(c))
        },
        None => None,
    };
    (provider, thread_id, cwd)
}

/// What the metadata of a session says; an error when its payload is not an
/// object.
pub fn session_meta_info(meta: &Json) -> (r: Result<SessionInfo, String>)
    ensures
        match r {
            Ok(info) => session_payload(jv(*meta)) is Some && (info.provider@, crate::local_router::opt_str_view(info.thread_id), crate::local_router::opt_str_view(info.cwd))
                == session_info_v(JsonV::Object(session_payload(jv(*meta)).unwrap())),
            Err(e) => session_payload(jv(*meta)) is None && e@ == "Session metadata payload is invalid."@,
        },
{
    let payload = match meta.get("payload") {
        Some(p) => p,
        None => return Err(owned("Session metadata payload is invalid.")),
    };
    if !payload.is_object() {
        return Err(owned("Session metadata payload is invalid."));
    }
    let provider = match payload.get("model_provider") {
        Some(v) => match v.as_str() {
            Some(s) => s.clone(),
            None => owned("(missing)"),
        },
        None => owned("(missing)"),
    };
    let thread_id = match payload.get("id") {
        Some(v) => match v.as_str() {
            Some(s) => Some(s.clone()),
            None => None,
        },
        None => None,
    };
    let cwd = match payload.get("cwd") {
        Some(v) => match v.as_str() {
            Some(s) => if crate::text::is_blank_str(s.as_str()) {
                None
            } else {
                Some(to_desktop_workspace_path(s.as_str()))
            },
            None => None,
        },
        None => None,
    };
    Ok(SessionInfo { provider, thread_id, cwd })
}

} // verus!
