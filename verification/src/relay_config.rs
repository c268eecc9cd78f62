//! Relay settings and the relay provider entry of Codex's `config.toml`.
//!
//! The relay is a `[model_providers.<id>]` table that Codex uses in place of
//! the official endpoint when the root key `model_provider` names it.

use vstd::prelude::*;

use toml_edit::{DocumentMut, Table};

use crate::local_router::opt_str_view;
use crate::text::{
    chars_of, is_white_space, lemma_trim_fixed, lemma_trim_idempotent, ends_with, ends_with_exec, is_blank, is_blank_str, owned, slice_chars, starts_with,
    starts_with_exec, str_eq, string_of, trim_seq, trim_string,
};
use crate::toml_doc::{
    at_path, shows, lemma_at_path_under, lemma_slot_get_set, lemma_slot_get_remove, text_shows, lemma_unique_remove_gone, lemma_unique_set, unique_keys, bool_item, doc_root, doc_root_mut, item_as_str, item_as_table, parsed_toml, slot_get, slot_remove,
    slot_set, str_item, table_clone, table_get, table_is_empty, table_item, table_new, table_remove,
    table_set, toml_doc_slots, toml_new_doc, toml_parse, toml_render, toml_table_slots, value_str,
    value_table, visible_keys, TomlValue,
};

verus! {

/// The provider id used when none is given.
pub const DEFAULT_RELAY_PROVIDER: &'static str = "moapi";

/// The provider id of earlier versions, still recognised as the relay's own.
pub const LEGACY_RELAY_PROVIDER: &'static str = "CodexViewerRelay";

/// What the user configured for the relay, and for the local router in
/// front of it.
#[derive(Debug)]
pub struct RelaySettings {
    pub enabled: bool,
    pub provider_id: String,
    pub base_url: String,
    pub api_key: String,
    pub test_model: Option<String>,
    pub route_mode: String,
    pub local_port: u16,
    pub upstream_model: Option<String>,
    pub upstream_wire_api: String,
}

/// The model of `RelaySettings`.
pub struct RelaySettingsV {
    pub enabled: bool,
    pub provider_id: Seq<char>,
    pub base_url: Seq<char>,
    pub api_key: Seq<char>,
    pub test_model: Option<Seq<char>>,
    pub route_mode: Seq<char>,
    pub local_port: u16,
    pub upstream_model: Option<Seq<char>>,
    pub upstream_wire_api: Seq<char>,
}

impl RelaySettings {
    pub open spec fn view(&self) -> RelaySettingsV {
        RelaySettingsV {
            enabled: self.enabled,
            provider_id: self.provider_id@,
            base_url: self.base_url@,
            api_key: self.api_key@,
            test_model: opt_str_view(self.test_model),
            route_mode: self.route_mode@,
            local_port: self.local_port,
            upstream_model: opt_str_view(self.upstream_model),
            upstream_wire_api: self.upstream_wire_api@,
        }
    }

    /// A copy of the settings.
    pub fn duplicate(&self) -> (r: Self)
        ensures
            r@ == self@,
    {
        RelaySettings {
            enabled: self.enabled,
            provider_id: self.provider_id.clone(),
            base_url: self.base_url.clone(),
            api_key: self.api_key.clone(),
            test_model: clone_opt(&self.test_model),
            route_mode: self.route_mode.clone(),
            local_port: self.local_port,
            upstream_model: clone_opt(&self.upstream_model),
            upstream_wire_api: self.upstream_wire_api.clone(),
        }
    }
}

/// The settings before anything is configured: disabled, default provider,
/// no endpoint; the router is off, would listen on port 15721 and speak
/// Chat Completions upstream.
pub open spec fn default_settings_v() -> RelaySettingsV {
    RelaySettingsV {
        enabled: false,
        provider_id: DEFAULT_RELAY_PROVIDER@,
        base_url: Seq::empty(),
        api_key: Seq::empty(),
        test_model: None,
        route_mode: Seq::empty(),
        local_port: 15721,
        upstream_model: None,
        upstream_wire_api: "chat_completions"@,
    }
}

impl Default for RelaySettings {
    fn default() -> (r: Self)
        ensures
            r@ == default_settings_v(),
    {
        RelaySettings {
            enabled: false,
            provider_id: default_provider_id(),
            base_url: String::new(),
            api_key: String::new(),
            test_model: None,
            route_mode: String::new(),
            local_port: 15721,
            upstream_model: None,
            upstream_wire_api: owned("chat_completions"),
        }
    }
}

pub fn clone_opt(o: &Option<String>) -> (r: Option<String>)
    ensures
        opt_str_view(r) == opt_str_view(*o),
{
    match o {
        Some(s) => Some(s.clone()),
        None => None,
    }
}

/// The relay as Codex's configuration shows it.
#[derive(Debug)]
pub struct RelayStatus {
    pub configured: bool,
    pub route: String,
    pub config_path: String,
    pub provider_id: String,
    pub base_url: Option<String>,
    pub has_base_url: bool,
    pub has_api_key: bool,
    pub masked_api_key: Option<String>,
    pub codex_running: bool,
}

/// The model of `RelayStatus`.
pub struct RelayStatusV {
    pub configured: bool,
    pub route: Seq<char>,
    pub config_path: Seq<char>,
    pub provider_id: Seq<char>,
    pub base_url: Option<Seq<char>>,
    pub has_base_url: bool,
    pub has_api_key: bool,
    pub masked_api_key: Option<Seq<char>>,
    pub codex_running: bool,
}

impl RelayStatus {
    pub open spec fn view(&self) -> RelayStatusV {
        RelayStatusV {
            configured: self.configured,
            route: self.route@,
            config_path: self.config_path@,
            provider_id: self.provider_id@,
            base_url: opt_str_view(self.base_url),
            has_base_url: self.has_base_url,
            has_api_key: self.has_api_key,
            masked_api_key: opt_str_view(self.masked_api_key),
            codex_running: self.codex_running,
        }
    }
}

/// What applying or clearing the relay did.
#[derive(Debug)]
pub struct RelayApplyResult {
    pub config_path: String,
    pub backup_path: Option<String>,
    pub configured: bool,
    pub message: String,
}

/// What restarting the Codex app did.
#[derive(Debug)]
pub struct RestartResult {
    pub killed: bool,
    pub started: bool,
    pub app_path: Option<String>,
    pub message: String,
}

/// Applying the relay, then restarting Codex.
#[derive(Debug)]
pub struct ApplyAndRestartResult {
    pub apply: RelayApplyResult,
    pub restart: RestartResult,
}

/// `DEFAULT_RELAY_PROVIDER` as an owned string.
pub fn default_provider_id() -> (r: String)
    ensures
        r@ == DEFAULT_RELAY_PROVIDER@,
{
    owned(DEFAULT_RELAY_PROVIDER)
}

/// The trimmed provider id, or the default one when it is blank.
pub open spec fn normalized_provider_id(p: Seq<char>) -> Seq<char> {
    if trim_seq(p).len() == 0 {
        DEFAULT_RELAY_PROVIDER@
    } else {
        trim_seq(p)
    }
}

pub fn normalize_provider_id(provider_id: &str) -> (r: String)
    ensures
        r@ == normalized_provider_id(provider_id@),
{
    let t = trim_string(provider_id);
    if t.as_str().is_empty() {
        default_provider_id()
    } else {
        t
    }
}

/// An ASCII letter or digit, `_` or `-`.
pub open spec fn provider_id_char(c: char) -> bool {
    ('a' <= c && c <= 'z') || ('A' <= c && c <= 'Z') || ('0' <= c && c <= '9') || c == '_' || c
        == '-'
}

/// A non-empty id made of ASCII letters, digits, `_` and `-`.
pub open spec fn valid_provider_id(p: Seq<char>) -> bool {
    p.len() > 0 && forall|i: int| 0 <= i < p.len() ==> #[trigger] provider_id_char(p[i])
}

pub fn is_valid_provider_id(provider_id: &str) -> (r: bool)
    ensures
        r == valid_provider_id(provider_id@),
{
    let c = chars_of(provider_id);
    if c.len() == 0 {
        return false;
    }
    let mut i: usize = 0;
    while i < c.len()
        invariant
            c@ == provider_id@,
            i <= c@.len(),
            forall|j: int| 0 <= j < i ==> #[trigger] provider_id_char(c@[j]),
        decreases c.len() - i,
    {
        let ch = c[i];
        let ok = ('a' <= ch && ch <= 'z') || ('A' <= ch && ch <= 'Z') || ('0' <= ch && ch <= '9')
            || ch == '_' || ch == '-';
        if !ok {
            assert(!provider_id_char(c@[i as int]));
            return false;
        }
        i += 1;
    }
    true
}

/// The settings as they are stored: provider id, endpoint and key trimmed
/// (a blank provider id becomes the default), a blank test model dropped.
pub open spec fn normalized_settings(s: RelaySettingsV) -> RelaySettingsV {
    RelaySettingsV {
        provider_id: normalized_provider_id(s.provider_id),
        base_url: trim_seq(s.base_url),
        api_key: trim_seq(s.api_key),
        test_model: match s.test_model {
            Some(m) => if trim_seq(m).len() == 0 {
                None
            } else {
                Some(trim_seq(m))
            },
            None => None,
        },
        ..s
    }
}

pub fn normalize_settings(settings: &mut RelaySettings)
    ensures
        final(settings)@ == normalized_settings(old(settings)@),
{
    settings.provider_id = normalize_provider_id(settings.provider_id.as_str());
    settings.base_url = trim_string(settings.base_url.as_str());
    settings.api_key = trim_string(settings.api_key.as_str());
    let model = match &settings.test_model {
        Some(m) => {
            let t = trim_string(m.as_str());
            if t.as_str().is_empty() {
                None
            } else {
                Some(t)
            }
        },
        None => None,
    };
    settings.test_model = model;
}

/// Why the settings cannot be applied, checked in this order; `None` when
/// they can.
pub open spec fn settings_error(s: RelaySettingsV) -> Option<Seq<char>> {
    if !s.enabled {
        Some("Relay is disabled."@)
    } else if !valid_provider_id(s.provider_id) {
        Some("Provider ID can only contain letters, numbers, underscore and hyphen."@)
    } else if is_blank(s.base_url) {
        Some("API Base URL cannot be empty."@)
    } else if !starts_with(s.base_url, "http://"@) && !starts_with(s.base_url, "https://"@) {
        Some("API Base URL must start with http:// or https://."@)
    } else if is_blank(s.api_key) {
        Some("API Key cannot be empty."@)
    } else {
        None
    }
}

pub fn validate_relay_settings(settings: &RelaySettings) -> (r: Result<(), String>)
    ensures
        match r {
            Ok(()) => settings_error(settings@) is None,
            Err(e) => settings_error(settings@) == Some(e@),
        },
{
    if !settings.enabled {
        return Err(owned("Relay is disabled."));
    }
    if !is_valid_provider_id(settings.provider_id.as_str()) {
        return Err(owned("Provider ID can only contain letters, numbers, underscore and hyphen."));
    }
    if is_blank_str(settings.base_url.as_str()) {
        return Err(owned("API Base URL cannot be empty."));
    }
    let url = chars_of(settings.base_url.as_str());
    let http = chars_of("http://");
    let https = chars_of("https://");
    if !starts_with_exec(&url, &http) && !starts_with_exec(&url, &https) {
        return Err(owned("API Base URL must start with http:// or https://."));
    }
    if is_blank_str(settings.api_key.as_str()) {
        return Err(owned("API Key cannot be empty."));
    }
    Ok(())
}

/// `s` with a newline added unless it already ends with one.
pub open spec fn with_trailing_newline(s: Seq<char>) -> Seq<char> {
    if ends_with(s, seq!['\n']) {
        s
    } else {
        s.push('\n')
    }
}

pub fn ensure_trailing_newline(contents: String) -> (r: String)
    ensures
        r@ == with_trailing_newline(contents@),
        ends_with(r@, seq!['\n']),
{
    proof {
        let s = contents@;
        assert(s.push('\n').subrange(s.len() as int, s.len() + 1int) =~= seq!['\n']);
    }
    let mut c = chars_of(contents.as_str());
    let nl = chars_of("\n");
    proof {
        reveal_strlit("\n");
        assert(nl@ =~= seq!['\n']);
    }
    if ends_with_exec(&c, &nl) {
        contents
    } else {
        c.push('\n');
        string_of(&c)
    }
}

/// A text that holds a document, with or without one more newline, still
/// holds it once a final newline is ensured.
pub proof fn lemma_newline_holds(t: Seq<char>, d: Seq<(Seq<char>, TomlValue)>)
    requires
        text_shows(t, d),
        text_shows(t.push('\n'), d),
    ensures
        text_shows(with_trailing_newline(t), d),
{
}

/// The key with its first two and last four characters kept: `sk...alue`.
pub open spec fn masked_key(k: Seq<char>) -> Option<Seq<char>> {
    let t = trim_seq(k);
    if t.len() == 0 {
        None
    } else {
        let head = if t.len() < 2 {
            t
        } else {
            t.take(2)
        };
        let tail = if t.len() < 4 {
            t
        } else {
            t.skip(t.len() - 4)
        };
        Some(head + "..."@ + tail)
    }
}

pub fn mask_api_key(api_key: &str) -> (r: Option<String>)
    ensures
        opt_str_view(r) == masked_key(api_key@),
{
    let t = trim_string(api_key);
    let c = chars_of(t.as_str());
    if c.len() == 0 {
        return None;
    }
    let head = if c.len() < 2 {
        slice_chars(&c, 0, c.len())
    } else {
        slice_chars(&c, 0, 2)
    };
    let tail = if c.len() < 4 {
        slice_chars(&c, 0, c.len())
    } else {
        slice_chars(&c, c.len() - 4, c.len())
    };
    let mut out = head;
    out.push('.');
    out.push('.');
    out.push('.');
    let mut tail = tail;
    out.append(&mut tail);
    proof {
        reveal_strlit("...");
        assert(c@.subrange(0, c@.len() as int) =~= c@);
        assert(c@.subrange(0, 2) =~= c@.take(2));
        assert(c@.subrange(c@.len() - 4, c@.len() as int) =~= c@.skip(c@.len() - 4));
    }
    Some(string_of(&out))
}


/// Root slots of a configuration text: empty for blank text, else what it
/// parses to (`None` when it is not valid TOML).
pub open spec fn base_doc(contents: Seq<char>) -> Option<Seq<(Seq<char>, TomlValue)>> {
    if is_blank(contents) {
        Some(Seq::empty())
    } else {
        parsed_toml(contents)
    }
}

/// The document of a configuration text; blank text gives an empty one.
pub fn config_doc_or_empty(contents: &str) -> (r: Result<DocumentMut, String>)
    ensures
        match r {
            Ok(d) => base_doc(contents@) == Some(toml_doc_slots(d)),
            Err(e) => base_doc(contents@) is None && e@ == "Codex config.toml is invalid."@,
        },
{
    if is_blank_str(contents) {
        Ok(toml_new_doc())
    } else {
        match toml_parse(contents) {
            Some(d) => Ok(d),
            None => Err(owned("Codex config.toml is invalid.")),
        }
    }
}

/// The trimmed text, unless it is missing or blank.
pub open spec fn trimmed_nonblank(v: Option<Seq<char>>) -> Option<Seq<char>> {
    match v {
        Some(s) => if trim_seq(s).len() == 0 {
            None
        } else {
            Some(trim_seq(s))
        },
        None => None,
    }
}

fn trimmed_nonblank_exec(v: Option<&str>) -> (r: Option<String>)
    ensures
        opt_str_view(r) == trimmed_nonblank(match v {
            Some(s) => Some(s@),
            None => None,
        }),
{
    match v {
        Some(s) => {
            let t = trim_string(s);
            if t.as_str().is_empty() {
                None
            } else {
                Some(t)
            }
        },
        None => None,
    }
}

/// `key` of the provider table, or of the root when the provider has no
/// item under it: its trimmed text, if that is a non-blank string.
pub open spec fn provider_value_v(
    doc: Seq<(Seq<char>, TomlValue)>,
    provider: Seq<(Seq<char>, TomlValue)>,
    key: Seq<char>,
) -> Option<Seq<char>> {
    let item = match slot_get(provider, key) {
        Some(v) => Some(v),
        None => slot_get(doc, key),
    };
    trimmed_nonblank(value_str(item))
}

pub fn provider_value(doc: &DocumentMut, provider: &Table, key: &str) -> (r: Option<String>)
    ensures
        opt_str_view(r) == provider_value_v(toml_doc_slots(*doc), toml_table_slots(*provider), key@),
{
    let item = match table_get(provider, key) {
        Some(i) => Some(i),
        None => table_get(doc_root(doc), key),
    };
    match item {
        Some(i) => trimmed_nonblank_exec(item_as_str(i)),
        None => None,
    }
}

/// The root `model_provider`, trimmed, if it is a non-blank string.
pub open spec fn root_provider(doc: Seq<(Seq<char>, TomlValue)>) -> Option<Seq<char>> {
    trimmed_nonblank(value_str(slot_get(doc, "model_provider"@)))
}

fn root_provider_exec(doc: &DocumentMut) -> (r: Option<String>)
    ensures
        opt_str_view(r) == root_provider(toml_doc_slots(*doc)),
{
    match table_get(doc_root(doc), "model_provider") {
        Some(i) => trimmed_nonblank_exec(item_as_str(i)),
        None => None,
    }
}

/// The table `[model_providers.<id>]`.
pub open spec fn provider_table_v(doc: Seq<(Seq<char>, TomlValue)>, id: Seq<char>) -> Option<
    Seq<(Seq<char>, TomlValue)>,
> {
    match value_table(slot_get(doc, "model_providers"@)) {
        Some(mp) => value_table(slot_get(mp, id)),
        None => None,
    }
}

/// `[model_providers.<id>]` of a document, as a table of its own.
pub fn provider_table(doc: &DocumentMut, id: &str) -> (r: Option<Table>)
    ensures
        match r {
            Some(t) => provider_table_v(toml_doc_slots(*doc), id@) == Some(toml_table_slots(t)),
            None => provider_table_v(toml_doc_slots(*doc), id@) is None,
        },
{
    let mp = match table_get(doc_root(doc), "model_providers") {
        Some(i) => item_as_table(i),
        None => None,
    };
    let mp = match mp {
        Some(t) => t,
        None => return None,
    };
    match table_get(mp, id) {
        Some(i) => match item_as_table(i) {
            Some(t) => Some(table_clone(t)),
            None => None,
        },
        None => None,
    }
}

/// The API key of a provider: its bearer token, else its `api_key`.
pub open spec fn provider_key_v(doc: Seq<(Seq<char>, TomlValue)>, provider: Seq<(Seq<char>, TomlValue)>) -> Option<Seq<char>> {
    match provider_value_v(doc, provider, "experimental_bearer_token"@) {
        Some(k) => Some(k),
        None => provider_value_v(doc, provider, "api_key"@),
    }
}

fn provider_key(doc: &DocumentMut, provider: &Table) -> (r: Option<String>)
    ensures
        opt_str_view(r) == provider_key_v(toml_doc_slots(*doc), toml_table_slots(*provider)),
{
    match provider_value(doc, provider, "experimental_bearer_token") {
        Some(k) => Some(k),
        None => provider_value(doc, provider, "api_key"),
    }
}

/// The relay settings of the active configuration: its provider and that
/// provider's endpoint (required) and key (empty when missing). The test
/// model and the router's settings stay as saved.
pub open spec fn active_settings_v(doc: Seq<(Seq<char>, TomlValue)>, saved: RelaySettingsV) -> Option<
    RelaySettingsV,
> {
    match root_provider(doc) {
        None => None,
        Some(id) => match provider_table_v(doc, id) {
            None => None,
            Some(p) => match provider_value_v(doc, p, "base_url"@) {
                None => None,
                Some(base) => Some(
                    RelaySettingsV {
                        enabled: true,
                        provider_id: id,
                        base_url: base,
                        api_key: match provider_key_v(doc, p) {
                            Some(k) => k,
                            None => Seq::empty(),
                        },
                        ..saved
                    },
                ),
            },
        },
    }
}

pub open spec fn settings_from_config_v(contents: Seq<char>, saved: RelaySettingsV) -> Option<
    RelaySettingsV,
> {
    match parsed_toml(contents) {
        Some(doc) => active_settings_v(doc, saved),
        None => None,
    }
}

pub open spec fn opt_settings_view(o: Option<RelaySettings>) -> Option<RelaySettingsV> {
    match o {
        Some(s) => Some(s@),
        None => None,
    }
}

pub fn settings_from_active_config(contents: &str, saved: &RelaySettings) -> (r: Option<RelaySettings>)
    ensures
        opt_settings_view(r) == settings_from_config_v(contents@, saved@),
{
    let doc = match toml_parse(contents) {
        Some(d) => d,
        None => return None,
    };
    let id = match root_provider_exec(&doc) {
        Some(i) => i,
        None => return None,
    };
    let provider = match provider_table(&doc, id.as_str()) {
        Some(p) => p,
        None => return None,
    };
    let base_url = match provider_value(&doc, &provider, "base_url") {
        Some(b) => b,
        None => return None,
    };
    let api_key = match provider_key(&doc, &provider) {
        Some(k) => k,
        None => String::new(),
    };
    let mut s = saved.duplicate();
    s.enabled = true;
    s.provider_id = id;
    s.base_url = base_url;
    s.api_key = api_key;
    Some(s)
}

/// The settings in effect: those of the active configuration when it names
/// a provider with an endpoint, else the saved ones.
pub open spec fn loaded_settings_v(saved: RelaySettingsV, contents: Seq<char>) -> RelaySettingsV {
    match settings_from_config_v(contents, saved) {
        Some(s) => s,
        None => saved,
    }
}

/// The settings in effect, given the saved ones and the text of Codex's
/// `config.toml` (empty when it does not exist).
pub fn load_relay_settings_from_default(saved: RelaySettings, config_contents: &str) -> (r: RelaySettings)
    ensures
        r@ == loaded_settings_v(saved@, config_contents@),
{
    match settings_from_active_config(config_contents, &saved) {
        Some(s) => s,
        None => saved,
    }
}

/// The settings as they are saved: normalized.
pub fn save_relay_settings_to_default(settings: RelaySettings) -> (r: RelaySettings)
    ensures
        r@ == normalized_settings(settings@),
{
    let mut s = settings;
    normalize_settings(&mut s);
    s
}

/// The provider that the configuration routes to, if it is the relay's:
/// the root `model_provider` when it is the settings' provider, the default
/// or the legacy one, or any provider whose table has a non-blank
/// `base_url`; else empty.
pub open spec fn configured_provider_doc(doc: Seq<(Seq<char>, TomlValue)>, settings: RelaySettingsV) -> Seq<char> {
    match root_provider(doc) {
        Some(p) => if p == normalized_provider_id(settings.provider_id) || p == DEFAULT_RELAY_PROVIDER@
            || p == LEGACY_RELAY_PROVIDER@ {
            p
        } else if (match provider_table_v(doc, p) {
            Some(t) => trimmed_nonblank(value_str(slot_get(t, "base_url"@))) is Some,
            None => false,
        }) {
            p
        } else {
            Seq::empty()
        },
        None => Seq::empty(),
    }
}

pub open spec fn configured_provider_v(contents: Seq<char>, settings: RelaySettingsV) -> Seq<char> {
    match parsed_toml(contents) {
        None => Seq::empty(),
        Some(doc) => configured_provider_doc(doc, settings),
    }
}

pub fn configured_provider_id(contents: &str, settings: &RelaySettings) -> (r: String)
    ensures
        r@ == configured_provider_v(contents@, settings@),
{
    let settings_provider_id = normalize_provider_id(settings.provider_id.as_str());
    let doc = match toml_parse(contents) {
        Some(d) => d,
        None => return String::new(),
    };
    let p = match root_provider_exec(&doc) {
        Some(p) => p,
        None => return String::new(),
    };
    if str_eq(p.as_str(), settings_provider_id.as_str()) || str_eq(p.as_str(), DEFAULT_RELAY_PROVIDER)
        || str_eq(p.as_str(), LEGACY_RELAY_PROVIDER) {
        return p;
    }
    let has_url = match provider_table(&doc, p.as_str()) {
        Some(t) => match table_get(&t, "base_url") {
            Some(i) => trimmed_nonblank_exec(item_as_str(i)).is_some(),
            None => false,
        },
        None => false,
    };
    if has_url {
        p
    } else {
        String::new()
    }
}

/// `[model_providers.<id>]` of the configuration text.
pub fn relay_provider_table(contents: &str, provider_id: &str) -> (r: Option<Table>)
    ensures
        match r {
            Some(t) => match parsed_toml(contents@) {
                Some(doc) => provider_table_v(doc, provider_id@) == Some(toml_table_slots(t)),
                None => false,
            },
            None => match parsed_toml(contents@) {
                Some(doc) => provider_table_v(doc, provider_id@) is None,
                None => true,
            },
        },
{
    match toml_parse(contents) {
        Some(doc) => provider_table(&doc, provider_id),
        None => None,
    }
}

/// The endpoint and key of the configured provider.
pub open spec fn status_values(doc: Option<Seq<(Seq<char>, TomlValue)>>, id: Seq<char>) -> (Option<Seq<char>>, Option<Seq<char>>) {
    match doc {
        Some(doc) => match provider_table_v(doc, id) {
            Some(p) => (provider_value_v(doc, p, "base_url"@), provider_key_v(doc, p)),
            None => (None, None),
        },
        None => (None, None),
    }
}

/// The relay's status in a configuration document (`None` when the text is
/// not valid TOML): it is configured when the document routes to a relay
/// provider that has both an endpoint and a key.
pub open spec fn relay_status_doc_v(
    config_path: Seq<char>,
    doc: Option<Seq<(Seq<char>, TomlValue)>>,
    settings: RelaySettingsV,
    codex_running: bool,
) -> RelayStatusV {
    let id = match doc {
        Some(d) => configured_provider_doc(d, settings),
        None => Seq::empty(),
    };
    let (base_url, api_key) = status_values(doc, id);
    let configured = id.len() > 0 && base_url is Some && api_key is Some;
    RelayStatusV {
        configured,
        route: if configured {
            "relay"@
        } else {
            "official"@
        },
        config_path,
        provider_id: if id.len() == 0 {
            normalized_provider_id(settings.provider_id)
        } else {
            id
        },
        base_url,
        has_base_url: base_url is Some,
        has_api_key: api_key is Some,
        masked_api_key: match api_key {
            Some(k) => masked_key(k),
            None => None,
        },
        codex_running,
    }
}

pub open spec fn relay_status_v(
    config_path: Seq<char>,
    contents: Seq<char>,
    settings: RelaySettingsV,
    codex_running: bool,
) -> RelayStatusV {
    relay_status_doc_v(config_path, parsed_toml(contents), settings, codex_running)
}

/// The status for the configuration text `contents` of `config_path`.
pub fn relay_status_from_home(
    config_path: String,
    contents: &str,
    settings: &RelaySettings,
    codex_running: bool,
) -> (r: RelayStatus)
    ensures
        r@ == relay_status_v(config_path@, contents@, settings@, codex_running),
{
    let id = configured_provider_id(contents, settings);
    let provider = relay_provider_table(contents, id.as_str());
    let doc = toml_parse(contents);
    let (base_url, api_key) = match (&doc, &provider) {
        (Some(d), Some(p)) => (provider_value(d, p, "base_url"), provider_key(d, p)),
        _ => (None, None),
    };
    let has_base_url = base_url.is_some();
    let has_api_key = api_key.is_some();
    let configured = !id.as_str().is_empty() && has_base_url && has_api_key;
    let masked = match &api_key {
        Some(k) => mask_api_key(k.as_str()),
        None => None,
    };
    let provider_id = if id.as_str().is_empty() {
        normalize_provider_id(settings.provider_id.as_str())
    } else {
        id
    };
    RelayStatus {
        configured,
        route: if configured {
            owned("relay")
        } else {
            owned("official")
        },
        config_path,
        provider_id,
        base_url,
        has_base_url,
        has_api_key,
        masked_api_key: masked,
        codex_running,
    }
}

/// The status given the saved settings and the configuration text: the
/// settings in effect are loaded from the text first.
pub fn relay_status_from_default(
    config_path: String,
    contents: &str,
    saved: RelaySettings,
    codex_running: bool,
) -> (r: RelayStatus)
    ensures
        r@ == relay_status_v(
            config_path@,
            contents@,
            loaded_settings_v(saved@, contents@),
            codex_running,
        ),
{
    let settings = load_relay_settings_from_default(saved, contents);
    relay_status_from_home(config_path, contents, &settings, codex_running)
}


/// The table `[model_providers.<id>]` that the relay writes.
pub open spec fn relay_provider_slots(id: Seq<char>, base_url: Seq<char>, api_key: Seq<char>) -> Seq<
    (Seq<char>, TomlValue),
> {
    let t0 = Seq::<(Seq<char>, TomlValue)>::empty();
    let t1 = slot_set(t0, "name"@, TomlValue::Str(id));
    let t2 = slot_set(t1, "wire_api"@, TomlValue::Str("responses"@));
    let t3 = slot_set(t2, "requires_openai_auth"@, TomlValue::Bool(true));
    let t4 = slot_set(t3, "base_url"@, TomlValue::Str(base_url));
    slot_set(t4, "experimental_bearer_token"@, TomlValue::Str(api_key))
}

/// The document with the relay configured: `model_provider` names the
/// relay's provider, `model` is set to the test model when the document
/// has none, and `[model_providers.<id>]` is replaced by the relay's table
/// (`model_providers` becomes a table if it was missing or not one).
pub open spec fn upsert_relay_slots(doc: Seq<(Seq<char>, TomlValue)>, s: RelaySettingsV) -> Seq<
    (Seq<char>, TomlValue),
> {
    let id = normalized_provider_id(s.provider_id);
    let d1 = slot_set(doc, "model_provider"@, TomlValue::Str(id));
    let d2 = match s.test_model {
        Some(m) => if slot_get(d1, "model"@) is None {
            slot_set(d1, "model"@, TomlValue::Str(m))
        } else {
            d1
        },
        None => d1,
    };
    let mp = match value_table(slot_get(d2, "model_providers"@)) {
        Some(t) => t,
        None => Seq::empty(),
    };
    slot_set(
        d2,
        "model_providers"@,
        TomlValue::Table(slot_set(mp, id, TomlValue::Table(relay_provider_slots(id, s.base_url, s.api_key)))),
    )
}

pub fn upsert_relay_doc(doc: &mut DocumentMut, settings: &RelaySettings)
    ensures
        toml_doc_slots(*final(doc)) == upsert_relay_slots(toml_doc_slots(*old(doc)), settings@),
{
    let provider_id = normalize_provider_id(settings.provider_id.as_str());
    table_set(doc_root_mut(doc), "model_provider", str_item(provider_id.as_str()));
    match &settings.test_model {
        Some(m) => {
            if table_get(doc_root(doc), "model").is_none() {
                table_set(doc_root_mut(doc), "model", str_item(m.as_str()));
            }
        },
        None => {},
    }
    let existing = match table_get(doc_root(doc), "model_providers") {
        Some(i) => item_as_table(i),
        None => None,
    };
    let mut mp = match existing {
        Some(t) => table_clone(t),
        None => table_new(),
    };
    let mut p = table_new();
    table_set(&mut p, "name", str_item(provider_id.as_str()));
    table_set(&mut p, "wire_api", str_item("responses"));
    table_set(&mut p, "requires_openai_auth", bool_item(true));
    table_set(&mut p, "base_url", str_item(settings.base_url.as_str()));
    table_set(&mut p, "experimental_bearer_token", str_item(settings.api_key.as_str()));
    table_set(&mut mp, provider_id.as_str(), table_item(p));
    table_set(doc_root_mut(doc), "model_providers", table_item(mp));
}

/// The provider ids that the relay owns: the given one, the default and the
/// legacy one.
pub open spec fn relay_owned(p: Seq<char>, id: Seq<char>) -> bool {
    p == id || p == DEFAULT_RELAY_PROVIDER@ || p == LEGACY_RELAY_PROVIDER@
}

/// The document with the relay removed: `model_provider` goes when it names
/// an owned provider, the owned providers' tables go, and `model_providers`
/// goes when nothing is left in it.
pub open spec fn remove_relay_slots(doc: Seq<(Seq<char>, TomlValue)>, id: Seq<char>) -> Seq<
    (Seq<char>, TomlValue),
> {
    let d1 = match value_str(slot_get(doc, "model_provider"@)) {
        Some(p) => if relay_owned(p, id) {
            slot_remove(doc, "model_provider"@)
        } else {
            doc
        },
        None => doc,
    };
    match value_table(slot_get(d1, "model_providers"@)) {
        Some(mp) => {
            let m = slot_remove(
                slot_remove(slot_remove(mp, id), DEFAULT_RELAY_PROVIDER@),
                LEGACY_RELAY_PROVIDER@,
            );
            if visible_keys(m).len() == 0 {
                slot_remove(d1, "model_providers"@)
            } else {
                slot_set(d1, "model_providers"@, TomlValue::Table(m))
            }
        },
        None => d1,
    }
}

pub fn remove_relay_doc(doc: &mut DocumentMut, provider_id: &str)
    ensures
        toml_doc_slots(*final(doc)) == remove_relay_slots(toml_doc_slots(*old(doc)), provider_id@),
{
    let current: Option<String> = match table_get(doc_root(doc), "model_provider") {
        Some(i) => match item_as_str(i) {
            Some(s) => Some(owned(s)),
            None => None,
        },
        None => None,
    };
    match current {
        Some(c) => {
            if str_eq(c.as_str(), provider_id) || str_eq(c.as_str(), DEFAULT_RELAY_PROVIDER) || str_eq(
                c.as_str(),
                LEGACY_RELAY_PROVIDER,
            ) {
                table_remove(doc_root_mut(doc), "model_provider");
            }
        },
        None => {},
    }
    let existing = match table_get(doc_root(doc), "model_providers") {
        Some(i) => item_as_table(i),
        None => None,
    };
    let mut mp = match existing {
        Some(t) => table_clone(t),
        None => return ,
    };
    table_remove(&mut mp, provider_id);
    table_remove(&mut mp, DEFAULT_RELAY_PROVIDER);
    table_remove(&mut mp, LEGACY_RELAY_PROVIDER);
    if table_is_empty(&mp) {
        table_remove(doc_root_mut(doc), "model_providers");
    } else {
        table_set(doc_root_mut(doc), "model_providers", table_item(mp));
    }
}

/// The configuration document with the relay configured.
pub fn upserted_relay_doc(contents: &str, settings: &RelaySettings) -> (r: Result<DocumentMut, String>)
    ensures
        match r {
            Ok(d) => base_doc(contents@) is Some && toml_doc_slots(d) == upsert_relay_slots(
                base_doc(contents@).unwrap(),
                settings@,
            ),
            Err(e) => base_doc(contents@) is None && e@ == "Codex config.toml is invalid."@,
        },
{
    let mut doc = match config_doc_or_empty(contents) {
        Ok(d) => d,
        Err(e) => return Err(e),
    };
    upsert_relay_doc(&mut doc, settings);
    Ok(doc)
}

/// The configuration text with the relay configured: the text of
/// `upserted_relay_doc`, ending with a newline.
pub fn upsert_relay_provider(contents: &str, settings: &RelaySettings) -> (r: Result<String, String>)
    ensures
        match r {
            Ok(t) => base_doc(contents@) is Some && ends_with(t@, seq!['\n'])
                && text_shows(t@, upsert_relay_slots(base_doc(contents@).unwrap(), settings@)),
            Err(e) => base_doc(contents@) is None && e@ == "Codex config.toml is invalid."@,
        },
{
    let doc = match upserted_relay_doc(contents, settings) {
        Ok(d) => d,
        Err(e) => return Err(e),
    };
    Ok(ensure_trailing_newline(toml_render(&doc)))
}

/// The configuration document with the relay removed.
pub fn removed_relay_doc(contents: &str, provider_id: &str) -> (r: Result<DocumentMut, String>)
    ensures
        match r {
            Ok(d) => base_doc(contents@) is Some && toml_doc_slots(d) == remove_relay_slots(
                base_doc(contents@).unwrap(),
                provider_id@,
            ),
            Err(e) => base_doc(contents@) is None && e@ == "Codex config.toml is invalid."@,
        },
{
    let mut doc = match config_doc_or_empty(contents) {
        Ok(d) => d,
        Err(e) => return Err(e),
    };
    remove_relay_doc(&mut doc, provider_id);
    Ok(doc)
}

/// The configuration text with the relay removed: the text of
/// `removed_relay_doc`, ending with a newline.
pub fn remove_relay_provider(contents: &str, provider_id: &str) -> (r: Result<String, String>)
    ensures
        match r {
            Ok(t) => base_doc(contents@) is Some && ends_with(t@, seq!['\n'])
                && text_shows(t@, remove_relay_slots(base_doc(contents@).unwrap(), provider_id@)),
            Err(e) => base_doc(contents@) is None && e@ == "Codex config.toml is invalid."@,
        },
{
    let doc = match removed_relay_doc(contents, provider_id) {
        Ok(d) => d,
        Err(e) => return Err(e),
    };
    Ok(ensure_trailing_newline(toml_render(&doc)))
}

/// The settings normalized and checked before anything is written.
pub fn prepare_relay_settings(settings: RelaySettings) -> (r: Result<RelaySettings, String>)
    ensures
        match r {
            Ok(s) => s@ == normalized_settings(settings@) && settings_error(s@) is None,
            Err(e) => settings_error(normalized_settings(settings@)) == Some(e@),
        },
{
    let mut s = settings;
    normalize_settings(&mut s);
    match validate_relay_settings(&s) {
        Ok(()) => Ok(s),
        Err(e) => Err(e),
    }
}

/// Applying the relay to the existing configuration text: the settings,
/// normalized and checked, and the new text.
pub fn apply_relay_config_to_default(settings: RelaySettings, existing: &str) -> (r: Result<
    (RelaySettings, String),
    String,
>)
    ensures
        match r {
            Ok((s, t)) => s@ == normalized_settings(settings@) && settings_error(s@) is None
                && base_doc(existing@) is Some && ends_with(t@, seq!['\n'])
                && text_shows(t@, upsert_relay_slots(base_doc(existing@).unwrap(), s@)),
            Err(e) => settings_error(normalized_settings(settings@)) == Some(e@) || (settings_error(
                normalized_settings(settings@),
            ) is None && base_doc(existing@) is None && e@ == "Codex config.toml is invalid."@),
        },
{
    let s = match prepare_relay_settings(settings) {
        Ok(s) => s,
        Err(e) => return Err(e),
    };
    match upsert_relay_provider(existing, &s) {
        Ok(t) => Ok((s, t)),
        Err(e) => Err(e),
    }
}

/// Saving the settings and applying them to the existing configuration
/// text, as one step before Codex restarts: the settings as saved, and the
/// new text. Saved settings are normalized already, so this is applying
/// the settings as given.
pub fn apply_relay_config_and_restart_default(settings: RelaySettings, existing: &str) -> (r: Result<
    (RelaySettings, String),
    String,
>)
    ensures
        match r {
            Ok((s, t)) => s@ == normalized_settings(settings@) && settings_error(s@) is None
                && base_doc(existing@) is Some && ends_with(t@, seq!['\n'])
                && text_shows(t@, upsert_relay_slots(base_doc(existing@).unwrap(), s@)),
            Err(e) => settings_error(normalized_settings(settings@)) == Some(e@) || (settings_error(
                normalized_settings(settings@),
            ) is None && base_doc(existing@) is None && e@ == "Codex config.toml is invalid."@),
        },
{
    let saved = save_relay_settings_to_default(settings);
    proof {
        law_normalize_idempotent(settings@);
    }
    apply_relay_config_to_default(saved, existing)
}

/// Clearing the relay from the existing configuration text: the new text.
pub fn clear_relay_config_from_default(settings: &RelaySettings, existing: &str) -> (r: Result<
    String,
    String,
>)
    ensures
        match r {
            Ok(t) => base_doc(existing@) is Some && ends_with(t@, seq!['\n']) && text_shows(
                t@,
                remove_relay_slots(base_doc(existing@).unwrap(), normalized_provider_id(settings.provider_id@)),
            ),
            Err(e) => base_doc(existing@) is None && e@ == "Codex config.toml is invalid."@,
        },
{
    let id = normalize_provider_id(settings.provider_id.as_str());
    remove_relay_provider(existing, id.as_str())
}

/// The result of applying (`cleared` false) or clearing the relay.
pub fn relay_apply_result(
    config_path: String,
    backup_path: Option<String>,
    status: &RelayStatus,
    cleared: bool,
) -> (r: RelayApplyResult)
    ensures
        r.config_path@ == config_path@,
        opt_str_view(r.backup_path) == opt_str_view(backup_path),
        r.configured == status.configured,
        r.message@ == if cleared {
            "Official endpoint restored. Restart Codex to use it."@
        } else {
            "Relay configuration applied. Restart Codex to use it."@
        },
{
    RelayApplyResult {
        config_path,
        backup_path,
        configured: status.configured,
        message: if cleared {
            owned("Official endpoint restored. Restart Codex to use it.")
        } else {
            owned("Relay configuration applied. Restart Codex to use it.")
        },
    }
}

/// The message that reports a restart.
pub open spec fn restart_message(started: bool, was_running: bool) -> Seq<char> {
    if started {
        "Codex App restarted."@
    } else if was_running {
        "Codex was closed, but the app path was unavailable. Please start Codex manually."@
    } else {
        "Codex App is not running and no launch path was found. Please start Codex manually."@
    }
}

/// The result of a restart, given what was done.
pub fn restart_result(killed: bool, started: bool, was_running: bool, app_path: Option<String>) -> (r:
    RestartResult)
    ensures
        r.killed == killed,
        r.started == started,
        opt_str_view(r.app_path) == opt_str_view(app_path),
        r.message@ == restart_message(started, was_running),
{
    let message = if started {
        owned("Codex App restarted.")
    } else if was_running {
        owned("Codex was closed, but the app path was unavailable. Please start Codex manually.")
    } else {
        owned("Codex App is not running and no launch path was found. Please start Codex manually.")
    };
    RestartResult { killed, started, app_path, message }
}


/// A provider id that passes validation holds no white space, so trimming
/// keeps it.
proof fn lemma_valid_id_trimmed(p: Seq<char>)
    requires
        valid_provider_id(p),
    ensures
        trim_seq(p) == p,
{
    assert(provider_id_char(p[0]));
    assert(provider_id_char(p[p.len() - 1]));
    lemma_trim_fixed(p);
}

/// Applying the relay configures it. Whatever the configuration document
/// held, once the relay's entry is written with the settings as they are
/// stored (normalized) and accepted by validation, the document's status is
/// configured and routed to the relay, with the settings' provider,
/// endpoint and masked key; and the settings loaded from it are enabled,
/// with that provider, endpoint and key.
pub proof fn law_apply_configures_relay(
    doc: Seq<(Seq<char>, TomlValue)>,
    raw: RelaySettingsV,
    saved: RelaySettingsV,
    config_path: Seq<char>,
    codex_running: bool,
)
    requires
        settings_error(normalized_settings(raw)) is None,
    ensures
        ({
            let s = normalized_settings(raw);
            let d = upsert_relay_slots(doc, s);
            let st = relay_status_doc_v(config_path, Some(d), s, codex_running);
            &&& st.configured
            &&& st.route == "relay"@
            &&& st.provider_id == s.provider_id
            &&& st.base_url == Some(s.base_url)
            &&& st.masked_api_key == masked_key(s.api_key)
            &&& active_settings_v(d, saved) == Some(
                RelaySettingsV {
                    enabled: true,
                    provider_id: s.provider_id,
                    base_url: s.base_url,
                    api_key: s.api_key,
                    ..saved
                },
            )
        }),
{
    let s = normalized_settings(raw);
    let id = s.provider_id;
    reveal_strlit("model_provider");
    reveal_strlit("model");
    reveal_strlit("model_providers");
    reveal_strlit("name");
    reveal_strlit("wire_api");
    reveal_strlit("requires_openai_auth");
    reveal_strlit("base_url");
    reveal_strlit("experimental_bearer_token");
    reveal_strlit("api_key");
    lemma_valid_id_trimmed(id);
    lemma_trim_idempotent(raw.base_url);
    lemma_trim_idempotent(raw.api_key);
    assert(normalized_provider_id(id) == id);
    let d1 = slot_set(doc, "model_provider"@, TomlValue::Str(id));
    let d2 = match s.test_model {
        Some(m) => if slot_get(d1, "model"@) is None {
            slot_set(d1, "model"@, TomlValue::Str(m))
        } else {
            d1
        },
        None => d1,
    };
    let mp = match value_table(slot_get(d2, "model_providers"@)) {
        Some(t) => t,
        None => Seq::empty(),
    };
    let pt = relay_provider_slots(id, s.base_url, s.api_key);
    let mpx = slot_set(mp, id, TomlValue::Table(pt));
    let d = upsert_relay_slots(doc, s);
    assert(d == slot_set(d2, "model_providers"@, TomlValue::Table(mpx)));
    lemma_slot_get_set(doc, "model_provider"@, TomlValue::Str(id), "model_provider"@);
    match s.test_model {
        Some(m) => {
            lemma_slot_get_set(d1, "model"@, TomlValue::Str(m), "model_provider"@);
        },
        None => {},
    }
    lemma_slot_get_set(d2, "model_providers"@, TomlValue::Table(mpx), "model_provider"@);
    lemma_slot_get_set(d2, "model_providers"@, TomlValue::Table(mpx), "model_providers"@);
    lemma_slot_get_set(mp, id, TomlValue::Table(pt), id);
    assert("model_providers"@ != "model_provider"@) by {
        assert("model_providers"@.len() != "model_provider"@.len());
    }
    assert("model"@ != "model_provider"@) by {
        assert("model"@.len() != "model_provider"@.len());
    }
    assert(slot_get(d1, "model_provider"@) == Some(TomlValue::Str(id)));
    assert(slot_get(d2, "model_provider"@) == Some(TomlValue::Str(id)));
    assert(slot_get(d, "model_provider"@) == Some(TomlValue::Str(id)));
    assert(trim_seq(id).len() > 0);
    assert(root_provider(d) == Some(id));
    assert(provider_table_v(d, id) == Some(pt));
    let t0 = Seq::<(Seq<char>, TomlValue)>::empty();
    let t1 = slot_set(t0, "name"@, TomlValue::Str(id));
    let t2 = slot_set(t1, "wire_api"@, TomlValue::Str("responses"@));
    let t3 = slot_set(t2, "requires_openai_auth"@, TomlValue::Bool(true));
    let t4 = slot_set(t3, "base_url"@, TomlValue::Str(s.base_url));
    lemma_slot_get_set(t3, "base_url"@, TomlValue::Str(s.base_url), "base_url"@);
    lemma_slot_get_set(t4, "experimental_bearer_token"@, TomlValue::Str(s.api_key), "base_url"@);
    lemma_slot_get_set(
        t4,
        "experimental_bearer_token"@,
        TomlValue::Str(s.api_key),
        "experimental_bearer_token"@,
    );
    assert("experimental_bearer_token"@ != "base_url"@) by {
        assert("experimental_bearer_token"@.len() != "base_url"@.len());
    }
    assert(pt == slot_set(t4, "experimental_bearer_token"@, TomlValue::Str(s.api_key)));
    assert(slot_get(pt, "base_url"@) == Some(TomlValue::Str(s.base_url)));
    assert(trim_seq(s.base_url) == s.base_url);
    assert(provider_value_v(d, pt, "base_url"@) == Some(s.base_url));
    assert(provider_key_v(d, pt) == Some(s.api_key));
    assert(configured_provider_doc(d, s) == id);
}


/// The relay's entry, written with valid settings into a document without
/// a key twice, names the settings' provider at the root and keeps every
/// key once.
proof fn lemma_upsert_names_provider(doc: Seq<(Seq<char>, TomlValue)>, s: RelaySettingsV)
    requires
        unique_keys(doc),
        settings_error(s) is None,
        s == normalized_settings(s),
    ensures
        unique_keys(upsert_relay_slots(doc, s)),
        slot_get(upsert_relay_slots(doc, s), "model_provider"@) == Some(TomlValue::Str(s.provider_id)),
        normalized_provider_id(s.provider_id) == s.provider_id,
{
    let id = s.provider_id;
    reveal_strlit("model_provider");
    reveal_strlit("model");
    reveal_strlit("model_providers");
    lemma_valid_id_trimmed(id);
    assert(normalized_provider_id(id) == id);
    assert("model_providers"@ != "model_provider"@) by {
        assert("model_providers"@.len() != "model_provider"@.len());
    }
    assert("model"@ != "model_provider"@) by {
        assert("model"@.len() != "model_provider"@.len());
    }
    let d1 = slot_set(doc, "model_provider"@, TomlValue::Str(id));
    lemma_unique_set(doc, "model_provider"@, TomlValue::Str(id));
    lemma_slot_get_set(doc, "model_provider"@, TomlValue::Str(id), "model_provider"@);
    let d2 = match s.test_model {
        Some(m) => if slot_get(d1, "model"@) is None {
            slot_set(d1, "model"@, TomlValue::Str(m))
        } else {
            d1
        },
        None => d1,
    };
    match s.test_model {
        Some(m) => {
            lemma_slot_get_set(d1, "model"@, TomlValue::Str(m), "model_provider"@);
            lemma_unique_set(d1, "model"@, TomlValue::Str(m));
        },
        None => {},
    }
    assert(unique_keys(d2));
    let mp = match value_table(slot_get(d2, "model_providers"@)) {
        Some(t) => t,
        None => Seq::empty(),
    };
    let pt = relay_provider_slots(id, s.base_url, s.api_key);
    let mpx = slot_set(mp, id, TomlValue::Table(pt));
    let d = upsert_relay_slots(doc, s);
    assert(d == slot_set(d2, "model_providers"@, TomlValue::Table(mpx)));
    lemma_slot_get_set(d2, "model_providers"@, TomlValue::Table(mpx), "model_provider"@);
    lemma_unique_set(d2, "model_providers"@, TomlValue::Table(mpx));
}

/// Removing the relay's entry from a document without a key twice, whose
/// root names the provider, leaves no provider named at the root, so the
/// status is the official endpoint's.
proof fn lemma_remove_restores_official(
    d: Seq<(Seq<char>, TomlValue)>,
    s: RelaySettingsV,
    config_path: Seq<char>,
    codex_running: bool,
)
    requires
        unique_keys(d),
        slot_get(d, "model_provider"@) == Some(TomlValue::Str(s.provider_id)),
        normalized_provider_id(s.provider_id) == s.provider_id,
    ensures
        ({
            let st = relay_status_doc_v(config_path, Some(remove_relay_slots(d, s.provider_id)), s, codex_running);
            &&& !st.configured
            &&& st.route == "official"@
            &&& st.provider_id == s.provider_id
        }),
{
    let id = s.provider_id;
    reveal_strlit("model_provider");
    reveal_strlit("model_providers");
    assert("model_providers"@ != "model_provider"@) by {
        assert("model_providers"@.len() != "model_provider"@.len());
    }
    assert(relay_owned(id, id));
    let e1 = slot_remove(d, "model_provider"@);
    lemma_unique_remove_gone(d, "model_provider"@);
    assert(slot_get(e1, "model_provider"@) is None);
    let e = remove_relay_slots(d, id);
    match value_table(slot_get(e1, "model_providers"@)) {
        Some(emp) => {
            let m = slot_remove(slot_remove(slot_remove(emp, id), DEFAULT_RELAY_PROVIDER@), LEGACY_RELAY_PROVIDER@);
            lemma_slot_get_remove(e1, "model_providers"@, "model_provider"@);
            lemma_slot_get_set(e1, "model_providers"@, TomlValue::Table(m), "model_provider"@);
        },
        None => {},
    }
    assert(slot_get(e, "model_provider"@) is None);
    assert(root_provider(e) is None);
    assert(configured_provider_doc(e, s) == Seq::<char>::empty());
    assert(relay_status_doc_v(config_path, Some(e), s, codex_running).provider_id == id);
}

/// Clearing the relay after applying it restores the official endpoint.
/// Whatever the configuration document held (a TOML table, so no key
/// twice), once the relay's entry is written with the settings as they are
/// stored and then removed again for the same provider, the document's
/// status is not configured and routed to the official endpoint, under the
/// settings' provider.
pub proof fn law_clear_after_apply_restores_official(
    doc: Seq<(Seq<char>, TomlValue)>,
    raw: RelaySettingsV,
    config_path: Seq<char>,
    codex_running: bool,
)
    requires
        unique_keys(doc),
        settings_error(normalized_settings(raw)) is None,
    ensures
        ({
            let s = normalized_settings(raw);
            let d = remove_relay_slots(upsert_relay_slots(doc, s), s.provider_id);
            let st = relay_status_doc_v(config_path, Some(d), s, codex_running);
            &&& !st.configured
            &&& st.route == "official"@
            &&& st.provider_id == s.provider_id
        }),
{
    let s = normalized_settings(raw);
    law_normalize_idempotent(raw);
    lemma_upsert_names_provider(doc, s);
    lemma_remove_restores_official(upsert_relay_slots(doc, s), s, config_path, codex_running);
}

/// The same holds of the written text. Whatever document the applied
/// configuration text parses back to (one that shows the document that was
/// written, see `shows`, and, as any TOML table, has no key twice),
/// clearing the relay from it leaves the official endpoint.
pub proof fn law_clear_after_apply_text_restores_official(
    doc: Seq<(Seq<char>, TomlValue)>,
    raw: RelaySettingsV,
    read_back: Seq<(Seq<char>, TomlValue)>,
    config_path: Seq<char>,
    codex_running: bool,
)
    requires
        unique_keys(doc),
        unique_keys(read_back),
        settings_error(normalized_settings(raw)) is None,
        shows(read_back, upsert_relay_slots(doc, normalized_settings(raw))),
    ensures
        ({
            let s = normalized_settings(raw);
            let d = remove_relay_slots(read_back, s.provider_id);
            let st = relay_status_doc_v(config_path, Some(d), s, codex_running);
            &&& !st.configured
            &&& st.route == "official"@
            &&& st.provider_id == s.provider_id
        }),
{
    let s = normalized_settings(raw);
    law_normalize_idempotent(raw);
    lemma_upsert_names_provider(doc, s);
    let path = seq!["model_provider"@];
    assert(path[0] == "model_provider"@);
    assert(at_path(upsert_relay_slots(doc, s), path) == Some(TomlValue::Str(s.provider_id)));
    assert(at_path(read_back, path) == at_path(upsert_relay_slots(doc, s), path));
    assert(slot_get(read_back, "model_provider"@) == Some(TomlValue::Str(s.provider_id)));
    lemma_remove_restores_official(read_back, s, config_path, codex_running);
}


/// The applied configuration text names the relay's provider and holds its
/// table: whatever else the configuration held, the document the written
/// text parses back to has `model_provider` set to the provider and
/// `[model_providers.<provider>]` with the settings' base URL and key.
pub proof fn law_applied_text_writes_relay(
    doc: Seq<(Seq<char>, TomlValue)>,
    raw: RelaySettingsV,
    text: Seq<char>,
)
    requires
        settings_error(normalized_settings(raw)) is None,
        text_shows(text, upsert_relay_slots(doc, normalized_settings(raw))),
    ensures
        ({
            let s = normalized_settings(raw);
            let id = s.provider_id;
            &&& parsed_toml(text) is Some
            &&& at_path(parsed_toml(text)->0, seq!["model_provider"@]) == Some(TomlValue::Str(id))
            &&& at_path(parsed_toml(text)->0, seq!["model_providers"@, id, "base_url"@]) == Some(TomlValue::Str(s.base_url))
            &&& at_path(parsed_toml(text)->0, seq!["model_providers"@, id, "experimental_bearer_token"@])
                == Some(TomlValue::Str(s.api_key))
        }),
{
    let s = normalized_settings(raw);
    let id = s.provider_id;
    let u = upsert_relay_slots(doc, s);
    let r = parsed_toml(text)->0;
    law_normalize_idempotent(raw);
    lemma_valid_id_trimmed(id);
    assert(normalized_provider_id(id) == id);
    reveal_strlit("model_provider");
    reveal_strlit("model");
    reveal_strlit("model_providers");
    reveal_strlit("base_url");
    reveal_strlit("experimental_bearer_token");
    reveal_strlit("name");
    reveal_strlit("wire_api");
    reveal_strlit("requires_openai_auth");
    assert("model_providers"@ != "model_provider"@) by {
        assert("model_providers"@.len() != "model_provider"@.len());
    }
    assert("model"@ != "model_provider"@) by {
        assert("model"@.len() != "model_provider"@.len());
    }
    assert("experimental_bearer_token"@ != "base_url"@) by {
        assert("experimental_bearer_token"@.len() != "base_url"@.len());
    }
    // The root provider.
    let d1 = slot_set(doc, "model_provider"@, TomlValue::Str(id));
    lemma_slot_get_set(doc, "model_provider"@, TomlValue::Str(id), "model_provider"@);
    let d2 = match s.test_model {
        Some(m) => if slot_get(d1, "model"@) is None {
            slot_set(d1, "model"@, TomlValue::Str(m))
        } else {
            d1
        },
        None => d1,
    };
    match s.test_model {
        Some(m) => lemma_slot_get_set(d1, "model"@, TomlValue::Str(m), "model_provider"@),
        None => {},
    }
    let mp = match value_table(slot_get(d2, "model_providers"@)) {
        Some(t) => t,
        None => Seq::empty(),
    };
    let pt = relay_provider_slots(id, s.base_url, s.api_key);
    let mpx = slot_set(mp, id, TomlValue::Table(pt));
    assert(u == slot_set(d2, "model_providers"@, TomlValue::Table(mpx)));
    lemma_slot_get_set(d2, "model_providers"@, TomlValue::Table(mpx), "model_provider"@);
    lemma_slot_get_set(d2, "model_providers"@, TomlValue::Table(mpx), "model_providers"@);
    lemma_slot_get_set(mp, id, TomlValue::Table(pt), id);
    // The provider's table.
    let t0 = Seq::<(Seq<char>, TomlValue)>::empty();
    let t1 = slot_set(t0, "name"@, TomlValue::Str(id));
    let t2 = slot_set(t1, "wire_api"@, TomlValue::Str("responses"@));
    let t3 = slot_set(t2, "requires_openai_auth"@, TomlValue::Bool(true));
    let t4 = slot_set(t3, "base_url"@, TomlValue::Str(s.base_url));
    lemma_slot_get_set(t3, "base_url"@, TomlValue::Str(s.base_url), "base_url"@);
    lemma_slot_get_set(t4, "experimental_bearer_token"@, TomlValue::Str(s.api_key), "base_url"@);
    lemma_slot_get_set(t4, "experimental_bearer_token"@, TomlValue::Str(s.api_key), "experimental_bearer_token"@);
    assert(slot_get(pt, "base_url"@) == Some(TomlValue::Str(s.base_url)));
    assert(slot_get(pt, "experimental_bearer_token"@) == Some(TomlValue::Str(s.api_key)));
    let top = seq!["model_provider"@];
    assert(top[0] == "model_provider"@);
    assert(at_path(u, top) == Some(TomlValue::Str(id)));
    assert(at_path(r, top) == at_path(u, top));
    let p1 = seq!["model_providers"@, id, "base_url"@];
    let p2 = seq!["model_providers"@, id, "experimental_bearer_token"@];
    let q1 = seq![id, "base_url"@];
    let q2 = seq![id, "experimental_bearer_token"@];
    assert(p1 =~= seq!["model_providers"@] + q1);
    assert(p2 =~= seq!["model_providers"@] + q2);
    assert(q1 =~= seq![id] + seq!["base_url"@]);
    assert(q2 =~= seq![id] + seq!["experimental_bearer_token"@]);
    lemma_at_path_under(u, "model_providers"@, q1);
    lemma_at_path_under(u, "model_providers"@, q2);
    lemma_at_path_under(mpx, id, seq!["base_url"@]);
    lemma_at_path_under(mpx, id, seq!["experimental_bearer_token"@]);
    assert(seq!["base_url"@][0] == "base_url"@);
    assert(seq!["experimental_bearer_token"@][0] == "experimental_bearer_token"@);
    assert(at_path(u, p1) == Some(TomlValue::Str(s.base_url)));
    assert(at_path(u, p2) == Some(TomlValue::Str(s.api_key)));
    assert(at_path(r, p1) == at_path(u, p1));
    assert(at_path(r, p2) == at_path(u, p2));
}

/// The configuration text written by clearing the relay holds none of its
/// keys: whatever document it cleared (one without a key twice, as any TOML
/// table), the document the text parses back to names no owned provider at
/// the root and has no `[model_providers.<x>]` for the provider, `moapi` or
/// `CodexViewerRelay`.
pub proof fn law_cleared_text_drops_relay(
    doc: Seq<(Seq<char>, TomlValue)>,
    id: Seq<char>,
    text: Seq<char>,
    x: Seq<char>,
)
    requires
        unique_keys(doc),
        value_table(slot_get(doc, "model_providers"@)) matches Some(t) ==> unique_keys(t),
        text_shows(text, remove_relay_slots(doc, id)),
        x == id || x == DEFAULT_RELAY_PROVIDER@ || x == LEGACY_RELAY_PROVIDER@,
    ensures
        parsed_toml(text) is Some,
        (value_str(slot_get(doc, "model_provider"@)) matches Some(p) && relay_owned(p, id)) ==> at_path(
            parsed_toml(text)->0,
            seq!["model_provider"@],
        ) is None,
        at_path(parsed_toml(text)->0, seq!["model_providers"@, x]) is None,
{
    let u = remove_relay_slots(doc, id);
    let r = parsed_toml(text)->0;
    reveal_strlit("model_provider");
    reveal_strlit("model_providers");
    assert("model_providers"@ != "model_provider"@) by {
        assert("model_providers"@.len() != "model_provider"@.len());
    }
    let owned = value_str(slot_get(doc, "model_provider"@)) matches Some(p) && relay_owned(p, id);
    let d1 = if owned {
        slot_remove(doc, "model_provider"@)
    } else {
        doc
    };
    if owned {
        lemma_unique_remove_gone(doc, "model_provider"@);
        lemma_slot_get_remove(doc, "model_provider"@, "model_providers"@);
    }
    assert(unique_keys(d1));
    assert(slot_get(d1, "model_providers"@) == slot_get(doc, "model_providers"@));
    let top = seq!["model_provider"@];
    assert(top[0] == "model_provider"@);
    let two = seq!["model_providers"@, x];
    assert(two =~= seq!["model_providers"@] + seq![x]);
    assert(seq![x][0] == x);
    lemma_at_path_under(u, "model_providers"@, seq![x]);
    match value_table(slot_get(d1, "model_providers"@)) {
        Some(mp) => {
            let a = slot_remove(mp, id);
            let b = slot_remove(a, DEFAULT_RELAY_PROVIDER@);
            let m = slot_remove(b, LEGACY_RELAY_PROVIDER@);
            lemma_unique_remove_gone(mp, id);
            lemma_unique_remove_gone(a, DEFAULT_RELAY_PROVIDER@);
            lemma_unique_remove_gone(b, LEGACY_RELAY_PROVIDER@);
            if id != DEFAULT_RELAY_PROVIDER@ {
                lemma_slot_get_remove(a, DEFAULT_RELAY_PROVIDER@, id);
            }
            if id != LEGACY_RELAY_PROVIDER@ {
                lemma_slot_get_remove(b, LEGACY_RELAY_PROVIDER@, id);
            }
            if DEFAULT_RELAY_PROVIDER@ != LEGACY_RELAY_PROVIDER@ {
                lemma_slot_get_remove(b, LEGACY_RELAY_PROVIDER@, DEFAULT_RELAY_PROVIDER@);
            }
            assert(slot_get(m, x) is None);
            if visible_keys(m).len() == 0 {
                lemma_unique_remove_gone(d1, "model_providers"@);
                lemma_slot_get_remove(d1, "model_providers"@, "model_provider"@);
            } else {
                lemma_slot_get_set(d1, "model_providers"@, TomlValue::Table(m), "model_providers"@);
                lemma_slot_get_set(d1, "model_providers"@, TomlValue::Table(m), "model_provider"@);
            }
        },
        None => {},
    }
    if owned {
        assert(slot_get(u, "model_provider"@) is None);
        assert(at_path(u, top) is None);
        if at_path(r, top) is Some {
            assert(at_path(r, top) == at_path(u, top));
        }
    }
    assert(at_path(u, two) is None);
    if at_path(r, two) is Some {
        assert(at_path(r, two) == at_path(u, two));
    }
}

/// Normalizing settings a second time changes nothing: settings are saved
/// normalized and read back as saved.
pub proof fn law_normalize_idempotent(s: RelaySettingsV)
    ensures
        normalized_settings(normalized_settings(s)) == normalized_settings(s),
{
    reveal_strlit("moapi");
    let d = DEFAULT_RELAY_PROVIDER@;
    assert(d.len() == 5 && !is_white_space(d[0]) && !is_white_space(d[4]));
    lemma_trim_fixed(d);
    lemma_trim_idempotent(s.provider_id);
    lemma_trim_idempotent(s.base_url);
    lemma_trim_idempotent(s.api_key);
    match s.test_model {
        Some(m) => lemma_trim_idempotent(m),
        None => {},
    }
}

} // verus!
