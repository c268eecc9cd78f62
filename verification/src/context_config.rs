//! Context entries of Codex's `config.toml`: the tables under
//! `[mcp_servers]`, `[skills]` and `[plugins]`, listed, added or replaced,
//! switched on and off, and deleted.

use vstd::prelude::*;

use toml_edit::{DocumentMut, Table};

use crate::relay_config::{base_doc, config_doc_or_empty, ensure_trailing_newline, lemma_newline_holds};
use crate::router_http::{first_index_of, lemma_first_index_of, split_lines, strip_cr, text_lines, lines_view};
use crate::text::{chars_of, owned, slice_chars, str_eq, string_of, trim_chars, trim_seq, trim_string};
use crate::toml_doc::{
    bool_item, doc_root, doc_root_mut, item_as_bool, item_as_table, item_clone, slot_get, slot_remove,
    slot_set, table_clone, table_get, table_is_empty, table_item, table_keys, table_new, table_remove,
    table_set, toml_doc_slots, toml_item_value, toml_new_doc, toml_render, toml_table_slots, value_table,
    visible_keys, TomlValue, lemma_slot_get_set, lemma_slot_get_remove, lemma_slot_index,
    lemma_unique_remove_gone, lemma_unique_set, slot_index, unique_keys, text_shows, lemma_slot_index_same,
    at_path, shows, kept_value, lemma_same_gets_same_lookups, lemma_same_lookups_set_table, lemma_shows_under,
    lemma_same_lookups_shows, lemma_visible_of_get, lemma_at_path_under, parsed_toml,
};

verus! {

/// One entry: a table under one of the context tables.
#[derive(Debug)]
pub struct ContextEntry {
    pub id: String,
    pub kind: String,
    pub title: String,
    pub summary: String,
    pub toml_body: String,
    pub enabled: bool,
}

/// The entries of the three context tables.
#[derive(Debug)]
pub struct ContextEntries {
    pub mcp_servers: Vec<ContextEntry>,
    pub skills: Vec<ContextEntry>,
    pub plugins: Vec<ContextEntry>,
    pub config_path: String,
}

/// An entry to add or replace, with its TOML body.
#[derive(Debug)]
pub struct ContextEntryInput {
    pub kind: String,
    pub id: String,
    pub toml_body: String,
}

/// An entry to switch on or off.
#[derive(Debug)]
pub struct ContextToggleInput {
    pub kind: String,
    pub id: String,
    pub enabled: bool,
}

/// An entry to delete.
#[derive(Debug)]
pub struct ContextDeleteInput {
    pub kind: String,
    pub id: String,
}

/// What an edit did: the entries afterwards, the backup of the previous
/// file, and a message.
#[derive(Debug)]
pub struct ContextApplyResult {
    pub entries: ContextEntries,
    pub backup_path: Option<String>,
    pub message: String,
}

/// The table that holds entries of a kind.
pub open spec fn table_name_v(kind: Seq<char>) -> Option<Seq<char>> {
    if kind == "mcp"@ || kind == "mcpServer"@ || kind == "mcpServers"@ || kind == "mcp_servers"@ {
        Some("mcp_servers"@)
    } else if kind == "skill"@ || kind == "skills"@ {
        Some("skills"@)
    } else if kind == "plugin"@ || kind == "plugins"@ {
        Some("plugins"@)
    } else {
        None
    }
}

pub fn context_table_name(kind: &str) -> (r: Result<&'static str, String>)
    ensures
        match r {
            Ok(t) => table_name_v(kind@) == Some(t@),
            Err(e) => table_name_v(kind@) is None && e@ == "Unknown entry type."@,
        },
{
    if str_eq(kind, "mcp") || str_eq(kind, "mcpServer") || str_eq(kind, "mcpServers") || str_eq(
        kind,
        "mcp_servers",
    ) {
        Ok("mcp_servers")
    } else if str_eq(kind, "skill") || str_eq(kind, "skills") {
        Ok("skills")
    } else if str_eq(kind, "plugin") || str_eq(kind, "plugins") {
        Ok("plugins")
    } else {
        Err(owned("Unknown entry type."))
    }
}

/// The kind reported for entries of a table.
pub open spec fn kind_name_v(table: Seq<char>) -> Seq<char> {
    if table == "mcp_servers"@ {
        "mcp"@
    } else if table == "skills"@ {
        "skill"@
    } else if table == "plugins"@ {
        "plugin"@
    } else {
        "unknown"@
    }
}

pub fn context_kind_name(table: &str) -> (r: &'static str)
    ensures
        r@ == kind_name_v(table@),
{
    if str_eq(table, "mcp_servers") {
        "mcp"
    } else if str_eq(table, "skills") {
        "skill"
    } else if str_eq(table, "plugins") {
        "plugin"
    } else {
        "unknown"
    }
}

/// An entry is on unless it says `enabled = false` or `disabled = true`.
pub open spec fn entry_enabled_v(t: Seq<(Seq<char>, TomlValue)>) -> bool {
    !(slot_get(t, "enabled"@) == Some(TomlValue::Bool(false)))
        && !(slot_get(t, "disabled"@) == Some(TomlValue::Bool(true)))
}

pub fn context_entry_enabled(table: &Table) -> (r: bool)
    ensures
        r == entry_enabled_v(toml_table_slots(*table)),
{
    let off = match table_get(table, "enabled") {
        Some(i) => match item_as_bool(i) {
            Some(b) => !b,
            None => false,
        },
        None => false,
    };
    if off {
        return false;
    }
    let disabled = match table_get(table, "disabled") {
        Some(i) => match item_as_bool(i) {
            Some(b) => b,
            None => false,
        },
        None => false,
    };
    !disabled
}

/// Characters allowed in an entry id.
pub open spec fn entry_id_char(c: char) -> bool {
    ('a' <= c && c <= 'z') || ('A' <= c && c <= 'Z') || ('0' <= c && c <= '9') || c == '_' || c
        == '-' || c == '.'
}

pub open spec fn valid_entry_id(id: Seq<char>) -> bool {
    forall|i: int| 0 <= i < id.len() ==> #[trigger] entry_id_char(id[i])
}

pub fn validate_entry_id(id: &str) -> (r: Result<(), String>)
    ensures
        match r {
            Ok(()) => valid_entry_id(id@),
            Err(e) => !valid_entry_id(id@) && e@
                == "Entry ID can only contain letters, numbers, dot, underscore and hyphen."@,
        },
{
    let c = chars_of(id);
    let mut i: usize = 0;
    while i < c.len()
        invariant
            c@ == id@,
            i <= c@.len(),
            forall|j: int| 0 <= j < i ==> #[trigger] entry_id_char(c@[j]),
        decreases c.len() - i,
    {
        let ch = c[i];
        if !(('a' <= ch && ch <= 'z') || ('A' <= ch && ch <= 'Z') || ('0' <= ch && ch <= '9') || ch
            == '_' || ch == '-' || ch == '.') {
            assert(!entry_id_char(c@[i as int]));
            return Err(owned("Entry ID can only contain letters, numbers, dot, underscore and hyphen."));
        }
        i += 1;
    }
    Ok(())
}

/// The first line of a body that is neither blank nor a comment, trimmed and
/// cut to 96 characters; empty when there is none.
pub open spec fn summary_v(body: Seq<char>) -> Seq<char> {
    let line = first_content_line(text_lines(body));
    if line.len() <= 96 {
        line
    } else {
        line.take(96)
    }
}

pub open spec fn first_content_line(lines: Seq<Seq<char>>) -> Seq<char>
    decreases lines.len(),
{
    if lines.len() == 0 {
        Seq::empty()
    } else {
        let t = trim_seq(lines[0]);
        if t.len() > 0 && t[0] != '#' {
            t
        } else {
            first_content_line(lines.skip(1))
        }
    }
}

pub fn context_entry_summary(body: &str) -> (r: String)
    ensures
        r@ == summary_v(body@),
{
    let c = chars_of(body);
    let lines = split_lines(&c);
    let ghost lv = lines_view(lines@);
    let mut k: usize = 0;
    proof {
        assert(lv.skip(0) =~= lv);
    }
    while k < lines.len()
        invariant
            k <= lines@.len(),
            lv == lines_view(lines@),
            lv == text_lines(body@),
            first_content_line(lv) == first_content_line(lv.skip(k as int)),
        decreases lines.len() - k,
    {
        let t = trim_chars(&lines[k]);
        proof {
            assert(lv.skip(k as int)[0] == lines@[k as int]@);
            assert(lv.skip(k as int).skip(1) =~= lv.skip(k + 1));
        }
        if t.len() > 0 && t[0] != '#' {
            let n = if t.len() <= 96 {
                t.len()
            } else {
                96
            };
            let out = slice_chars(&t, 0, n);
            proof {
                if t@.len() <= 96 {
                    assert(out@ =~= t@);
                } else {
                    assert(out@ =~= t@.take(96));
                }
            }
            return string_of(&out);
        }
        k += 1;
    }
    proof {
        assert(lv.skip(k as int) =~= Seq::<Seq<char>>::empty());
    }
    String::new()
}

/// A body as it is shown: trimmed, with a final newline, or empty.
pub open spec fn normalized_body(contents: Seq<char>) -> Seq<char> {
    if trim_seq(contents).len() == 0 {
        Seq::empty()
    } else {
        crate::relay_config::with_trailing_newline(trim_seq(contents))
    }
}

pub fn normalize_optional_toml(contents: String) -> (r: String)
    ensures
        r@ == normalized_body(contents@),
{
    let t = trim_string(contents.as_str());
    if t.as_str().is_empty() {
        String::new()
    } else {
        ensure_trailing_newline(t)
    }
}

/// The root slots of the document that holds a table's items: each visible
/// item set in turn.
pub open spec fn copy_items(
    acc: Seq<(Seq<char>, TomlValue)>,
    keys: Seq<Seq<char>>,
    t: Seq<(Seq<char>, TomlValue)>,
) -> Seq<(Seq<char>, TomlValue)>
    decreases keys.len(),
{
    if keys.len() == 0 {
        acc
    } else {
        let prev = copy_items(acc, keys.drop_last(), t);
        match slot_get(t, keys.last()) {
            Some(v) => slot_set(prev, keys.last(), v),
            None => prev,
        }
    }
}

/// A document holding a table's items at its root.
pub fn table_body_doc(table: &Table) -> (r: DocumentMut)
    ensures
        toml_doc_slots(r) == copy_items(
            Seq::empty(),
            visible_keys(toml_table_slots(*table)),
            toml_table_slots(*table),
        ),
{
    let mut doc = toml_new_doc();
    let keys = table_keys(table);
    let ghost ks = visible_keys(toml_table_slots(*table));
    let ghost ts = toml_table_slots(*table);
    let mut i: usize = 0;
    proof {
        assert(ks.take(0) =~= Seq::<Seq<char>>::empty());
    }
    while i < keys.len()
        invariant
            i <= keys@.len(),
            keys@.len() == ks.len(),
            forall|j: int| 0 <= j < keys@.len() ==> #[trigger] keys@[j]@ == ks[j],
            ts == toml_table_slots(*table),
            toml_doc_slots(doc) == copy_items(Seq::empty(), ks.take(i as int), ts),
        decreases keys.len() - i,
    {
        proof {
            assert(ks.take(i + 1).drop_last() =~= ks.take(i as int));
            assert(ks.take(i + 1).last() == keys@[i as int]@);
        }
        match table_get(table, keys[i].as_str()) {
            Some(item) => {
                let copy = item_clone(item);
                table_set(doc_root_mut(&mut doc), keys[i].as_str(), copy);
            },
            None => {},
        }
        i += 1;
    }
    proof {
        assert(ks.take(keys@.len() as int) =~= ks);
    }
    doc
}

/// The items of an entry's table, as the document of its body holds them.
pub open spec fn body_slots(e: Seq<(Seq<char>, TomlValue)>) -> Seq<(Seq<char>, TomlValue)> {
    copy_items(Seq::empty(), visible_keys(e), e)
}

/// A table's items as TOML text, normalized: the text of `table_body_doc`,
/// which parses back to the table's items.
pub fn table_body_to_string(table: &Table) -> (r: String)
    ensures
        exists|text: Seq<char>| r@ == normalized_body(text),
        text_shows(r@, body_slots(toml_table_slots(*table))),
{
    let doc = table_body_doc(table);
    let text = toml_render(&doc);
    let ghost t = text@;
    let r = normalize_optional_toml(text);
    assert(r@ == normalized_body(t));
    proof {
        if trim_seq(t).len() == 0 {
            assert(r@ =~= trim_seq(t));
        } else {
            lemma_newline_holds(trim_seq(t), toml_doc_slots(doc));
        }
    }
    r
}

/// The table of the entry `id` in the context table `table_name`.
pub open spec fn entry_table(doc: Seq<(Seq<char>, TomlValue)>, table_name: Seq<char>, id: Seq<char>) -> Option<
    Seq<(Seq<char>, TomlValue)>,
> {
    match value_table(slot_get(doc, table_name)) {
        Some(t) => value_table(slot_get(t, id)),
        None => None,
    }
}

/// The body of each entry of `v` is TOML text that holds the items of the
/// entry's table in `doc`.
pub open spec fn holds_bodies(v: Seq<ContextEntry>, doc: Seq<(Seq<char>, TomlValue)>, table_name: Seq<char>) -> bool {
    forall|i: int|
        0 <= i < v.len() ==> match entry_table(doc, table_name, (#[trigger] v[i]).id@) {
            Some(e) => text_shows(v[i].toml_body@, body_slots(e)),
            None => false,
        }
}

/// The entries of a context table, in order: each item that is a table,
/// with its key and whether it is on.
pub open spec fn entry_list_v(keys: Seq<Seq<char>>, t: Seq<(Seq<char>, TomlValue)>) -> Seq<(Seq<char>, bool)>
    decreases keys.len(),
{
    if keys.len() == 0 {
        Seq::empty()
    } else {
        let prev = entry_list_v(keys.drop_last(), t);
        match value_table(slot_get(t, keys.last())) {
            Some(e) => prev.push((keys.last(), entry_enabled_v(e))),
            None => prev,
        }
    }
}

/// The entries of the table `table_name` of a document.
pub open spec fn table_entries_v(doc: Seq<(Seq<char>, TomlValue)>, table_name: Seq<char>) -> Seq<(Seq<char>, bool)> {
    match value_table(slot_get(doc, table_name)) {
        Some(t) => entry_list_v(visible_keys(t), t),
        None => Seq::empty(),
    }
}

/// `v` lists the entries `es` of the table `table_name`: id and title are
/// the key, the kind is the table's, the summary is that of the body.
pub open spec fn lists_entries(v: Seq<ContextEntry>, es: Seq<(Seq<char>, bool)>, table_name: Seq<char>) -> bool {
    &&& v.len() == es.len()
    &&& forall|i: int| 0 <= i < v.len() ==> {
        &&& (#[trigger] v[i]).id@ == es[i].0
        &&& v[i].title@ == es[i].0
        &&& v[i].kind@ == kind_name_v(table_name)
        &&& v[i].enabled == es[i].1
        &&& v[i].summary@ == summary_v(v[i].toml_body@)
        &&& exists|text: Seq<char>| v[i].toml_body@ == normalized_body(text)
    }
}

pub fn list_entries_for_table(doc: &DocumentMut, table_name: &str) -> (r: Vec<ContextEntry>)
    ensures
        lists_entries(r@, table_entries_v(toml_doc_slots(*doc), table_name@), table_name@),
        holds_bodies(r@, toml_doc_slots(*doc), table_name@),
{
    let mut out: Vec<ContextEntry> = Vec::new();
    let table = match table_get(doc_root(doc), table_name) {
        Some(i) => match item_as_table(i) {
            Some(t) => t,
            None => return out,
        },
        None => return out,
    };
    let keys = table_keys(table);
    let ghost ts = toml_table_slots(*table);
    let ghost ks = visible_keys(ts);
    let kind = context_kind_name(table_name);
    let mut i: usize = 0;
    proof {
        assert(ks.take(0) =~= Seq::<Seq<char>>::empty());
    }
    while i < keys.len()
        invariant
            i <= keys@.len(),
            keys@.len() == ks.len(),
            forall|j: int| 0 <= j < keys@.len() ==> #[trigger] keys@[j]@ == ks[j],
            ts == toml_table_slots(*table),
            ks == visible_keys(ts),
            value_table(slot_get(toml_doc_slots(*doc), table_name@)) == Some(ts),
            kind@ == kind_name_v(table_name@),
            lists_entries(out@, entry_list_v(ks.take(i as int), ts), table_name@),
            holds_bodies(out@, toml_doc_slots(*doc), table_name@),
        decreases keys.len() - i,
    {
        proof {
            assert(ks.take(i + 1).drop_last() =~= ks.take(i as int));
            assert(ks.take(i + 1).last() == keys@[i as int]@);
        }
        let id = &keys[i];
        match table_get(table, id.as_str()) {
            Some(item) => match item_as_table(item) {
                Some(entry) => {
                    let body = table_body_to_string(entry);
                    let summary = context_entry_summary(body.as_str());
                    let enabled = context_entry_enabled(entry);
                    let ghost before = out@;
                    out.push(
                        ContextEntry {
                            id: id.clone(),
                            kind: owned(kind),
                            title: id.clone(),
                            summary,
                            toml_body: body,
                            enabled,
                        },
                    );
                    proof {
                        let es = entry_list_v(ks.take(i + 1), ts);
                        assert(es == entry_list_v(ks.take(i as int), ts).push((ks[i as int], enabled)));
                        assert forall|j: int| 0 <= j < out@.len() implies {
                            &&& (#[trigger] out@[j]).id@ == es[j].0
                            &&& out@[j].title@ == es[j].0
                            &&& out@[j].kind@ == kind_name_v(table_name@)
                            &&& out@[j].enabled == es[j].1
                            &&& out@[j].summary@ == summary_v(out@[j].toml_body@)
                            &&& exists|text: Seq<char>| out@[j].toml_body@ == normalized_body(text)
                        } by {
                            if j < before.len() {
                                assert(out@[j] == before[j]);
                            }
                        }
                        assert forall|j: int| 0 <= j < out@.len() implies match entry_table(
                            toml_doc_slots(*doc),
                            table_name@,
                            (#[trigger] out@[j]).id@,
                        ) {
                            Some(e) => text_shows(out@[j].toml_body@, body_slots(e)),
                            None => false,
                        } by {
                            if j < before.len() {
                                assert(out@[j] == before[j]);
                            }
                        }
                    }
                },
                None => {},
            },
            None => {},
        }
        i += 1;
    }
    proof {
        assert(ks.take(keys@.len() as int) =~= ks);
    }
    out
}

/// The entries of a document, with the path of its file.
pub fn entries_from_doc(doc: &DocumentMut, config_path: String) -> (r: ContextEntries)
    ensures
        lists_entries(r.mcp_servers@, table_entries_v(toml_doc_slots(*doc), "mcp_servers"@), "mcp_servers"@),
        lists_entries(r.skills@, table_entries_v(toml_doc_slots(*doc), "skills"@), "skills"@),
        lists_entries(r.plugins@, table_entries_v(toml_doc_slots(*doc), "plugins"@), "plugins"@),
        holds_bodies(r.mcp_servers@, toml_doc_slots(*doc), "mcp_servers"@),
        holds_bodies(r.skills@, toml_doc_slots(*doc), "skills"@),
        holds_bodies(r.plugins@, toml_doc_slots(*doc), "plugins"@),
        r.config_path@ == config_path@,
{
    ContextEntries {
        mcp_servers: list_entries_for_table(doc, "mcp_servers"),
        skills: list_entries_for_table(doc, "skills"),
        plugins: list_entries_for_table(doc, "plugins"),
        config_path,
    }
}

/// Why an entry cannot be added, checked in this order.
pub open spec fn upsert_error_v(
    doc: Seq<(Seq<char>, TomlValue)>,
    kind: Seq<char>,
    id: Seq<char>,
    body: Seq<char>,
) -> Option<Seq<char>> {
    let id = trim_seq(id);
    if id.len() == 0 {
        Some("Entry ID cannot be empty."@)
    } else if !valid_entry_id(id) {
        Some("Entry ID can only contain letters, numbers, dot, underscore and hyphen."@)
    } else if table_name_v(kind) is None {
        Some("Unknown entry type."@)
    } else if base_doc(body) is None {
        Some("Codex config.toml is invalid."@)
    } else if slot_get(doc, table_name_v(kind).unwrap()) is Some && value_table(
        slot_get(doc, table_name_v(kind).unwrap()),
    ) is None {
        Some(table_name_v(kind).unwrap() + " must be a TOML table."@)
    } else {
        None
    }
}

/// The document with the entry added or replaced: the body's root becomes
/// the table `[<table>.<id>]` (the context table is created if missing).
pub open spec fn upsert_slots(
    doc: Seq<(Seq<char>, TomlValue)>,
    table_name: Seq<char>,
    id: Seq<char>,
    body: Seq<(Seq<char>, TomlValue)>,
) -> Seq<(Seq<char>, TomlValue)> {
    let t = match value_table(slot_get(doc, table_name)) {
        Some(t) => t,
        None => Seq::empty(),
    };
    slot_set(doc, table_name, TomlValue::Table(slot_set(t, id, TomlValue::Table(body))))
}

pub fn upsert_context_entry(doc: &mut DocumentMut, kind: &str, id: &str, toml_body: &str) -> (r: Result<String, String>)
    ensures
        match r {
            Ok(m) => upsert_error_v(toml_doc_slots(*old(doc)), kind@, id@, toml_body@) is None
                && m@ == "Tool/plugin entry saved."@ && toml_doc_slots(*final(doc)) == upsert_slots(
                toml_doc_slots(*old(doc)),
                table_name_v(kind@).unwrap(),
                trim_seq(id@),
                base_doc(toml_body@).unwrap(),
            ),
            Err(e) => upsert_error_v(toml_doc_slots(*old(doc)), kind@, id@, toml_body@) == Some(e@)
                && toml_doc_slots(*final(doc)) == toml_doc_slots(*old(doc)),
        },
{
    let id = trim_string(id);
    if id.as_str().is_empty() {
        return Err(owned("Entry ID cannot be empty."));
    }
    match validate_entry_id(id.as_str()) {
        Ok(()) => {},
        Err(e) => return Err(e),
    }
    let table_name = match context_table_name(kind) {
        Ok(t) => t,
        Err(e) => return Err(e),
    };
    let body_doc = match config_doc_or_empty(toml_body) {
        Ok(d) => d,
        Err(e) => return Err(e),
    };
    let existing = table_get(doc_root(doc), table_name);
    let mut t = match existing {
        Some(item) => match item_as_table(item) {
            Some(t) => table_clone(t),
            None => {
                let mut m = chars_of(table_name);
                crate::text::push_str_chars(&mut m, " must be a TOML table.");
                return Err(string_of(&m));
            },
        },
        None => table_new(),
    };
    let body = table_clone(doc_root(&body_doc));
    table_set(&mut t, id.as_str(), table_item(body));
    table_set(doc_root_mut(doc), table_name, table_item(t));
    Ok(owned("Tool/plugin entry saved."))
}

/// Why an entry cannot be switched: an unknown kind, or no such entry.
pub open spec fn toggle_error_v(doc: Seq<(Seq<char>, TomlValue)>, kind: Seq<char>, id: Seq<char>) -> Option<Seq<char>> {
    match table_name_v(kind) {
        None => Some("Unknown entry type."@),
        Some(tn) => match value_table(slot_get(doc, tn)) {
            Some(t) => match value_table(slot_get(t, trim_seq(id))) {
                Some(_) => None,
                None => Some("Entry was not found."@),
            },
            None => Some("Entry was not found."@),
        },
    }
}

/// The document with the entry switched: `enabled` set, `disabled` removed.
pub open spec fn toggle_slots(doc: Seq<(Seq<char>, TomlValue)>, table_name: Seq<char>, id: Seq<char>, enabled: bool) -> Seq<(Seq<char>, TomlValue)> {
    let t = value_table(slot_get(doc, table_name)).unwrap();
    let e = value_table(slot_get(t, id)).unwrap();
    let e2 = slot_remove(slot_set(e, "enabled"@, TomlValue::Bool(enabled)), "disabled"@);
    slot_set(doc, table_name, TomlValue::Table(slot_set(t, id, TomlValue::Table(e2))))
}

pub fn toggle_context_entry(doc: &mut DocumentMut, kind: &str, id: &str, enabled: bool) -> (r: Result<String, String>)
    ensures
        match r {
            Ok(m) => toggle_error_v(toml_doc_slots(*old(doc)), kind@, id@) is None && m@ == (if enabled {
                "Tool/plugin entry enabled."@
            } else {
                "Tool/plugin entry disabled."@
            }) && toml_doc_slots(*final(doc)) == toggle_slots(
                toml_doc_slots(*old(doc)),
                table_name_v(kind@).unwrap(),
                trim_seq(id@),
                enabled,
            ),
            Err(e) => toggle_error_v(toml_doc_slots(*old(doc)), kind@, id@) == Some(e@)
                && toml_doc_slots(*final(doc)) == toml_doc_slots(*old(doc)),
        },
{
    let table_name = match context_table_name(kind) {
        Ok(t) => t,
        Err(e) => return Err(e),
    };
    let id = trim_string(id);
    let mut t = match table_get(doc_root(doc), table_name) {
        Some(item) => match item_as_table(item) {
            Some(t) => table_clone(t),
            None => return Err(owned("Entry was not found.")),
        },
        None => return Err(owned("Entry was not found.")),
    };
    let mut e = match table_get(&t, id.as_str()) {
        Some(item) => match item_as_table(item) {
            Some(e) => table_clone(e),
            None => return Err(owned("Entry was not found.")),
        },
        None => return Err(owned("Entry was not found.")),
    };
    table_set(&mut e, "enabled", bool_item(enabled));
    table_remove(&mut e, "disabled");
    table_set(&mut t, id.as_str(), table_item(e));
    table_set(doc_root_mut(doc), table_name, table_item(t));
    Ok(if enabled {
        owned("Tool/plugin entry enabled.")
    } else {
        owned("Tool/plugin entry disabled.")
    })
}

/// The document with the entry deleted; the context table goes when nothing
/// is left in it.
pub open spec fn delete_slots(doc: Seq<(Seq<char>, TomlValue)>, table_name: Seq<char>, id: Seq<char>) -> Seq<(Seq<char>, TomlValue)> {
    match value_table(slot_get(doc, table_name)) {
        Some(t) => {
            let t2 = slot_remove(t, id);
            if visible_keys(t2).len() == 0 {
                slot_remove(doc, table_name)
            } else {
                slot_set(doc, table_name, TomlValue::Table(t2))
            }
        },
        None => doc,
    }
}

pub fn delete_context_entry(doc: &mut DocumentMut, kind: &str, id: &str) -> (r: Result<String, String>)
    ensures
        match r {
            Ok(m) => table_name_v(kind@) is Some && m@ == "Tool/plugin entry deleted."@
                && toml_doc_slots(*final(doc)) == delete_slots(
                toml_doc_slots(*old(doc)),
                table_name_v(kind@).unwrap(),
                trim_seq(id@),
            ),
            Err(e) => table_name_v(kind@) is None && e@ == "Unknown entry type."@
                && toml_doc_slots(*final(doc)) == toml_doc_slots(*old(doc)),
        },
{
    let table_name = match context_table_name(kind) {
        Ok(t) => t,
        Err(e) => return Err(e),
    };
    let existing = match table_get(doc_root(doc), table_name) {
        Some(item) => item_as_table(item),
        None => None,
    };
    match existing {
        Some(t) => {
            let mut t = table_clone(t);
            let id = trim_string(id);
            table_remove(&mut t, id.as_str());
            if table_is_empty(&t) {
                table_remove(doc_root_mut(doc), table_name);
            } else {
                table_set(doc_root_mut(doc), table_name, table_item(t));
            }
        },
        None => {},
    }
    Ok(owned("Tool/plugin entry deleted."))
}

/// `e` lists the entries of the document whose file is `config_path`.
pub open spec fn entries_of(e: ContextEntries, doc: Seq<(Seq<char>, TomlValue)>, config_path: Seq<char>) -> bool {
    &&& lists_entries(e.mcp_servers@, table_entries_v(doc, "mcp_servers"@), "mcp_servers"@)
    &&& lists_entries(e.skills@, table_entries_v(doc, "skills"@), "skills"@)
    &&& lists_entries(e.plugins@, table_entries_v(doc, "plugins"@), "plugins"@)
    &&& holds_bodies(e.mcp_servers@, doc, "mcp_servers"@)
    &&& holds_bodies(e.skills@, doc, "skills"@)
    &&& holds_bodies(e.plugins@, doc, "plugins"@)
    &&& e.config_path@ == config_path
}

/// Listed entries name their own table: every entry listed from
/// `[plugins]` has kind `plugin`, from `[skills]` kind `skill` and from
/// `[mcp_servers]` kind `mcp`, and that kind, given back to an edit, selects
/// the table the entry was listed from.
pub proof fn law_listed_kinds_name_their_tables(e: ContextEntries, doc: Seq<(Seq<char>, TomlValue)>, config_path: Seq<char>)
    requires
        entries_of(e, doc, config_path),
    ensures
        forall|i: int| 0 <= i < e.plugins@.len() ==> (#[trigger] e.plugins@[i]).kind@ == "plugin"@
            && table_name_v(e.plugins@[i].kind@) == Some("plugins"@),
        forall|i: int| 0 <= i < e.skills@.len() ==> (#[trigger] e.skills@[i]).kind@ == "skill"@
            && table_name_v(e.skills@[i].kind@) == Some("skills"@),
        forall|i: int| 0 <= i < e.mcp_servers@.len() ==> (#[trigger] e.mcp_servers@[i]).kind@ == "mcp"@
            && table_name_v(e.mcp_servers@[i].kind@) == Some("mcp_servers"@),
{
    reveal_strlit("mcp_servers");
    reveal_strlit("skills");
    reveal_strlit("plugins");
    reveal_strlit("mcp");
    reveal_strlit("skill");
    reveal_strlit("plugin");
    reveal_strlit("mcpServer");
    reveal_strlit("mcpServers");
    assert("skills"@ != "mcp_servers"@ && "plugins"@ != "mcp_servers"@ && "plugins"@ != "skills"@) by {
        assert("skills"@[0] != "plugins"@[0]);
    }
    assert("skill"@ != "mcp"@ && "skill"@ != "mcpServer"@ && "skill"@ != "mcpServers"@ && "skill"@ != "mcp_servers"@) by {
        assert("skill"@[0] != "mcp"@[0]);
    }
    assert("plugin"@ != "mcp"@ && "plugin"@ != "mcpServer"@ && "plugin"@ != "mcpServers"@ && "plugin"@ != "mcp_servers"@
        && "plugin"@ != "skill"@ && "plugin"@ != "skills"@) by {
        assert("plugin"@[0] != "mcp"@[0] && "plugin"@[0] != "skill"@[0]);
    }
}

/// The entries of the configuration text `contents` of `config_path`.
pub fn list_context_entries(contents: &str, config_path: String) -> (r: Result<ContextEntries, String>)
    ensures
        match r {
            Ok(e) => base_doc(contents@) is Some && entries_of(e, base_doc(contents@).unwrap(), config_path@),
            Err(e) => base_doc(contents@) is None && e@ == "Codex config.toml is invalid."@,
        },
{
    match config_doc_or_empty(contents) {
        Ok(doc) => Ok(entries_from_doc(&doc, config_path)),
        Err(e) => Err(e),
    }
}

/// An edit of the configuration, before it is written: the new text, the
/// entries it holds and the message.
#[derive(Debug)]
pub struct ContextEdit {
    pub contents: String,
    pub entries: ContextEntries,
    pub message: String,
}

impl ContextEdit {
    /// The result to report once the text is written, with the backup made.
    pub fn into_result(self, backup_path: Option<String>) -> (r: ContextApplyResult)
        ensures
            r.entries == self.entries,
            r.message@ == self.message@,
            crate::local_router::opt_str_view(r.backup_path) == crate::local_router::opt_str_view(backup_path),
    {
        ContextApplyResult { entries: self.entries, backup_path, message: self.message }
    }
}

/// The edit for a changed document.
fn finish_edit(doc: &DocumentMut, config_path: String, message: String) -> (r: ContextEdit)
    ensures
        entries_of(r.entries, toml_doc_slots(*doc), config_path@),
        r.message@ == message@,
        crate::text::ends_with(r.contents@, seq!['\n']),
        text_shows(r.contents@, toml_doc_slots(*doc)),
{
    let text = toml_render(doc);
    proof {
        lemma_newline_holds(text@, toml_doc_slots(*doc));
    }
    let contents = ensure_trailing_newline(text);
    ContextEdit { contents, entries: entries_from_doc(doc, config_path), message }
}

/// Adds or replaces an entry in the configuration text `contents` of
/// `config_path`.
pub fn upsert_context_entry_default(input: &ContextEntryInput, contents: &str, config_path: String) -> (r: Result<ContextEdit, String>)
    ensures
        match r {
            Ok(edit) => base_doc(contents@) is Some && upsert_error_v(base_doc(contents@).unwrap(), input.kind@, input.id@, input.toml_body@) is None
                && edit.message@ == "Tool/plugin entry saved."@ && entries_of(
                edit.entries,
                upsert_slots(
                    base_doc(contents@).unwrap(),
                    table_name_v(input.kind@).unwrap(),
                    trim_seq(input.id@),
                    base_doc(input.toml_body@).unwrap(),
                ),
                config_path@,
            ) && text_shows(
                edit.contents@,
                upsert_slots(
                    base_doc(contents@).unwrap(),
                    table_name_v(input.kind@).unwrap(),
                    trim_seq(input.id@),
                    base_doc(input.toml_body@).unwrap(),
                ),
            ),
            Err(e) => (base_doc(contents@) is None && e@ == "Codex config.toml is invalid."@) || (base_doc(contents@) is Some
                && upsert_error_v(base_doc(contents@).unwrap(), input.kind@, input.id@, input.toml_body@) == Some(e@)),
        },
{
    let mut doc = match config_doc_or_empty(contents) {
        Ok(d) => d,
        Err(e) => return Err(e),
    };
    let message = match upsert_context_entry(&mut doc, input.kind.as_str(), input.id.as_str(), input.toml_body.as_str()) {
        Ok(m) => m,
        Err(e) => return Err(e),
    };
    Ok(finish_edit(&doc, config_path, message))
}

/// Switches an entry on or off in the configuration text `contents` of
/// `config_path`.
pub fn toggle_context_entry_default(input: &ContextToggleInput, contents: &str, config_path: String) -> (r: Result<ContextEdit, String>)
    ensures
        match r {
            Ok(edit) => base_doc(contents@) is Some && toggle_error_v(base_doc(contents@).unwrap(), input.kind@, input.id@) is None
                && edit.message@ == (if input.enabled {
                "Tool/plugin entry enabled."@
            } else {
                "Tool/plugin entry disabled."@
            }) && entries_of(
                edit.entries,
                toggle_slots(
                    base_doc(contents@).unwrap(),
                    table_name_v(input.kind@).unwrap(),
                    trim_seq(input.id@),
                    input.enabled,
                ),
                config_path@,
            ) && text_shows(
                edit.contents@,
                toggle_slots(
                    base_doc(contents@).unwrap(),
                    table_name_v(input.kind@).unwrap(),
                    trim_seq(input.id@),
                    input.enabled,
                ),
            ),
            Err(e) => (base_doc(contents@) is None && e@ == "Codex config.toml is invalid."@) || (base_doc(contents@) is Some
                && toggle_error_v(base_doc(contents@).unwrap(), input.kind@, input.id@) == Some(e@)),
        },
{
    let mut doc = match config_doc_or_empty(contents) {
        Ok(d) => d,
        Err(e) => return Err(e),
    };
    let message = match toggle_context_entry(&mut doc, input.kind.as_str(), input.id.as_str(), input.enabled) {
        Ok(m) => m,
        Err(e) => return Err(e),
    };
    Ok(finish_edit(&doc, config_path, message))
}

/// Deletes an entry from the configuration text `contents` of
/// `config_path`.
pub fn delete_context_entry_default(input: &ContextDeleteInput, contents: &str, config_path: String) -> (r: Result<ContextEdit, String>)
    ensures
        match r {
            Ok(edit) => base_doc(contents@) is Some && table_name_v(input.kind@) is Some
                && edit.message@ == "Tool/plugin entry deleted."@ && entries_of(
                edit.entries,
                delete_slots(base_doc(contents@).unwrap(), table_name_v(input.kind@).unwrap(), trim_seq(input.id@)),
                config_path@,
            ) && text_shows(
                edit.contents@,
                delete_slots(base_doc(contents@).unwrap(), table_name_v(input.kind@).unwrap(), trim_seq(input.id@)),
            ),
            Err(e) => (base_doc(contents@) is None && e@ == "Codex config.toml is invalid."@) || (base_doc(contents@) is Some
                && table_name_v(input.kind@) is None && e@ == "Unknown entry type."@),
        },
{
    let mut doc = match config_doc_or_empty(contents) {
        Ok(d) => d,
        Err(e) => return Err(e),
    };
    let message = match delete_context_entry(&mut doc, input.kind.as_str(), input.id.as_str()) {
        Ok(m) => m,
        Err(e) => return Err(e),
    };
    Ok(finish_edit(&doc, config_path, message))
}


/// Replacing a non-empty slot by another non-empty item keeps the keys
/// that show.
proof fn lemma_visible_keys_update(t: Seq<(Seq<char>, TomlValue)>, i: int, v: TomlValue)
    requires
        0 <= i < t.len(),
        !(t[i].1 is Empty),
        !(v is Empty),
    ensures
        visible_keys(t.update(i, (t[i].0, v))) == visible_keys(t),
    decreases t.len(),
{
    let u = t.update(i, (t[i].0, v));
    if i == t.len() - 1 {
        assert(u.drop_last() =~= t.drop_last());
    } else {
        lemma_visible_keys_update(t.drop_last(), i, v);
        assert(u.drop_last() =~= t.drop_last().update(i, (t[i].0, v)));
    }
}

/// The entry list of a table whose entry `id` changed to one switched to
/// `enabled`, the other entries left as they were.
proof fn lemma_entry_list_toggled(
    keys: Seq<Seq<char>>,
    t: Seq<(Seq<char>, TomlValue)>,
    t2: Seq<(Seq<char>, TomlValue)>,
    id: Seq<char>,
    e2: Seq<(Seq<char>, TomlValue)>,
    enabled: bool,
)
    requires
        value_table(slot_get(t, id)) is Some,
        slot_get(t2, id) == Some(TomlValue::Table(e2)),
        entry_enabled_v(e2) == enabled,
        forall|k: Seq<char>| k != id ==> slot_get(t2, k) == slot_get(t, k),
    ensures
        entry_list_v(keys, t2) == entry_list_v(keys, t).map_values(
            |p: (Seq<char>, bool)| if p.0 == id { (p.0, enabled) } else { p },
        ),
    decreases keys.len(),
{
    let f = |p: (Seq<char>, bool)| if p.0 == id { (p.0, enabled) } else { p };
    if keys.len() == 0 {
        assert(entry_list_v(keys, t).map_values(f) =~= Seq::<(Seq<char>, bool)>::empty());
    } else {
        lemma_entry_list_toggled(keys.drop_last(), t, t2, id, e2, enabled);
        let prev = entry_list_v(keys.drop_last(), t);
        let k = keys.last();
        if k == id {
            let e = value_table(slot_get(t, id)).unwrap();
            assert(prev.push((k, entry_enabled_v(e))).map_values(f) =~= prev.map_values(f).push((k, enabled)));
        } else {
            assert(slot_get(t2, k) == slot_get(t, k));
            match value_table(slot_get(t, k)) {
                Some(e) => {
                    assert(prev.push((k, entry_enabled_v(e))).map_values(f) =~= prev.map_values(f).push((k, entry_enabled_v(e))));
                },
                None => {},
            }
        }
    }
}

/// Switching an entry on or off changes its flag and nothing else in its
/// table's list: the entries keep their order, the switched one shows
/// `enabled`, the others keep theirs. The entry's table has no key twice,
/// as in any TOML table.
pub proof fn law_toggle_sets_only_that_flag(
    doc: Seq<(Seq<char>, TomlValue)>,
    kind: Seq<char>,
    id: Seq<char>,
    enabled: bool,
)
    requires
        toggle_error_v(doc, kind, id) is None,
        unique_keys(
            value_table(
                slot_get(value_table(slot_get(doc, table_name_v(kind).unwrap())).unwrap(), trim_seq(id)),
            ).unwrap(),
        ),
    ensures
        ({
            let tn = table_name_v(kind).unwrap();
            let k = trim_seq(id);
            table_entries_v(toggle_slots(doc, tn, k, enabled), tn) == table_entries_v(doc, tn).map_values(
                |p: (Seq<char>, bool)| if p.0 == k { (p.0, enabled) } else { p },
            )
        }),
{
    let tn = table_name_v(kind).unwrap();
    let k = trim_seq(id);
    let t = value_table(slot_get(doc, tn)).unwrap();
    let e = value_table(slot_get(t, k)).unwrap();
    reveal_strlit("enabled");
    reveal_strlit("disabled");
    assert("enabled"@ != "disabled"@) by {
        assert("enabled"@.len() != "disabled"@.len());
    }
    let e1 = slot_set(e, "enabled"@, TomlValue::Bool(enabled));
    lemma_unique_set(e, "enabled"@, TomlValue::Bool(enabled));
    let e2 = slot_remove(e1, "disabled"@);
    lemma_unique_remove_gone(e1, "disabled"@);
    lemma_slot_get_remove(e1, "disabled"@, "enabled"@);
    lemma_slot_get_set(e, "enabled"@, TomlValue::Bool(enabled), "enabled"@);
    assert(entry_enabled_v(e2) == enabled);
    let t2 = slot_set(t, k, TomlValue::Table(e2));
    let d2 = toggle_slots(doc, tn, k, enabled);
    assert(d2 == slot_set(doc, tn, TomlValue::Table(t2)));
    lemma_slot_get_set(doc, tn, TomlValue::Table(t2), tn);
    assert(value_table(slot_get(d2, tn)) == Some(t2));
    lemma_slot_get_set(t, k, TomlValue::Table(e2), k);
    assert forall|x: Seq<char>| x != k implies slot_get(t2, x) == slot_get(t, x) by {
        lemma_slot_get_set(t, k, TomlValue::Table(e2), x);
    }
    lemma_slot_index(t, k);
    let i = slot_index(t, k);
    assert(i >= 0);
    assert(t2 == t.update(i, (t[i].0, TomlValue::Table(e2))));
    lemma_visible_keys_update(t, i, TomlValue::Table(e2));
    lemma_entry_list_toggled(visible_keys(t), t, t2, k, e2, enabled);
}


/// Every entry listed from a table is one of its tables.
proof fn lemma_entry_list_tables(keys: Seq<Seq<char>>, t: Seq<(Seq<char>, TomlValue)>)
    ensures
        forall|j: int| 0 <= j < entry_list_v(keys, t).len() ==> value_table(slot_get(t, #[trigger] entry_list_v(keys, t)[j].0)) is Some,
    decreases keys.len(),
{
    if keys.len() > 0 {
        lemma_entry_list_tables(keys.drop_last(), t);
        let prev = entry_list_v(keys.drop_last(), t);
        let l = entry_list_v(keys, t);
        assert forall|j: int| 0 <= j < l.len() implies value_table(slot_get(t, #[trigger] l[j].0)) is Some by {
            if j < prev.len() {
                assert(l[j] == prev[j]);
            }
        }
    }
}

/// Deleting an entry takes it off its table's list. The document and the
/// table have no key twice, as in any TOML table.
pub proof fn law_delete_removes_entry(doc: Seq<(Seq<char>, TomlValue)>, table_name: Seq<char>, id: Seq<char>)
    requires
        unique_keys(doc),
        value_table(slot_get(doc, table_name)) matches Some(t) ==> unique_keys(t),
    ensures
        forall|j: int| 0 <= j < table_entries_v(delete_slots(doc, table_name, id), table_name).len()
            ==> (#[trigger] table_entries_v(delete_slots(doc, table_name, id), table_name)[j]).0 != id,
{
    let d2 = delete_slots(doc, table_name, id);
    match value_table(slot_get(doc, table_name)) {
        Some(t) => {
            let t2 = slot_remove(t, id);
            lemma_unique_remove_gone(t, id);
            if visible_keys(t2).len() == 0 {
                lemma_unique_remove_gone(doc, table_name);
                assert(table_entries_v(d2, table_name).len() == 0);
            } else {
                lemma_slot_get_set(doc, table_name, TomlValue::Table(t2), table_name);
                assert(value_table(slot_get(d2, table_name)) == Some(t2));
                lemma_entry_list_tables(visible_keys(t2), t2);
            }
        },
        None => {
            assert(d2 == doc);
        },
    }
}


/// The key of a non-empty slot shows.
proof fn lemma_visible_key(t: Seq<(Seq<char>, TomlValue)>, i: int)
    requires
        0 <= i < t.len(),
        !(t[i].1 is Empty),
    ensures
        visible_keys(t).contains(t[i].0),
    decreases t.len(),
{
    if i == t.len() - 1 {
        let v = visible_keys(t);
        assert(v[v.len() - 1] == t[i].0);
    } else {
        lemma_visible_key(t.drop_last(), i);
        let d = visible_keys(t.drop_last());
        let j = choose|j: int| 0 <= j < d.len() && d[j] == t[i].0;
        assert(visible_keys(t)[j] == d[j]);
    }
}

/// A listed key whose item is a table gives an entry.
proof fn lemma_entry_listed(keys: Seq<Seq<char>>, t: Seq<(Seq<char>, TomlValue)>, k: Seq<char>, e: Seq<(Seq<char>, TomlValue)>)
    requires
        keys.contains(k),
        value_table(slot_get(t, k)) == Some(e),
    ensures
        entry_list_v(keys, t).contains((k, entry_enabled_v(e))),
    decreases keys.len(),
{
    let prev = entry_list_v(keys.drop_last(), t);
    if keys.last() == k {
        let l = entry_list_v(keys, t);
        assert(l[l.len() - 1] == (k, entry_enabled_v(e)));
    } else {
        let j = choose|j: int| 0 <= j < keys.len() && keys[j] == k;
        assert(keys.drop_last()[j] == k);
        lemma_entry_listed(keys.drop_last(), t, k, e);
        let m = choose|m: int| 0 <= m < prev.len() && prev[m] == (k, entry_enabled_v(e));
        let l = entry_list_v(keys, t);
        assert(l[m] == prev[m]);
    }
}

/// An entry added or replaced is listed under its id, with the flag its
/// body gives.
pub proof fn law_upsert_lists_entry(
    doc: Seq<(Seq<char>, TomlValue)>,
    table_name: Seq<char>,
    id: Seq<char>,
    body: Seq<(Seq<char>, TomlValue)>,
)
    ensures
        table_entries_v(upsert_slots(doc, table_name, id, body), table_name).contains((id, entry_enabled_v(body))),
{
    let t = match value_table(slot_get(doc, table_name)) {
        Some(t) => t,
        None => Seq::empty(),
    };
    let t2 = slot_set(t, id, TomlValue::Table(body));
    lemma_slot_get_set(doc, table_name, TomlValue::Table(t2), table_name);
    lemma_slot_get_set(t, id, TomlValue::Table(body), id);
    lemma_slot_index(t2, id);
    let i = slot_index(t2, id);
    assert(i >= 0);
    lemma_visible_key(t2, i);
    lemma_entry_listed(visible_keys(t2), t2, id, body);
}


/// Deleting the same entry a second time changes nothing. The document and
/// the table have no key twice, as in any TOML table.
pub proof fn law_delete_twice_changes_nothing(doc: Seq<(Seq<char>, TomlValue)>, table_name: Seq<char>, id: Seq<char>)
    requires
        unique_keys(doc),
        value_table(slot_get(doc, table_name)) matches Some(t) ==> unique_keys(t),
    ensures
        delete_slots(delete_slots(doc, table_name, id), table_name, id) == delete_slots(doc, table_name, id),
{
    let d2 = delete_slots(doc, table_name, id);
    match value_table(slot_get(doc, table_name)) {
        Some(t) => {
            let t2 = slot_remove(t, id);
            lemma_unique_remove_gone(t, id);
            assert(slot_index(t2, id) < 0);
            if visible_keys(t2).len() == 0 {
                lemma_unique_remove_gone(doc, table_name);
                assert(value_table(slot_get(d2, table_name)) is None);
            } else {
                lemma_slot_get_set(doc, table_name, TomlValue::Table(t2), table_name);
                assert(value_table(slot_get(d2, table_name)) == Some(t2));
                assert(slot_remove(t2, id) == t2);
                lemma_slot_index(doc, table_name);
                let i = slot_index(doc, table_name);
                lemma_slot_index(d2, table_name);
                assert(d2 == doc.update(i, (table_name, TomlValue::Table(t2))));
                assert(slot_index(d2, table_name) == i) by {
                    lemma_slot_index_same(doc, d2, table_name);
                }
                assert(slot_set(d2, table_name, TomlValue::Table(t2)) =~= d2);
            }
        },
        None => {},
    }
}


/// The text written by saving an entry holds the entry as given: in the
/// document the text parses back to, every value of the body stands under
/// `[<table>.<id>]` at its own key path, and nothing stands there that the
/// body does not hold.
pub proof fn law_upserted_text_holds_entry(
    doc: Seq<(Seq<char>, TomlValue)>,
    table_name: Seq<char>,
    id: Seq<char>,
    body: Seq<(Seq<char>, TomlValue)>,
    text: Seq<char>,
    q: Seq<Seq<char>>,
)
    requires
        text_shows(text, upsert_slots(doc, table_name, id, body)),
        q.len() > 0,
    ensures
        parsed_toml(text) is Some,
        at_path(body, q) is Some && kept_value(at_path(body, q)->0) ==> at_path(
            parsed_toml(text)->0,
            seq![table_name, id] + q,
        ) == at_path(body, q),
        at_path(parsed_toml(text)->0, seq![table_name, id] + q) is Some ==> at_path(
            parsed_toml(text)->0,
            seq![table_name, id] + q,
        ) == at_path(body, q),
{
    let u = upsert_slots(doc, table_name, id, body);
    let t = match value_table(slot_get(doc, table_name)) {
        Some(t) => t,
        None => Seq::empty(),
    };
    let t2 = slot_set(t, id, TomlValue::Table(body));
    lemma_slot_get_set(doc, table_name, TomlValue::Table(t2), table_name);
    lemma_slot_get_set(t, id, TomlValue::Table(body), id);
    let p = seq![table_name, id] + q;
    assert(p =~= seq![table_name] + (seq![id] + q));
    lemma_at_path_under(u, table_name, seq![id] + q);
    lemma_at_path_under(t2, id, q);
    assert(at_path(u, p) == at_path(body, q));
}

/// The text written by switching an entry sets its flag: whatever else the
/// configuration held, the document the text parses back to has the entry's
/// `enabled` set as asked and no `disabled` key in it (the entry's table,
/// as any TOML table, has no key twice).
pub proof fn law_toggled_text_sets_the_flag(
    doc: Seq<(Seq<char>, TomlValue)>,
    kind: Seq<char>,
    id: Seq<char>,
    enabled: bool,
    text: Seq<char>,
)
    requires
        toggle_error_v(doc, kind, id) is None,
        unique_keys(
            value_table(
                slot_get(value_table(slot_get(doc, table_name_v(kind).unwrap())).unwrap(), trim_seq(id)),
            ).unwrap(),
        ),
        text_shows(text, toggle_slots(doc, table_name_v(kind).unwrap(), trim_seq(id), enabled)),
    ensures
        ({
            let tn = table_name_v(kind).unwrap();
            let k = trim_seq(id);
            &&& parsed_toml(text) is Some
            &&& at_path(parsed_toml(text)->0, seq![tn, k, "enabled"@]) == Some(TomlValue::Bool(enabled))
            &&& at_path(parsed_toml(text)->0, seq![tn, k, "disabled"@]) is None
        }),
{
    let tn = table_name_v(kind).unwrap();
    let k = trim_seq(id);
    let u = toggle_slots(doc, tn, k, enabled);
    let r = parsed_toml(text)->0;
    let t = value_table(slot_get(doc, tn)).unwrap();
    let e = value_table(slot_get(t, k)).unwrap();
    reveal_strlit("enabled");
    reveal_strlit("disabled");
    assert("enabled"@ != "disabled"@) by {
        assert("enabled"@.len() != "disabled"@.len());
    }
    let e1 = slot_set(e, "enabled"@, TomlValue::Bool(enabled));
    let e2 = slot_remove(e1, "disabled"@);
    lemma_slot_get_set(e, "enabled"@, TomlValue::Bool(enabled), "enabled"@);
    lemma_slot_get_remove(e1, "disabled"@, "enabled"@);
    lemma_unique_set(e, "enabled"@, TomlValue::Bool(enabled));
    lemma_unique_remove_gone(e1, "disabled"@);
    let t2 = slot_set(t, k, TomlValue::Table(e2));
    lemma_slot_get_set(t, k, TomlValue::Table(e2), k);
    lemma_slot_get_set(doc, tn, TomlValue::Table(t2), tn);
    let pe = seq![tn, k, "enabled"@];
    let pd = seq![tn, k, "disabled"@];
    assert(pe =~= seq![tn] + seq![k, "enabled"@]);
    assert(pd =~= seq![tn] + seq![k, "disabled"@]);
    assert(seq![k, "enabled"@] =~= seq![k] + seq!["enabled"@]);
    assert(seq![k, "disabled"@] =~= seq![k] + seq!["disabled"@]);
    lemma_at_path_under(u, tn, seq![k, "enabled"@]);
    lemma_at_path_under(u, tn, seq![k, "disabled"@]);
    lemma_at_path_under(t2, k, seq!["enabled"@]);
    lemma_at_path_under(t2, k, seq!["disabled"@]);
    assert(seq!["enabled"@][0] == "enabled"@);
    assert(seq!["disabled"@][0] == "disabled"@);
    assert(at_path(u, pe) == Some(TomlValue::Bool(enabled)));
    assert(at_path(u, pd) is None);
    assert(at_path(r, pe) == at_path(u, pe));
    if at_path(r, pd) is Some {
        assert(at_path(r, pd) == at_path(u, pd));
    }
}

/// The text written by deleting an entry no longer holds it: the document
/// the text parses back to has no entry `id` in the context table, and no
/// context table at all when the entry was its last item (the document and
/// the table, as any TOML table, have no key twice).
pub proof fn law_deleted_text_drops_entry(
    doc: Seq<(Seq<char>, TomlValue)>,
    table_name: Seq<char>,
    id: Seq<char>,
    text: Seq<char>,
)
    requires
        unique_keys(doc),
        value_table(slot_get(doc, table_name)) matches Some(t) ==> unique_keys(t),
        text_shows(text, delete_slots(doc, table_name, id)),
    ensures
        parsed_toml(text) is Some,
        at_path(parsed_toml(text)->0, seq![table_name, id]) is None,
        (value_table(slot_get(doc, table_name)) matches Some(t) && visible_keys(slot_remove(t, id)).len() == 0)
            ==> at_path(parsed_toml(text)->0, seq![table_name]) is None,
{
    let u = delete_slots(doc, table_name, id);
    let r = parsed_toml(text)->0;
    let top = seq![table_name];
    let two = seq![table_name, id];
    assert(top[0] == table_name);
    assert(two =~= seq![table_name] + seq![id]);
    assert(seq![id][0] == id);
    lemma_at_path_under(u, table_name, seq![id]);
    match value_table(slot_get(doc, table_name)) {
        Some(t) => {
            let t1 = slot_remove(t, id);
            lemma_unique_remove_gone(t, id);
            if visible_keys(t1).len() == 0 {
                lemma_unique_remove_gone(doc, table_name);
                assert(at_path(u, top) is None);
                if at_path(r, top) is Some {
                    assert(at_path(r, top) == at_path(u, top));
                }
            } else {
                lemma_slot_get_set(doc, table_name, TomlValue::Table(t1), table_name);
            }
        },
        None => {},
    }
    assert(at_path(u, two) is None);
    if at_path(r, two) is Some {
        assert(at_path(r, two) == at_path(u, two));
    }
}

/// Deleting the entry again from the text the first delete wrote changes
/// nothing either. Whatever document that text parses back to (one that
/// shows the document after the first delete, see `shows`, and, as any TOML
/// table, has no key twice), deleting the same entry from it leaves a
/// document that again shows the one after the first delete.
pub proof fn law_delete_again_on_text_keeps_lookups(
    doc: Seq<(Seq<char>, TomlValue)>,
    read_back: Seq<(Seq<char>, TomlValue)>,
    table_name: Seq<char>,
    id: Seq<char>,
)
    requires
        unique_keys(doc),
        value_table(slot_get(doc, table_name)) matches Some(t) ==> unique_keys(t),
        unique_keys(read_back),
        value_table(slot_get(read_back, table_name)) matches Some(t) ==> unique_keys(t),
        shows(read_back, delete_slots(doc, table_name, id)),
    ensures
        shows(delete_slots(read_back, table_name, id), delete_slots(doc, table_name, id)),
{
    let s1 = delete_slots(doc, table_name, id);
    let top = seq![table_name];
    assert(top[0] == table_name);
    match value_table(slot_get(read_back, table_name)) {
        Some(t) => {
            // The first delete left a table under the name, with the entry gone.
            assert(at_path(read_back, top) is Some);
            assert(at_path(read_back, top) == at_path(s1, top));
            let t0 = value_table(slot_get(doc, table_name)).unwrap();
            let t1 = slot_remove(t0, id);
            lemma_unique_remove_gone(t0, id);
            if visible_keys(t1).len() == 0 {
                lemma_unique_remove_gone(doc, table_name);
            }
            lemma_slot_get_set(doc, table_name, TomlValue::Table(t1), table_name);
            assert(slot_get(s1, table_name) == Some(TomlValue::Table(t1)));
            lemma_shows_under(read_back, s1, table_name, t, t1);
            let one = seq![id];
            assert(one[0] == id);
            if at_path(t, one) is Some {
                assert(at_path(t, one) == at_path(t1, one));
            }
            assert(slot_get(t, id) is None);
            let t2 = slot_remove(t, id);
            lemma_unique_remove_gone(t, id);
            assert forall|k: Seq<char>| #[trigger] slot_get(t2, k) == slot_get(t, k) by {
                if k != id {
                    lemma_slot_get_remove(t, id, k);
                }
            }
            let x = delete_slots(read_back, table_name, id);
            if visible_keys(t2).len() > 0 {
                lemma_same_gets_same_lookups(t2, t);
                lemma_same_lookups_set_table(read_back, table_name, t, t2);
                assert(x == slot_set(read_back, table_name, TomlValue::Table(t2)));
                lemma_same_lookups_shows(x, read_back, s1);
            } else {
                // Nothing of the table is left: no value of `s1` lies under it.
                assert(x == slot_remove(read_back, table_name));
                lemma_unique_remove_gone(read_back, table_name);
                assert forall|path: Seq<Seq<char>>| #[trigger] at_path(x, path) is Some implies at_path(x, path) == at_path(s1, path) by {
                    assert(path[0] != table_name);
                    lemma_slot_get_remove(read_back, table_name, path[0]);
                    assert(at_path(x, path) == at_path(read_back, path));
                }
                assert forall|path: Seq<Seq<char>>|
                    #[trigger] at_path(s1, path) is Some && kept_value(at_path(s1, path)->0) implies at_path(x, path) == at_path(s1, path) by {
                    if path[0] == table_name {
                        if path.len() > 1 {
                            let q = path.drop_first();
                            assert(path =~= seq![table_name] + q);
                            lemma_at_path_under(s1, table_name, q);
                            assert(at_path(t1, q) is Some && kept_value(at_path(t1, q)->0));
                            assert(at_path(t, q) == at_path(t1, q));
                            assert(slot_get(t, q[0]) is Some);
                            assert(slot_get(t2, q[0]) is Some);
                            lemma_visible_of_get(t2, q[0]);
                        }
                    } else {
                        lemma_slot_get_remove(read_back, table_name, path[0]);
                        assert(at_path(x, path) == at_path(read_back, path));
                    }
                }
            }
        },
        None => {
            assert(delete_slots(read_back, table_name, id) == read_back);
        },
    }
}

} // verus!
