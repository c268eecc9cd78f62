//! The files a history synchronisation touches: which files hold sessions,
//! how the first line of a session file is split from its separator, how
//! the session metadata is moved to another provider, and what the backup
//! records about each change.

use vstd::prelude::*;

use crate::history_sync::entry_index;
use crate::json::{entries_model, jv, obj, push_entry, Json, JsonV, int_v, json_i64, json_u64};
use crate::text::{chars_of, ends_with, ends_with_exec, owned, starts_with, starts_with_exec};

verus! {

/// The namespace that marks the backups this tool makes.
pub const BACKUP_NAMESPACE: &'static str = "codex-toolkit-history-sync";

/// The file name of Codex's state database.
pub const DB_FILE_BASENAME: &'static str = "state_5.sqlite";

/// The two directories that hold session files.
pub const SESSION_DIRS: [&'static str; 2] = ["sessions", "archived_sessions"];

/// A session file is named `rollout-*.jsonl`.
pub open spec fn rollout_name_v(name: Seq<char>) -> bool {
    starts_with(name, "rollout-"@) && ends_with(name, ".jsonl"@)
}

/// Whether a file name is that of a session file.
pub fn is_rollout_file_name(name: &str) -> (r: bool)
    ensures
        r == rollout_name_v(name@),
{
    let n = chars_of(name);
    let p = chars_of("rollout-");
    let s = chars_of(".jsonl");
    starts_with_exec(&n, &p) && ends_with_exec(&n, &s)
}

/// The first line of a file read up to and including its first `\n`: the
/// line without its separator, and the separator (`\r\n`, `\n`, or nothing
/// at the end of the file).
pub open spec fn first_line_v(line: Seq<u8>) -> (Seq<u8>, Seq<char>) {
    if line.len() >= 2 && line[line.len() - 2] == 13u8 && line[line.len() - 1] == 10u8 {
        (line.subrange(0, line.len() - 2), "\r\n"@)
    } else if line.len() >= 1 && line[line.len() - 1] == 10u8 {
        (line.subrange(0, line.len() - 1), "\n"@)
    } else {
        (line, ""@)
    }
}

/// Splits the separator off the first line of a file.
pub fn split_first_line(line: Vec<u8>) -> (r: (Vec<u8>, String))
    ensures
        (r.0@, r.1@) == first_line_v(line@),
{
    let mut line = line;
    let n = line.len();
    if n >= 2 && line[n - 2] == 13u8 && line[n - 1] == 10u8 {
        line.truncate(n - 2);
        (line, owned("\r\n"))
    } else if n >= 1 && line[n - 1] == 10u8 {
        line.truncate(n - 1);
        (line, owned("\n"))
    } else {
        (line, owned(""))
    }
}

/// Sets the member `key` of an object's entries: the first entry for it is
/// replaced, or a new entry is appended.
pub open spec fn set_member_v(es: Seq<(Seq<char>, JsonV)>, key: Seq<char>, value: JsonV) -> Seq<
    (Seq<char>, JsonV),
> {
    let i = entry_index(es, key);
    if i < 0 {
        es.push((key, value))
    } else {
        es.update(i, (key, value))
    }
}

/// Where `key` first occurs among the entries, found by a scan.
fn find_member(es: &Vec<(String, Json)>, key: &str) -> (r: usize)
    ensures
        r <= es@.len(),
        r == es@.len() <==> entry_index(entries_model(es@), key@) < 0,
        r < es@.len() ==> entry_index(entries_model(es@), key@) == r as int,
        r < es@.len() ==> es@[r as int].0@ == key@,
{
    let ghost em = entries_model(es@);
    let mut i: usize = 0;
    while i < es.len() && !crate::text::str_eq(es[i].0.as_str(), key)
        invariant
            i <= es@.len(),
            em == entries_model(es@),
            forall|j: int| 0 <= j < i ==> #[trigger] em[j].0 != key@,
        decreases es.len() - i,
    {
        i += 1;
    }
    proof {
        crate::history_sync::lemma_entry_index(em, key@);
        if i < es.len() {
            assert(em[i as int].0 == key@);
        } else {
            if entry_index(em, key@) >= 0 {
                assert(em[entry_index(em, key@)].0 == key@);
            }
        }
    }
    i
}

/// Sets the member `key` of an object's entries; see `set_member_v`.
pub fn set_member(es: &mut Vec<(String, Json)>, key: &str, value: Json)
    ensures
        entries_model(final(es)@) == set_member_v(entries_model(old(es)@), key@, jv(value)),
{
    let ghost em = entries_model(es@);
    let ghost vm = jv(value);
    let i = find_member(es, key);
    if i == es.len() {
        push_entry(es, key, value);
    } else {
        let _old = es.remove(i);
        es.insert(i, (owned(key), value));
        assert(entries_model(es@) =~= em.update(i as int, (key@, vm)));
    }
}

/// The entries of the object under `payload` in session metadata.
pub open spec fn payload_entries(meta: JsonV) -> Option<Seq<(Seq<char>, JsonV)>> {
    match meta {
        JsonV::Object(es) => {
            let i = entry_index(es, "payload"@);
            if i < 0 {
                None
            } else {
                match es[i].1 {
                    JsonV::Object(p) => Some(p),
                    _ => None,
                }
            }
        },
        _ => None,
    }
}

/// Session metadata whose payload names `target` as its provider.
pub open spec fn retargeted_v(meta: JsonV, target: Seq<char>) -> JsonV {
    match meta {
        JsonV::Object(es) => JsonV::Object(
            set_member_v(
                es,
                "payload"@,
                JsonV::Object(
                    set_member_v(payload_entries(meta).unwrap(), "model_provider"@, JsonV::Str(target)),
                ),
            ),
        ),
        _ => meta,
    }
}

/// Records `target` as the provider of a session; an error when the
/// metadata has no object under `payload`.
pub fn retarget_session_meta(meta: Json, target: &str) -> (r: Result<Json, String>)
    ensures
        match r {
            Ok(m) => payload_entries(jv(meta)) is Some && jv(m) == retargeted_v(jv(meta), target@),
            Err(e) => payload_entries(jv(meta)) is None && e@ == "Session metadata payload is invalid."@,
        },
{
    let ghost mv = jv(meta);
    let mut es = match meta {
        Json::Object(es) => es,
        _ => return Err(owned("Session metadata payload is invalid.")),
    };
    proof {
        crate::json::lemma_jv_entries(es@);
        assert(crate::json::jv_entries(es@) =~= entries_model(es@));
    }
    let ghost em = entries_model(es@);
    let i = find_member(&es, "payload");
    if i == es.len() {
        return Err(owned("Session metadata payload is invalid."));
    }
    let (k, p) = es.remove(i);
    proof {
        assert(em[i as int] == (k@, jv(p)));
    }
    let mut pes = match p {
        Json::Object(pes) => pes,
        _ => return Err(owned("Session metadata payload is invalid.")),
    };
    proof {
        crate::json::lemma_jv_entries(pes@);
        assert(crate::json::jv_entries(pes@) =~= entries_model(pes@));
    }
    set_member(&mut pes, "model_provider", Json::str_of(target));
    let ghost pm = entries_model(pes@);
    es.insert(i, (k, obj(pes)));
    proof {
        assert(entries_model(es@) =~= em.update(i as int, ("payload"@, JsonV::Object(pm))));
    }
    Ok(obj(es))
}

/// A JSON string, or `null` for nothing.
pub open spec fn opt_str_json(o: Option<Seq<char>>) -> JsonV {
    match o {
        Some(s) => JsonV::Str(s),
        None => JsonV::Null,
    }
}

fn opt_string_json(o: Option<String>) -> (r: Json)
    ensures
        jv(r) == opt_str_json(crate::local_router::opt_str_view(o)),
{
    match o {
        Some(s) => Json::string_from(s),
        None => Json::Null,
    }
}

/// What the backup records about one changed session file.
pub open spec fn backup_file_v(
    path: Seq<char>,
    thread_id: Option<Seq<char>>,
    cwd: Option<Seq<char>>,
    directory: Seq<char>,
    original_provider: Seq<char>,
    original_first_line: Seq<char>,
    original_separator: Seq<char>,
    mtime_seconds: i64,
    mtime_nanos: u32,
) -> JsonV {
    JsonV::Object(
        seq![
            ("path"@, JsonV::Str(path)),
            ("threadId"@, opt_str_json(thread_id)),
            ("cwd"@, opt_str_json(cwd)),
            ("directory"@, JsonV::Str(directory)),
            ("originalProvider"@, JsonV::Str(original_provider)),
            ("originalFirstLine"@, JsonV::Str(original_first_line)),
            ("originalSeparator"@, JsonV::Str(original_separator)),
            ("originalMtimeUnixSeconds"@, int_v(mtime_seconds as int)),
            ("originalMtimeNanoseconds"@, int_v(mtime_nanos as int)),
        ],
    )
}

/// The backup record of one changed session file.
pub fn backup_file_entry(
    path: String,
    thread_id: Option<String>,
    cwd: Option<String>,
    directory: String,
    original_provider: String,
    original_first_line: String,
    original_separator: String,
    mtime_seconds: i64,
    mtime_nanos: u32,
) -> (r: Json)
    ensures
        jv(r) == backup_file_v(
            path@,
            crate::local_router::opt_str_view(thread_id),
            crate::local_router::opt_str_view(cwd),
            directory@,
            original_provider@,
            original_first_line@,
            original_separator@,
            mtime_seconds,
            mtime_nanos,
        ),
{
    let ghost tv = crate::local_router::opt_str_view(thread_id);
    let ghost cv = crate::local_router::opt_str_view(cwd);
    let ghost pv = path@;
    let ghost dv = directory@;
    let ghost ov = original_provider@;
    let ghost fv = original_first_line@;
    let ghost sv = original_separator@;
    let mut es: Vec<(String, Json)> = Vec::new();
    push_entry(&mut es, "path", Json::string_from(path));
    push_entry(&mut es, "threadId", opt_string_json(thread_id));
    push_entry(&mut es, "cwd", opt_string_json(cwd));
    push_entry(&mut es, "directory", Json::string_from(directory));
    push_entry(&mut es, "originalProvider", Json::string_from(original_provider));
    push_entry(&mut es, "originalFirstLine", Json::string_from(original_first_line));
    push_entry(&mut es, "originalSeparator", Json::string_from(original_separator));
    push_entry(&mut es, "originalMtimeUnixSeconds", json_i64(mtime_seconds));
    push_entry(&mut es, "originalMtimeNanoseconds", json_u64(mtime_nanos as u64));
    let r = obj(es);
    assert(jv(r) == backup_file_v(pv, tv, cv, dv, ov, fv, sv, mtime_seconds, mtime_nanos)) by {
        assert(entries_model(es@) =~= seq![
            ("path"@, JsonV::Str(pv)),
            ("threadId"@, opt_str_json(tv)),
            ("cwd"@, opt_str_json(cv)),
            ("directory"@, JsonV::Str(dv)),
            ("originalProvider"@, JsonV::Str(ov)),
            ("originalFirstLine"@, JsonV::Str(fv)),
            ("originalSeparator"@, JsonV::Str(sv)),
            ("originalMtimeUnixSeconds"@, int_v(mtime_seconds as int)),
            ("originalMtimeNanoseconds"@, int_v(mtime_nanos as int)),
        ]);
    }
    r
}

/// The metadata of a backup: its namespace, what it was made for, when,
/// and how many session files it covers.
pub open spec fn backup_metadata_v(
    codex_home: Seq<char>,
    target: Seq<char>,
    created_at: Seq<char>,
    changed: usize,
) -> JsonV {
    JsonV::Object(
        seq![
            ("version"@, int_v(1)),
            ("namespace"@, JsonV::Str(BACKUP_NAMESPACE@)),
            ("codexHome"@, JsonV::Str(codex_home)),
            ("targetProvider"@, JsonV::Str(target)),
            ("createdAt"@, JsonV::Str(created_at)),
            ("changedSessionFiles"@, int_v(changed as int)),
        ],
    )
}

/// The metadata of a backup; see `backup_metadata_v`.
pub fn backup_metadata(codex_home: String, target: String, created_at: String, changed: usize) -> (r:
    Json)
    ensures
        jv(r) == backup_metadata_v(codex_home@, target@, created_at@, changed),
{
    let ghost hv = codex_home@;
    let ghost tv = target@;
    let ghost cv = created_at@;
    let mut es: Vec<(String, Json)> = Vec::new();
    push_entry(&mut es, "version", json_u64(1));
    push_entry(&mut es, "namespace", Json::str_of(BACKUP_NAMESPACE));
    push_entry(&mut es, "codexHome", Json::string_from(codex_home));
    push_entry(&mut es, "targetProvider", Json::string_from(target));
    push_entry(&mut es, "createdAt", Json::string_from(created_at));
    push_entry(&mut es, "changedSessionFiles", json_u64(changed as u64));
    let r = obj(es);
    assert(jv(r) == backup_metadata_v(hv, tv, cv, changed)) by {
        assert(entries_model(es@) =~= seq![
            ("version"@, int_v(1)),
            ("namespace"@, JsonV::Str(BACKUP_NAMESPACE@)),
            ("codexHome"@, JsonV::Str(hv)),
            ("targetProvider"@, JsonV::Str(tv)),
            ("createdAt"@, JsonV::Str(cv)),
            ("changedSessionFiles"@, int_v(changed as int)),
        ]);
    }
    r
}

/// The manifest of a backup: the original first line of every session file
/// that the synchronisation rewrites.
pub open spec fn backup_manifest_v(codex_home: Seq<char>, target: Seq<char>, files: Seq<JsonV>) -> JsonV {
    JsonV::Object(
        seq![
            ("version"@, int_v(1)),
            ("namespace"@, JsonV::Str(BACKUP_NAMESPACE@)),
            ("codexHome"@, JsonV::Str(codex_home)),
            ("targetProvider"@, JsonV::Str(target)),
            ("files"@, JsonV::Array(files)),
        ],
    )
}

/// The manifest of a backup; see `backup_manifest_v`.
pub fn backup_manifest(codex_home: String, target: String, files: Vec<Json>) -> (r: Json)
    ensures
        jv(r) == backup_manifest_v(codex_home@, target@, crate::json::values_model(files@)),
{
    let ghost hv = codex_home@;
    let ghost tv = target@;
    let ghost fv = crate::json::values_model(files@);
    let mut es: Vec<(String, Json)> = Vec::new();
    push_entry(&mut es, "version", json_u64(1));
    push_entry(&mut es, "namespace", Json::str_of(BACKUP_NAMESPACE));
    push_entry(&mut es, "codexHome", Json::string_from(codex_home));
    push_entry(&mut es, "targetProvider", Json::string_from(target));
    push_entry(&mut es, "files", crate::json::arr(files));
    let r = obj(es);
    assert(jv(r) == backup_manifest_v(hv, tv, fv)) by {
        assert(entries_model(es@) =~= seq![
            ("version"@, int_v(1)),
            ("namespace"@, JsonV::Str(BACKUP_NAMESPACE@)),
            ("codexHome"@, JsonV::Str(hv)),
            ("targetProvider"@, JsonV::Str(tv)),
            ("files"@, JsonV::Array(fv)),
        ]);
    }
    r
}

/// A backup directory counts as one of this tool's when its metadata names
/// the tool's namespace.
pub open spec fn managed_backup_v(metadata: JsonV) -> bool {
    crate::json::v_opt_str(crate::json::v_get(metadata, "namespace"@)) == Some(BACKUP_NAMESPACE@)
}

/// Whether backup metadata names this tool's namespace.
pub fn is_managed_backup(metadata: &Json) -> (r: bool)
    ensures
        r == managed_backup_v(jv(*metadata)),
{
    match metadata.get("namespace") {
        Some(v) => match v.as_str() {
            Some(s) => crate::text::str_eq(s.as_str(), BACKUP_NAMESPACE),
            None => false,
        },
        None => false,
    }
}


/// Looking a key up finds the entry `entry_index` points at.
proof fn lemma_lookup_index(es: Seq<(Seq<char>, JsonV)>, k: Seq<char>)
    ensures
        crate::json::entries_lookup(es, k) == (if entry_index(es, k) < 0 {
            None
        } else {
            Some(es[entry_index(es, k)].1)
        }),
    decreases es.len(),
{
    if es.len() > 0 && es[0].0 != k {
        lemma_lookup_index(es.drop_first(), k);
        crate::history_sync::lemma_entry_index(es.drop_first(), k);
        if entry_index(es.drop_first(), k) >= 0 {
            assert(es.drop_first()[entry_index(es.drop_first(), k)] == es[entry_index(es.drop_first(), k) + 1]);
        }
    }
}

/// After a member is set, looking it up gives the new value, and looking
/// up any other key gives what it gave before.
proof fn lemma_lookup_set(es: Seq<(Seq<char>, JsonV)>, k: Seq<char>, v: JsonV, k2: Seq<char>)
    ensures
        crate::json::entries_lookup(set_member_v(es, k, v), k2) == (if k2 == k {
            Some(v)
        } else {
            crate::json::entries_lookup(es, k2)
        }),
    decreases es.len(),
{
    let t = set_member_v(es, k, v);
    crate::history_sync::lemma_entry_index(es, k);
    if es.len() == 0 {
        assert(t =~= seq![(k, v)]);
        assert(t.drop_first() =~= Seq::<(Seq<char>, JsonV)>::empty());
        assert(crate::json::entries_lookup(t.drop_first(), k2) is None);
        assert(crate::json::entries_lookup(es, k2) is None);
    } else if es[0].0 == k {
        assert(entry_index(es, k) == 0);
        assert(t.drop_first() =~= es.drop_first());
        assert(t[0] == (k, v));
    } else {
        lemma_lookup_set(es.drop_first(), k, v, k2);
        let r = entry_index(es.drop_first(), k);
        if r < 0 {
            assert(t.drop_first() =~= es.drop_first().push((k, v)));
        } else {
            assert(t.drop_first() =~= es.drop_first().update(r, (k, v)));
        }
        assert(t.drop_first() == set_member_v(es.drop_first(), k, v));
        assert(t[0] == es[0]);
        assert(t.len() > 0);
        if es[0].0 == k2 {
            assert(crate::json::entries_lookup(t, k2) == Some(es[0].1));
        } else {
            assert(crate::json::entries_lookup(t, k2) == crate::json::entries_lookup(t.drop_first(), k2));
        }
    }
}

/// Moving a session to `target` is read back as a session of `target`: the
/// metadata keeps its type, and its thread id and working directory read
/// as before.
pub proof fn law_retarget_then_read(meta: JsonV, target: Seq<char>)
    requires
        payload_entries(meta) is Some,
    ensures
        ({
            let m = retargeted_v(meta, target);
            let before = crate::history_sync::session_payload(meta);
            let after = crate::history_sync::session_payload(m);
            &&& before is Some
            &&& after is Some
            &&& crate::history_sync::session_info_v(JsonV::Object(after.unwrap())).0 == target
            &&& crate::history_sync::session_info_v(JsonV::Object(after.unwrap())).1
                == crate::history_sync::session_info_v(JsonV::Object(before.unwrap())).1
            &&& crate::history_sync::session_info_v(JsonV::Object(after.unwrap())).2
                == crate::history_sync::session_info_v(JsonV::Object(before.unwrap())).2
            &&& crate::history_sync::is_session_meta_v(m) == crate::history_sync::is_session_meta_v(meta)
        }),
{
    reveal_strlit("payload");
    reveal_strlit("model_provider");
    reveal_strlit("id");
    reveal_strlit("cwd");
    reveal_strlit("type");
    let es = meta->Object_0;
    let p = payload_entries(meta).unwrap();
    let p2 = set_member_v(p, "model_provider"@, JsonV::Str(target));
    let es2 = set_member_v(es, "payload"@, JsonV::Object(p2));
    lemma_lookup_index(es, "payload"@);
    assert(crate::history_sync::session_payload(meta) == Some(p));
    lemma_lookup_set(es, "payload"@, JsonV::Object(p2), "payload"@);
    lemma_lookup_set(es, "payload"@, JsonV::Object(p2), "type"@);
    assert(crate::history_sync::session_payload(retargeted_v(meta, target)) == Some(p2));
    lemma_lookup_set(p, "model_provider"@, JsonV::Str(target), "model_provider"@);
    lemma_lookup_set(p, "model_provider"@, JsonV::Str(target), "id"@);
    lemma_lookup_set(p, "model_provider"@, JsonV::Str(target), "cwd"@);
    assert("id"@ != "model_provider"@) by {
        assert("id"@.len() != "model_provider"@.len());
    }
    assert("cwd"@ != "model_provider"@) by {
        assert("cwd"@.len() != "model_provider"@.len());
    }
    assert("type"@ != "payload"@) by {
        assert("type"@.len() != "payload"@.len());
    }
}

} // verus!
