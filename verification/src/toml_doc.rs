//! TOML documents, read and edited through `toml_edit`.
//!
//! A table is modelled by its slots: the keys in insertion order, each with
//! the model of its item. `toml_edit` keeps a slot for a key that was indexed
//! but never given a value; such a slot holds `TomlValue::Empty` and is
//! invisible to lookups, iteration and emptiness.

use vstd::prelude::*;

use toml_edit::{DocumentMut, Item, Table};

use crate::text::trim_seq;

verus! {

#[verifier::external_type_specification]
#[verifier::external_body]
pub struct ExDocumentMut(DocumentMut);

#[verifier::external_type_specification]
#[verifier::external_body]
pub struct ExTable(Table);

#[verifier::external_type_specification]
#[verifier::external_body]
pub struct ExItem(Item);

/// The model of a TOML item: a string, a boolean, a (non-inline) table, an
/// array of tables with the number of tables in it, any other value, or no
/// value at all.
pub enum TomlValue {
    Empty,
    Str(Seq<char>),
    Bool(bool),
    Table(Seq<(Seq<char>, TomlValue)>),
    Tables(nat),
    Other,
}

/// The slots of a document's root table.
pub uninterp spec fn toml_doc_slots(d: DocumentMut) -> Seq<(Seq<char>, TomlValue)>;

/// The slots of a table.
pub uninterp spec fn toml_table_slots(t: Table) -> Seq<(Seq<char>, TomlValue)>;

/// The model of an item: `Item::None` as `Empty`, a string value as `Str`,
/// a boolean value as `Bool`, a table as `Table` with its slots, an array of
/// tables as `Tables` with its length, and any other value (numbers,
/// arrays, inline tables, dates) as `Other`.
pub uninterp spec fn toml_item_value(i: Item) -> TomlValue;

/// The root slots of the document that `s` parses to, if it is valid TOML.
pub uninterp spec fn parsed_toml(s: Seq<char>) -> Option<Seq<(Seq<char>, TomlValue)>>;

/// Position of the slot for `k`, or -1.
pub open spec fn slot_index(s: Seq<(Seq<char>, TomlValue)>, k: Seq<char>) -> int
    decreases s.len(),
{
    if s.len() == 0 {
        -1
    } else if s.last().0 == k {
        s.len() - 1
    } else {
        slot_index(s.drop_last(), k)
    }
}

/// The item under `k`, unless it is missing or empty.
pub open spec fn slot_get(s: Seq<(Seq<char>, TomlValue)>, k: Seq<char>) -> Option<TomlValue> {
    let i = slot_index(s, k);
    if i < 0 {
        None
    } else {
        match s[i].1 {
            TomlValue::Empty => None,
            v => Some(v),
        }
    }
}

/// Sets the item under `k`: in its slot when there is one, else in a new
/// slot at the end.
pub open spec fn slot_set(s: Seq<(Seq<char>, TomlValue)>, k: Seq<char>, v: TomlValue) -> Seq<
    (Seq<char>, TomlValue),
> {
    let i = slot_index(s, k);
    if i < 0 {
        s.push((k, v))
    } else {
        s.update(i, (k, v))
    }
}

/// Removes the slot for `k`, keeping the order of the others.
pub open spec fn slot_remove(s: Seq<(Seq<char>, TomlValue)>, k: Seq<char>) -> Seq<
    (Seq<char>, TomlValue),
> {
    let i = slot_index(s, k);
    if i < 0 {
        s
    } else {
        s.remove(i)
    }
}

/// The keys of the non-empty slots, in order.
pub open spec fn visible_keys(s: Seq<(Seq<char>, TomlValue)>) -> Seq<Seq<char>>
    decreases s.len(),
{
    if s.len() == 0 {
        Seq::empty()
    } else {
        visible_keys(s.drop_last()) + if s.last().1 is Empty {
            Seq::<Seq<char>>::empty()
        } else {
            seq![s.last().0]
        }
    }
}

/// The text of a string item.
pub open spec fn value_str(v: Option<TomlValue>) -> Option<Seq<char>> {
    match v {
        Some(TomlValue::Str(s)) => Some(s),
        _ => None,
    }
}

/// The slots of a table item.
pub open spec fn value_table(v: Option<TomlValue>) -> Option<Seq<(Seq<char>, TomlValue)>> {
    match v {
        Some(TomlValue::Table(t)) => Some(t),
        _ => None,
    }
}

pub proof fn lemma_slot_index(s: Seq<(Seq<char>, TomlValue)>, k: Seq<char>)
    ensures
        -1 <= slot_index(s, k) < s.len(),
        slot_index(s, k) >= 0 ==> s[slot_index(s, k)].0 == k,
        forall|j: int| slot_index(s, k) < j < s.len() ==> #[trigger] s[j].0 != k,
    decreases s.len(),
{
    if s.len() > 0 {
        let d = s.drop_last();
        lemma_slot_index(d, k);
        assert forall|j: int| slot_index(s, k) < j < s.len() implies #[trigger] s[j].0 != k by {
            if j < s.len() - 1 {
                assert(d[j] == s[j]);
            }
        }
    }
}

/// Two slot lists with the same length and the same positions for `k` find
/// `k` at the same place.
pub proof fn lemma_slot_index_same(s: Seq<(Seq<char>, TomlValue)>, t: Seq<(Seq<char>, TomlValue)>, k: Seq<char>)
    requires
        s.len() == t.len(),
        forall|j: int| 0 <= j < s.len() ==> (s[j].0 == k <==> t[j].0 == k),
    ensures
        slot_index(s, k) == slot_index(t, k),
    decreases s.len(),
{
    if s.len() > 0 {
        lemma_slot_index_same(s.drop_last(), t.drop_last(), k);
    }
}

/// Reading a key after setting it gives the value set.
pub proof fn lemma_slot_get_set(s: Seq<(Seq<char>, TomlValue)>, k: Seq<char>, v: TomlValue, k2: Seq<char>)
    ensures
        slot_get(slot_set(s, k, v), k2) == if k2 == k {
            match v {
                TomlValue::Empty => None,
                _ => Some(v),
            }
        } else {
            slot_get(s, k2)
        },
{
    let i = slot_index(s, k);
    let t = slot_set(s, k, v);
    lemma_slot_index(s, k);
    lemma_slot_index(s, k2);
    lemma_slot_index(t, k2);
    if i < 0 {
        assert(t.drop_last() =~= s);
    } else {
        assert forall|j: int| 0 <= j < s.len() implies (s[j].0 == k2 <==> t[j].0 == k2) by {
            if j == i {
                assert(s[j].0 == k);
            }
        }
        lemma_slot_index_same(s, t, k2);
    }
}

/// Removing a key leaves the other keys' values as they were.
pub proof fn lemma_slot_get_remove(s: Seq<(Seq<char>, TomlValue)>, k: Seq<char>, k2: Seq<char>)
    requires
        k2 != k,
    ensures
        slot_get(slot_remove(s, k), k2) == slot_get(s, k2),
    decreases s.len(),
{
    let i = slot_index(s, k);
    lemma_slot_index(s, k);
    if i >= 0 && s.len() > 0 {
        let t = s.remove(i);
        let d = s.drop_last();
        if i == s.len() - 1 {
            assert(t =~= d);
            assert(s.last().0 == k);
            lemma_slot_index(d, k2);
            if slot_index(d, k2) >= 0 {
                assert(d[slot_index(d, k2)] == s[slot_index(d, k2)]);
            }
        } else {
            assert(s.last().0 != k);
            assert(slot_index(d, k) == i);
            lemma_slot_get_remove(d, k, k2);
            assert(d.remove(i) =~= t.drop_last());
            assert(t.last() == s.last());
            if s.last().0 == k2 {
                assert(slot_index(t, k2) == t.len() - 1);
                assert(slot_index(s, k2) == s.len() - 1);
            } else {
                assert(slot_index(t, k2) == slot_index(t.drop_last(), k2));
                assert(slot_index(s, k2) == slot_index(d, k2));
                lemma_slot_index(t.drop_last(), k2);
                lemma_slot_index(d, k2);
                if slot_index(d, k2) >= 0 {
                    assert(d[slot_index(d, k2)] == s[slot_index(d, k2)]);
                }
                if slot_index(t.drop_last(), k2) >= 0 {
                    assert(t.drop_last()[slot_index(t.drop_last(), k2)] == t[slot_index(t.drop_last(), k2)]);
                }
            }
        }
    }
}

/// No key has two slots, as in any TOML table.
pub open spec fn unique_keys(s: Seq<(Seq<char>, TomlValue)>) -> bool {
    forall|i: int, j: int| 0 <= i < j < s.len() ==> #[trigger] s[i].0 != #[trigger] s[j].0
}

/// Setting a key keeps the keys unique.
pub proof fn lemma_unique_set(s: Seq<(Seq<char>, TomlValue)>, k: Seq<char>, v: TomlValue)
    requires
        unique_keys(s),
    ensures
        unique_keys(slot_set(s, k, v)),
{
    lemma_slot_index(s, k);
    let t = slot_set(s, k, v);
    if slot_index(s, k) < 0 {
        assert forall|i: int, j: int| 0 <= i < j < t.len() implies #[trigger] t[i].0 != #[trigger] t[j].0 by {
            if j == s.len() {
                assert(t[i] == s[i]);
                assert(slot_index(s, k) < i);
            }
        }
    } else {
        assert forall|i: int, j: int| 0 <= i < j < t.len() implies #[trigger] t[i].0 != #[trigger] t[j].0 by {
            assert(t[i].0 == s[i].0);
            assert(t[j].0 == s[j].0);
        }
    }
}

/// Once its slot is removed, a key of a table with unique keys is gone.
pub proof fn lemma_unique_remove_gone(s: Seq<(Seq<char>, TomlValue)>, k: Seq<char>)
    requires
        unique_keys(s),
    ensures
        slot_get(slot_remove(s, k), k) is None,
        unique_keys(slot_remove(s, k)),
        slot_index(slot_remove(s, k), k) < 0,
{
    lemma_slot_index(s, k);
    let i = slot_index(s, k);
    let t = slot_remove(s, k);
    if i >= 0 {
        assert forall|j: int| 0 <= j < t.len() implies #[trigger] t[j].0 != k by {
            if j < i {
                assert(t[j] == s[j]);
            } else {
                assert(t[j] == s[j + 1]);
            }
        }
        assert forall|a: int, b: int| 0 <= a < b < t.len() implies #[trigger] t[a].0 != #[trigger] t[b].0 by {
            let a2 = if a < i { a } else { a + 1 };
            let b2 = if b < i { b } else { b + 1 };
            assert(t[a] == s[a2]);
            assert(t[b] == s[b2]);
        }
        lemma_slot_index(t, k);
        if slot_index(t, k) >= 0 {
            assert(t[slot_index(t, k)].0 == k);
        }
    }
}

/// An item with the contents of a table left out: what a lookup sees of
/// it at its own key.
pub open spec fn shape(v: TomlValue) -> TomlValue {
    match v {
        TomlValue::Table(_) => TomlValue::Table(Seq::empty()),
        _ => v,
    }
}

/// What the key path `path` leads to from the slots `s`: the item there
/// (a table shown without its contents), or `None` when a key on the way is
/// missing or not a table.
pub open spec fn at_path(s: Seq<(Seq<char>, TomlValue)>, path: Seq<Seq<char>>) -> Option<TomlValue>
    decreases path.len(),
{
    if path.len() == 0 {
        None
    } else {
        match slot_get(s, path[0]) {
            None => None,
            Some(v) => if path.len() == 1 {
                Some(shape(v))
            } else {
                match v {
                    TomlValue::Table(t) => at_path(t, path.drop_first()),
                    _ => None,
                }
            },
        }
    }
}

/// Every key path leads to the same item in `a` as in `b`: the two hold the
/// same keys and values, whatever the order of their slots.
pub open spec fn same_lookups(a: Seq<(Seq<char>, TomlValue)>, b: Seq<(Seq<char>, TomlValue)>) -> bool {
    forall|path: Seq<Seq<char>>| #[trigger] at_path(a, path) == at_path(b, path)
}

/// A value that every rendered text keeps: anything but a table, an array
/// of tables with no table in it, or no value.
pub open spec fn kept_value(v: TomlValue) -> bool {
    !(v is Table) && !(v is Empty) && v != TomlValue::Tables(0)
}

/// `r` holds what `s` holds: a lookup that finds something in `r` finds the
/// same in `s`, and every value (not a table) that `s` holds at a key path
/// `r` holds there too. Only tables with no value anywhere below them may be
/// missing from `r`.
pub open spec fn shows(r: Seq<(Seq<char>, TomlValue)>, s: Seq<(Seq<char>, TomlValue)>) -> bool {
    &&& forall|path: Seq<Seq<char>>| #[trigger] at_path(r, path) is Some ==> at_path(r, path) == at_path(s, path)
    &&& forall|path: Seq<Seq<char>>|
        #[trigger] at_path(s, path) is Some && kept_value(at_path(s, path)->0) ==> at_path(r, path) == at_path(s, path)
}

/// Every table that a key path leads to in `s` holds at least one item,
/// and every array of tables holds at least one table.
pub open spec fn tables_filled(s: Seq<(Seq<char>, TomlValue)>) -> bool {
    &&& forall|path: Seq<Seq<char>>|
        #[trigger] at_path(s, path) == Some(TomlValue::Table(Seq::empty())) ==> exists|k: Seq<char>|
            #[trigger] at_path(s, path.push(k)) is Some
    &&& forall|path: Seq<Seq<char>>| #[trigger] at_path(s, path) != Some(TomlValue::Tables(0))
}

/// The text `t` is valid TOML whose document shows what `s` holds (see
/// `shows`); where every table of `s` holds an item (and every array of
/// tables a table), it holds exactly the same lookups.
pub open spec fn text_shows(t: Seq<char>, s: Seq<(Seq<char>, TomlValue)>) -> bool {
    match parsed_toml(t) {
        Some(r) => shows(r, s) && (tables_filled(s) ==> same_lookups(r, s)),
        None => false,
    }
}

/// Two tables with the same lookups show each other.
pub proof fn lemma_same_lookups_shows(a: Seq<(Seq<char>, TomlValue)>, b: Seq<(Seq<char>, TomlValue)>, c: Seq<(Seq<char>, TomlValue)>)
    requires
        same_lookups(a, b),
        shows(b, c),
    ensures
        shows(a, c),
{
    assert forall|path: Seq<Seq<char>>| #[trigger] at_path(a, path) is Some implies at_path(a, path) == at_path(c, path) by {
        assert(at_path(a, path) == at_path(b, path));
    }
    assert forall|path: Seq<Seq<char>>|
        #[trigger] at_path(c, path) is Some && kept_value(at_path(c, path)->0) implies at_path(a, path) == at_path(c, path) by {
        assert(at_path(a, path) == at_path(b, path));
    }
}

/// What a table shows, the tables under one key show too.
pub proof fn lemma_shows_under(
    a: Seq<(Seq<char>, TomlValue)>,
    b: Seq<(Seq<char>, TomlValue)>,
    k: Seq<char>,
    ta: Seq<(Seq<char>, TomlValue)>,
    tb: Seq<(Seq<char>, TomlValue)>,
)
    requires
        shows(a, b),
        slot_get(a, k) == Some(TomlValue::Table(ta)),
        slot_get(b, k) == Some(TomlValue::Table(tb)),
    ensures
        shows(ta, tb),
{
    assert forall|q: Seq<Seq<char>>| #[trigger] at_path(ta, q) is Some implies at_path(ta, q) == at_path(tb, q) by {
        lemma_at_path_under(a, k, q);
        lemma_at_path_under(b, k, q);
        assert(at_path(a, seq![k] + q) is Some);
    }
    assert forall|q: Seq<Seq<char>>|
        #[trigger] at_path(tb, q) is Some && kept_value(at_path(tb, q)->0) implies at_path(ta, q) == at_path(tb, q) by {
        lemma_at_path_under(a, k, q);
        lemma_at_path_under(b, k, q);
        assert(at_path(b, seq![k] + q) is Some);
    }
}

/// A key that a lookup finds makes a visible key.
pub proof fn lemma_visible_of_get(s: Seq<(Seq<char>, TomlValue)>, k: Seq<char>)
    requires
        slot_get(s, k) is Some,
    ensures
        visible_keys(s).len() > 0,
    decreases s.len(),
{
    if s.last().0 != k {
        assert(slot_index(s, k) == slot_index(s.drop_last(), k));
        lemma_slot_index(s.drop_last(), k);
        if slot_index(s, k) >= 0 {
            assert(s.drop_last()[slot_index(s, k)] == s[slot_index(s, k)]);
        }
        lemma_visible_of_get(s.drop_last(), k);
    }
}

/// Two tables in which every key finds the same item have the same lookups.
pub proof fn lemma_same_gets_same_lookups(a: Seq<(Seq<char>, TomlValue)>, b: Seq<(Seq<char>, TomlValue)>)
    requires
        forall|k: Seq<char>| #[trigger] slot_get(a, k) == slot_get(b, k),
    ensures
        same_lookups(a, b),
{
    assert forall|path: Seq<Seq<char>>| #[trigger] at_path(a, path) == at_path(b, path) by {
        if path.len() > 0 {
            assert(slot_get(a, path[0]) == slot_get(b, path[0]));
        }
    }
}

/// A lookup below the key `k` goes into the table under `k`.
pub proof fn lemma_at_path_under(s: Seq<(Seq<char>, TomlValue)>, k: Seq<char>, q: Seq<Seq<char>>)
    requires
        q.len() > 0,
    ensures
        at_path(s, seq![k] + q) == match slot_get(s, k) {
            Some(TomlValue::Table(t)) => at_path(t, q),
            _ => None,
        },
{
    assert((seq![k] + q).drop_first() =~= q);
    assert((seq![k] + q)[0] == k);
}

/// Replacing the table under `k` by one with the same lookups keeps the
/// lookups.
pub proof fn lemma_same_lookups_set_table(
    s: Seq<(Seq<char>, TomlValue)>,
    k: Seq<char>,
    t: Seq<(Seq<char>, TomlValue)>,
    t2: Seq<(Seq<char>, TomlValue)>,
)
    requires
        slot_get(s, k) == Some(TomlValue::Table(t)),
        same_lookups(t2, t),
    ensures
        same_lookups(slot_set(s, k, TomlValue::Table(t2)), s),
{
    let x = slot_set(s, k, TomlValue::Table(t2));
    assert forall|path: Seq<Seq<char>>| #[trigger] at_path(x, path) == at_path(s, path) by {
        if path.len() > 0 {
            lemma_slot_get_set(s, k, TomlValue::Table(t2), path[0]);
            if path[0] == k && path.len() > 1 {
                assert(at_path(t2, path.drop_first()) == at_path(t, path.drop_first()));
            }
        }
    }
}

/// Parses `s` as a TOML document (`str::parse::<DocumentMut>`); `None` when
/// it is not valid TOML.
#[verifier::external_body]
pub(crate) fn toml_parse(s: &str) -> (r: Option<DocumentMut>)
    ensures
        match r {
            Some(d) => parsed_toml(s@) == Some(toml_doc_slots(d)),
            None => parsed_toml(s@) is None,
        },
{
    s.parse::<DocumentMut>().ok()
}

/// `DocumentMut::new`: an empty document.
#[verifier::external_body]
pub(crate) fn toml_new_doc() -> (r: DocumentMut)
    ensures
        toml_doc_slots(r) == Seq::<(Seq<char>, TomlValue)>::empty(),
{
    DocumentMut::new()
}

/// The document's text (`Display` for `DocumentMut`). `toml_edit` keeps
/// documents through a parse and a render (its README: comments, spacing
/// and relative order are preserved, dotted-key order is not), so parsing
/// the text gives back the same keys and values; it is stated by lookups,
/// not by slot order. White space at either end of the text and one more
/// final newline are insignificant in TOML, so the text trimmed, or with a
/// newline appended, parses to the same. The renderer leaves out an
/// implicit table that holds nothing (`visit_table` in `encode.rs`) and an
/// array of tables with no table in it (`visit_nested_tables`), and the
/// model does not record which tables are implicit: so of every document the
/// claim is `shows` (every value kept, nothing added), and the lookups are
/// exactly the same where every table holds an item and every array of
/// tables a table. The formatting of the text (comments, spacing, quoting)
/// is not stated.
#[verifier::external_body]
pub(crate) fn toml_render(d: &DocumentMut) -> (r: String)
    ensures
        text_shows(r@, toml_doc_slots(*d)),
        text_shows(r@.push('\n'), toml_doc_slots(*d)),
        text_shows(trim_seq(r@), toml_doc_slots(*d)),
        text_shows(trim_seq(r@).push('\n'), toml_doc_slots(*d)),
{
    d.to_string()
}

/// `DocumentMut::as_table`: the root table.
#[verifier::external_body]
pub(crate) fn doc_root(d: &DocumentMut) -> (r: &Table)
    ensures
        toml_table_slots(*r) == toml_doc_slots(*d),
{
    d.as_table()
}

/// `DocumentMut::as_table_mut`: the root table, for editing.
#[verifier::external_body]
pub(crate) fn doc_root_mut(d: &mut DocumentMut) -> (r: &mut Table)
    ensures
        toml_table_slots(*r) == toml_doc_slots(*old(d)),
        toml_doc_slots(*final(d)) == toml_table_slots(*final(r)),
{
    d.as_table_mut()
}

/// `Table::get`: the item under `key`, unless it is missing or empty.
#[verifier::external_body]
pub(crate) fn table_get<'a>(t: &'a Table, key: &str) -> (r: Option<&'a Item>)
    ensures
        match r {
            Some(i) => slot_get(toml_table_slots(*t), key@) == Some(toml_item_value(*i)),
            None => slot_get(toml_table_slots(*t), key@) is None,
        },
{
    t.get(key)
}

/// `Table[key] = item` (`IndexMut` for `Table`).
#[verifier::external_body]
pub(crate) fn table_set(t: &mut Table, key: &str, item: Item)
    ensures
        toml_table_slots(*final(t)) == slot_set(toml_table_slots(*old(t)), key@, toml_item_value(item)),
{
    t[key] = item;
}

/// `Table::remove`.
#[verifier::external_body]
pub(crate) fn table_remove(t: &mut Table, key: &str)
    ensures
        toml_table_slots(*final(t)) == slot_remove(toml_table_slots(*old(t)), key@),
{
    t.remove(key);
}

/// `Table::is_empty`: no slot holds a value.
#[verifier::external_body]
pub(crate) fn table_is_empty(t: &Table) -> (r: bool)
    ensures
        r == (visible_keys(toml_table_slots(*t)).len() == 0),
{
    t.is_empty()
}

/// The keys that `Table::iter` yields, in order.
#[verifier::external_body]
pub(crate) fn table_keys(t: &Table) -> (r: Vec<String>)
    ensures
        r@.len() == visible_keys(toml_table_slots(*t)).len(),
        forall|i: int|
            0 <= i < r@.len() ==> #[trigger] r@[i]@ == visible_keys(toml_table_slots(*t))[i],
{
    t.iter().map(|(key, _)| key.to_string()).collect()
}

/// `Table::new`: an empty table.
#[verifier::external_body]
pub(crate) fn table_new() -> (r: Table)
    ensures
        toml_table_slots(r) == Seq::<(Seq<char>, TomlValue)>::empty(),
{
    Table::new()
}

/// `Clone` for `Table`.
#[verifier::external_body]
pub(crate) fn table_clone(t: &Table) -> (r: Table)
    ensures
        toml_table_slots(r) == toml_table_slots(*t),
{
    t.clone()
}

/// `Clone` for `Item`.
#[verifier::external_body]
pub(crate) fn item_clone(i: &Item) -> (r: Item)
    ensures
        toml_item_value(r) == toml_item_value(*i),
{
    i.clone()
}

/// `Item::as_str`.
#[verifier::external_body]
pub(crate) fn item_as_str(i: &Item) -> (r: Option<&str>)
    ensures
        match toml_item_value(*i) {
            TomlValue::Str(s) => r is Some && r.unwrap()@ == s,
            _ => r is None,
        },
{
    i.as_str()
}

/// `Item::as_bool`.
#[verifier::external_body]
pub(crate) fn item_as_bool(i: &Item) -> (r: Option<bool>)
    ensures
        match toml_item_value(*i) {
            TomlValue::Bool(b) => r == Some(b),
            _ => r is None,
        },
{
    i.as_bool()
}

/// `Item::as_table`: the table of a (non-inline) table item.
#[verifier::external_body]
pub(crate) fn item_as_table(i: &Item) -> (r: Option<&Table>)
    ensures
        match toml_item_value(*i) {
            TomlValue::Table(s) => r is Some && toml_table_slots(*r.unwrap()) == s,
            _ => r is None,
        },
{
    i.as_table()
}

/// `toml_edit::value` on a string.
#[verifier::external_body]
pub(crate) fn str_item(s: &str) -> (r: Item)
    ensures
        toml_item_value(r) == TomlValue::Str(s@),
{
    toml_edit::value(s)
}

/// `toml_edit::value` on a boolean.
#[verifier::external_body]
pub(crate) fn bool_item(b: bool) -> (r: Item)
    ensures
        toml_item_value(r) == TomlValue::Bool(b),
{
    toml_edit::value(b)
}

/// `Item::Table`: a table as an item.
#[verifier::external_body]
pub(crate) fn table_item(t: Table) -> (r: Item)
    ensures
        toml_item_value(r) == TomlValue::Table(toml_table_slots(t)),
{
    Item::Table(t)
}

} // verus!
