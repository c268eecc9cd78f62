//! JSON values as the library reads and builds them.
//!
//! `Json` is an owned JSON tree; `JsonV` is its mathematical model, with
//! `Seq` in place of `Vec` and `String`. Objects keep their entries in order
//! and a key is looked up at its first entry.

use vstd::prelude::*;

use crate::text::{chars_of, decimal, decimal_chars, owned, push_str_chars, string_of};

verus! {

broadcast use vstd::std_specs::vec::axiom_vec_decreases_to_view;

/// A JSON number: a non-negative integer, a negative integer, or any other
/// number kept as its decimal text.
#[derive(Debug)]
pub enum JsonNumber {
    PosInt(u64),
    NegInt(i64),
    Float(String),
}

/// An owned JSON value.
#[derive(Debug)]
pub enum Json {
    Null,
    Bool(bool),
    Number(JsonNumber),
    String(String),
    Array(Vec<Json>),
    Object(Vec<(String, Json)>),
}

/// The model of a JSON number.
pub enum NumV {
    PosInt(u64),
    NegInt(i64),
    Float(Seq<char>),
}

/// The model of a JSON value.
#[verifier::ext_equal]
pub enum JsonV {
    Null,
    Bool(bool),
    Number(NumV),
    Str(Seq<char>),
    Array(Seq<JsonV>),
    Object(Seq<(Seq<char>, JsonV)>),
}

pub open spec fn num_view(n: JsonNumber) -> NumV {
    match n {
        JsonNumber::PosInt(u) => NumV::PosInt(u),
        JsonNumber::NegInt(i) => NumV::NegInt(i),
        JsonNumber::Float(s) => NumV::Float(s@),
    }
}

pub open spec fn jv(j: Json) -> JsonV
    decreases j, 1nat,
{
    match j {
        Json::Null => JsonV::Null,
        Json::Bool(b) => JsonV::Bool(b),
        Json::Number(n) => JsonV::Number(num_view(n)),
        Json::String(s) => JsonV::Str(s@),
        Json::Array(v) => JsonV::Array(jv_seq(v@)),
        Json::Object(v) => JsonV::Object(jv_entries(v@)),
    }
}

pub open spec fn jv_seq(s: Seq<Json>) -> Seq<JsonV>
    decreases s, 0nat,
{
    if s.len() == 0 {
        Seq::empty()
    } else {
        jv_seq(s.drop_last()).push(jv(s.last()))
    }
}

pub open spec fn jv_entries(s: Seq<(String, Json)>) -> Seq<(Seq<char>, JsonV)>
    decreases s, 0nat,
{
    if s.len() == 0 {
        Seq::empty()
    } else {
        jv_entries(s.drop_last()).push((s.last().0@, jv(s.last().1)))
    }
}


pub proof fn lemma_jv_seq(s: Seq<Json>)
    ensures
        jv_seq(s).len() == s.len(),
        forall|i: int| 0 <= i < s.len() ==> #[trigger] jv_seq(s)[i] == jv(s[i]),
    decreases s.len(),
{
    if s.len() > 0 {
        lemma_jv_seq(s.drop_last());
    }
}

pub proof fn lemma_jv_entries(s: Seq<(String, Json)>)
    ensures
        jv_entries(s).len() == s.len(),
        forall|i: int|
            0 <= i < s.len() ==> #[trigger] jv_entries(s)[i] == (s[i].0@, jv(s[i].1)),
    decreases s.len(),
{
    if s.len() > 0 {
        lemma_jv_entries(s.drop_last());
    }
}

/// The value of the first entry named `key`.
pub open spec fn entries_lookup(es: Seq<(Seq<char>, JsonV)>, key: Seq<char>) -> Option<JsonV>
    decreases es.len(),
{
    if es.len() == 0 {
        None
    } else if es[0].0 == key {
        Some(es[0].1)
    } else {
        entries_lookup(es.drop_first(), key)
    }
}

/// `value.get(key)`: the member `key` of an object, `None` for anything else.
pub open spec fn v_get(v: JsonV, key: Seq<char>) -> Option<JsonV> {
    match v {
        JsonV::Object(es) => entries_lookup(es, key),
        _ => None,
    }
}

/// Looks a key up in an optional value.
pub open spec fn v_get_opt(v: Option<JsonV>, key: Seq<char>) -> Option<JsonV> {
    match v {
        Some(x) => v_get(x, key),
        None => None,
    }
}

pub open spec fn v_as_str(v: JsonV) -> Option<Seq<char>> {
    match v {
        JsonV::Str(s) => Some(s),
        _ => None,
    }
}

pub open spec fn v_opt_str(v: Option<JsonV>) -> Option<Seq<char>> {
    match v {
        Some(x) => v_as_str(x),
        None => None,
    }
}

pub open spec fn v_as_bool(v: JsonV) -> Option<bool> {
    match v {
        JsonV::Bool(b) => Some(b),
        _ => None,
    }
}

pub open spec fn v_as_u64(v: JsonV) -> Option<u64> {
    match v {
        JsonV::Number(NumV::PosInt(u)) => Some(u),
        _ => None,
    }
}

pub open spec fn v_as_i64(v: JsonV) -> Option<i64> {
    match v {
        JsonV::Number(NumV::PosInt(u)) => if u <= i64::MAX {
            Some(u as i64)
        } else {
            None
        },
        JsonV::Number(NumV::NegInt(i)) => Some(i),
        _ => None,
    }
}

pub open spec fn v_as_array(v: JsonV) -> Option<Seq<JsonV>> {
    match v {
        JsonV::Array(a) => Some(a),
        _ => None,
    }
}

pub open spec fn v_is_object(v: JsonV) -> bool {
    v is Object
}

pub open spec fn v_is_number(v: JsonV) -> bool {
    v is Number
}

pub open spec fn opt_jv(o: Option<&Json>) -> Option<JsonV> {
    match o {
        Some(x) => Some(jv(*x)),
        None => None,
    }
}

impl Json {
    /// The member `key` of an object; `None` for a missing key or a value that
    /// is not an object.
    pub fn get(&self, key: &str) -> (r: Option<&Json>)
        ensures
            opt_jv(r) == v_get(jv(*self), key@),
    {
        match self {
            Json::Object(entries) => {
                let k = owned(key);
                let ghost es = jv_entries(entries@);
                proof {
                    lemma_jv_entries(entries@);
                }
                let mut i: usize = 0;
                assert(es.skip(0) =~= es);
                while i < entries.len()
                    invariant
                        i <= entries@.len(),
                        es == jv_entries(entries@),
                        jv(*self) == JsonV::Object(es),
                        k@ == key@,
                        es.len() == entries@.len(),
                        forall|m: int|
                            0 <= m < entries@.len() ==> #[trigger] es[m] == (
                                entries@[m].0@,
                                jv(entries@[m].1),
                            ),
                        entries_lookup(es, k@) == entries_lookup(es.skip(i as int), k@),
                    decreases entries.len() - i,
                {
                    assert(es.skip(i as int).drop_first() =~= es.skip(i + 1));
                    assert(es.skip(i as int)[0] == es[i as int]);
                    if entries[i].0 == k {
                        assert(entries_lookup(es.skip(i as int), k@) == Some(es[i as int].1));
                        return Some(&entries[i].1);
                    }
                    i += 1;
                }
                None
            },
            _ => None,
        }
    }

    pub fn as_str(&self) -> (r: Option<&String>)
        ensures
            match r {
                Some(s) => v_as_str(jv(*self)) == Some(s@),
                None => v_as_str(jv(*self)) is None,
            },
    {
        match self {
            Json::String(s) => Some(s),
            _ => None,
        }
    }

    pub fn as_bool(&self) -> (r: Option<bool>)
        ensures
            r == v_as_bool(jv(*self)),
    {
        match self {
            Json::Bool(b) => Some(*b),
            _ => None,
        }
    }

    pub fn as_u64(&self) -> (r: Option<u64>)
        ensures
            r == v_as_u64(jv(*self)),
    {
        match self {
            Json::Number(JsonNumber::PosInt(u)) => Some(*u),
            _ => None,
        }
    }

    pub fn as_i64(&self) -> (r: Option<i64>)
        ensures
            r == v_as_i64(jv(*self)),
    {
        match self {
            Json::Number(JsonNumber::PosInt(u)) => if *u <= 9223372036854775807u64 {
                Some(*u as i64)
            } else {
                None
            },
            Json::Number(JsonNumber::NegInt(i)) => Some(*i),
            _ => None,
        }
    }

    pub fn as_array(&self) -> (r: Option<&Vec<Json>>)
        ensures
            match r {
                Some(a) => v_as_array(jv(*self)) == Some(jv_seq(a@)),
                None => v_as_array(jv(*self)) is None,
            },
    {
        match self {
            Json::Array(a) => Some(a),
            _ => None,
        }
    }

    pub fn is_object(&self) -> (r: bool)
        ensures
            r == v_is_object(jv(*self)),
    {
        match self {
            Json::Object(_) => true,
            _ => false,
        }
    }

    pub fn is_number(&self) -> (r: bool)
        ensures
            r == v_is_number(jv(*self)),
    {
        match self {
            Json::Number(_) => true,
            _ => false,
        }
    }

    pub fn is_null(&self) -> (r: bool)
        ensures
            r == (jv(*self) is Null),
    {
        match self {
            Json::Null => true,
            _ => false,
        }
    }

    /// A JSON string holding `s`.
    pub fn str_of(s: &str) -> (r: Json)
        ensures
            jv(r) == JsonV::Str(s@),
    {
        Json::String(owned(s))
    }

    /// A JSON string holding the characters `s`.
    pub fn string_from(s: String) -> (r: Json)
        ensures
            jv(r) == JsonV::Str(s@),
    {
        Json::String(s)
    }

    /// A deep copy.
    pub fn deep_clone(&self) -> (r: Json)
        ensures
            jv(r) == jv(*self),
        decreases self,
    {
        match self {
            Json::Null => Json::Null,
            Json::Bool(b) => Json::Bool(*b),
            Json::Number(n) => Json::Number(
                match n {
                    JsonNumber::PosInt(u) => JsonNumber::PosInt(*u),
                    JsonNumber::NegInt(i) => JsonNumber::NegInt(*i),
                    JsonNumber::Float(t) => JsonNumber::Float(t.clone()),
                },
            ),
            Json::String(s) => Json::String(s.clone()),
            Json::Array(a) => {
                let mut out: Vec<Json> = Vec::new();
                let mut i: usize = 0;
                proof {
                    lemma_jv_seq(a@);
                }
                while i < a.len()
                    invariant
                        *self == Json::Array(*a),
                        i <= a@.len(),
                        out@.len() == i,
                        forall|m: int| 0 <= m < i ==> jv(#[trigger] out@[m]) == jv(a@[m]),
                    decreases a.len() - i,
                {
                    proof {
                        assert(decreases_to!(*self => (*self)->Array_0));
                        assert(decreases_to!(*a => a@));
                        vstd::seq::axiom_seq_index_decreases(a@, i as int);
                    }
                    let c = a[i].deep_clone();
                    out.push(c);
                    i += 1;
                }
                proof {
                    lemma_jv_seq(out@);
                    assert(jv_seq(out@) =~= jv_seq(a@));
                }
                Json::Array(out)
            },
            Json::Object(es) => {
                let mut out: Vec<(String, Json)> = Vec::new();
                let mut i: usize = 0;
                proof {
                    lemma_jv_entries(es@);
                }
                while i < es.len()
                    invariant
                        *self == Json::Object(*es),
                        i <= es@.len(),
                        out@.len() == i,
                        forall|m: int|
                            0 <= m < i ==> (#[trigger] out@[m]).0@ == es@[m].0@ && jv(out@[m].1)
                                == jv(es@[m].1),
                    decreases es.len() - i,
                {
                    proof {
                        assert(decreases_to!(*self => (*self)->Object_0));
                        assert(decreases_to!(*es => es@));
                        vstd::seq::axiom_seq_index_decreases(es@, i as int);
                        assert(decreases_to!(es@[i as int] => es@[i as int].1));
                    }
                    let c = es[i].1.deep_clone();
                    out.push((es[i].0.clone(), c));
                    i += 1;
                }
                proof {
                    lemma_jv_entries(out@);
                    assert(jv_entries(out@) =~= jv_entries(es@));
                }
                Json::Object(out)
            },
        }
    }
}

// ---------------------------------------------------------------------------
// Compact JSON text
// ---------------------------------------------------------------------------

pub open spec fn hex_digit(d: nat) -> char {
    if d < 10 {
        crate::text::digit_char(d)
    } else if d == 10 {
        'a'
    } else if d == 11 {
        'b'
    } else if d == 12 {
        'c'
    } else if d == 13 {
        'd'
    } else if d == 14 {
        'e'
    } else {
        'f'
    }
}

/// How a character is written inside a JSON string: quote and backslash are
/// escaped, control characters use the short escapes `\b \t \n \f \r` or
/// `\u00XX` with lower-case hex digits, everything else is written as is.
pub open spec fn escape_char(c: char) -> Seq<char> {
    let u = c as u32;
    if c == '"' {
        seq!['\\', '"']
    } else if c == '\\' {
        seq!['\\', '\\']
    } else if u == 0x08 {
        seq!['\\', 'b']
    } else if u == 0x09 {
        seq!['\\', 't']
    } else if u == 0x0A {
        seq!['\\', 'n']
    } else if u == 0x0C {
        seq!['\\', 'f']
    } else if u == 0x0D {
        seq!['\\', 'r']
    } else if u < 0x20 {
        seq!['\\', 'u', '0', '0', hex_digit((u / 16) as nat), hex_digit((u % 16) as nat)]
    } else {
        seq![c]
    }
}

pub open spec fn escape_seq(s: Seq<char>) -> Seq<char>
    decreases s.len(),
{
    if s.len() == 0 {
        Seq::empty()
    } else {
        escape_seq(s.drop_last()) + escape_char(s.last())
    }
}

/// The JSON string literal of `s`: the escaped characters between quotes.
pub open spec fn json_string_literal(s: Seq<char>) -> Seq<char> {
    seq!['"'] + escape_seq(s) + seq!['"']
}

/// `serde_json::to_string` of a string: its literal, with the escapes that
/// `serde_json` writes (its `ESCAPE` table and `write_char_escape`).
/// Writing a string cannot fail; the empty text stands for an error that
/// does not come.
#[verifier::external_body]
pub(crate) fn string_literal(s: &str) -> (r: String)
    ensures
        r@ == json_string_literal(s@),
{
    serde_json::to_string(s).unwrap_or_default()
}

pub open spec fn quoted(s: Seq<char>) -> Seq<char> {
    json_string_literal(s)
}

pub open spec fn num_text(n: NumV) -> Seq<char> {
    match n {
        NumV::PosInt(u) => decimal(u as nat),
        NumV::NegInt(i) => if i < 0 {
            seq!['-'] + decimal((-i) as nat)
        } else {
            decimal(i as nat)
        },
        NumV::Float(t) => t,
    }
}

/// The compact JSON text of a value, as `serde_json` writes it: no white
/// space, members in order, integers in decimal, other numbers as their
/// own text, strings as `serde_json` writes them.
pub open spec fn compact(v: JsonV) -> Seq<char>
    decreases v, 1nat,
{
    match v {
        JsonV::Null => seq!['n', 'u', 'l', 'l'],
        JsonV::Bool(b) => if b {
            seq!['t', 'r', 'u', 'e']
        } else {
            seq!['f', 'a', 'l', 's', 'e']
        },
        JsonV::Number(n) => num_text(n),
        JsonV::Str(s) => quoted(s),
        JsonV::Array(a) => seq!['['] + compact_items(a) + seq![']'],
        JsonV::Object(es) => seq!['{'] + compact_members(es) + seq!['}'],
    }
}

pub open spec fn compact_items(a: Seq<JsonV>) -> Seq<char>
    decreases a, 0nat,
{
    if a.len() == 0 {
        Seq::empty()
    } else if a.len() == 1 {
        compact(a[0])
    } else {
        compact_items(a.drop_last()) + seq![','] + compact(a.last())
    }
}

pub open spec fn compact_members(es: Seq<(Seq<char>, JsonV)>) -> Seq<char>
    decreases es, 0nat,
{
    if es.len() == 0 {
        Seq::empty()
    } else if es.len() == 1 {
        quoted(es[0].0) + seq![':'] + compact(es[0].1)
    } else {
        compact_members(es.drop_last()) + seq![','] + quoted(es.last().0) + seq![':'] + compact(
            es.last().1,
        )
    }
}

fn push_quoted(out: &mut Vec<char>, s: &str)
    ensures
        final(out)@ == old(out)@ + quoted(s@),
{
    let lit = string_literal(s);
    push_str_chars(out, lit.as_str());
}

/// Appends the compact JSON text of `j` to `out`.
pub fn write_compact(out: &mut Vec<char>, j: &Json)
    ensures
        final(out)@ == old(out)@ + compact(jv(*j)),
    decreases j,
{
    let ghost start = out@;
    match j {
        Json::Null => {
            out.push('n');
            out.push('u');
            out.push('l');
            out.push('l');
            assert(out@ =~= start + compact(jv(*j)));
        },
        Json::Bool(b) => {
            if *b {
                out.push('t');
                out.push('r');
                out.push('u');
                out.push('e');
            } else {
                out.push('f');
                out.push('a');
                out.push('l');
                out.push('s');
                out.push('e');
            }
            assert(out@ =~= start + compact(jv(*j)));
        },
        Json::Number(n) => {
            match n {
                JsonNumber::PosInt(u) => {
                    let mut d = decimal_chars(*u);
                    out.append(&mut d);
                },
                JsonNumber::NegInt(i) => {
                    if *i < 0 {
                        out.push('-');
                        let m: u64 = if *i == -9223372036854775808i64 {
                            9223372036854775808u64
                        } else {
                            (-*i) as u64
                        };
                        let mut d = decimal_chars(m);
                        out.append(&mut d);
                    } else {
                        let mut d = decimal_chars(*i as u64);
                        out.append(&mut d);
                    }
                },
                JsonNumber::Float(t) => {
                    push_str_chars(out, t.as_str());
                },
            }
            assert(out@ =~= start + compact(jv(*j)));
        },
        Json::String(s) => {
            push_quoted(out, s.as_str());
        },
        Json::Array(a) => {
            out.push('[');
            let mut i: usize = 0;
            proof {
                lemma_jv_seq(a@);
                assert(jv_seq(a@).take(0) =~= Seq::<JsonV>::empty());
            }
            while i < a.len()
                invariant
                    *j == Json::Array(*a),
                    i <= a@.len(),
                    jv_seq(a@).len() == a@.len(),
                    forall|m: int| 0 <= m < a@.len() ==> #[trigger] jv_seq(a@)[m] == jv(a@[m]),
                    out@ == start + seq!['['] + compact_items(jv_seq(a@).take(i as int)),
                decreases a.len() - i,
            {
                let ghost before = out@;
                if i > 0 {
                    out.push(',');
                }
                proof {
                    assert(decreases_to!(*j => (*j)->Array_0));
                    assert(decreases_to!(*a => a@));
                    vstd::seq::axiom_seq_index_decreases(a@, i as int);
                }
                write_compact(out, &a[i]);
                proof {
                    let t = jv_seq(a@).take(i + 1);
                    assert(t.drop_last() =~= jv_seq(a@).take(i as int));
                    assert(t.last() == jv(a@[i as int]));
                    if i == 0 {
                        assert(t.len() == 1);
                        assert(jv_seq(a@).take(i as int) =~= Seq::<JsonV>::empty());
                        assert(out@ =~= start + seq!['['] + compact_items(t));
                    } else {
                        assert(out@ =~= start + seq!['['] + compact_items(t));
                    }
                }
                i += 1;
            }
            out.push(']');
            proof {
                assert(jv_seq(a@).take(a@.len() as int) =~= jv_seq(a@));
                assert(out@ =~= start + compact(jv(*j)));
            }
        },
        Json::Object(es) => {
            out.push('{');
            let mut i: usize = 0;
            proof {
                lemma_jv_entries(es@);
                assert(jv_entries(es@).take(0) =~= Seq::<(Seq<char>, JsonV)>::empty());
            }
            while i < es.len()
                invariant
                    *j == Json::Object(*es),
                    i <= es@.len(),
                    jv_entries(es@).len() == es@.len(),
                    forall|m: int|
                        0 <= m < es@.len() ==> #[trigger] jv_entries(es@)[m] == (
                            es@[m].0@,
                            jv(es@[m].1),
                        ),
                    out@ == start + seq!['{'] + compact_members(jv_entries(es@).take(i as int)),
                decreases es.len() - i,
            {
                if i > 0 {
                    out.push(',');
                }
                push_quoted(out, es[i].0.as_str());
                out.push(':');
                proof {
                    assert(decreases_to!(*j => (*j)->Object_0));
                    assert(decreases_to!(*es => es@));
                    vstd::seq::axiom_seq_index_decreases(es@, i as int);
                    assert(decreases_to!(es@[i as int] => es@[i as int].1));
                }
                write_compact(out, &es[i].1);
                proof {
                    let t = jv_entries(es@).take(i + 1);
                    assert(t.drop_last() =~= jv_entries(es@).take(i as int));
                    assert(t.last() == (es@[i as int].0@, jv(es@[i as int].1)));
                    if i == 0 {
                        assert(t.len() == 1);
                        assert(jv_entries(es@).take(i as int) =~= Seq::<
                            (Seq<char>, JsonV),
                        >::empty());
                        assert(out@ =~= start + seq!['{'] + compact_members(t));
                    } else {
                        assert(out@ =~= start + seq!['{'] + compact_members(t));
                    }
                }
                i += 1;
            }
            out.push('}');
            proof {
                assert(jv_entries(es@).take(es@.len() as int) =~= jv_entries(es@));
                assert(out@ =~= start + compact(jv(*j)));
            }
        },
    }
}

/// The compact JSON text of `j`.
pub fn to_compact_string(j: &Json) -> (r: String)
    ensures
        r@ == compact(jv(*j)),
{
    let mut out: Vec<char> = Vec::new();
    write_compact(&mut out, j);
    assert(Seq::<char>::empty() + compact(jv(*j)) =~= compact(jv(*j)));
    string_of(&out)
}

/// The model of a list of entries, entry by entry.
pub open spec fn entries_model(v: Seq<(String, Json)>) -> Seq<(Seq<char>, JsonV)> {
    Seq::new(v.len(), |i: int| (v[i].0@, jv(v[i].1)))
}

/// The model of a list of values, value by value.
pub open spec fn values_model(v: Seq<Json>) -> Seq<JsonV> {
    Seq::new(v.len(), |i: int| jv(v[i]))
}

pub proof fn lemma_entries_model2(a: (String, Json), b: (String, Json))
    ensures
        entries_model(seq![a, b]) == seq![(a.0@, jv(a.1)), (b.0@, jv(b.1))],
{
    assert(entries_model(seq![a, b]) =~= seq![(a.0@, jv(a.1)), (b.0@, jv(b.1))]);
}

pub proof fn lemma_entries_model3(a: (String, Json), b: (String, Json), c: (String, Json))
    ensures
        entries_model(seq![a, b, c]) == seq![(a.0@, jv(a.1)), (b.0@, jv(b.1)), (c.0@, jv(c.1))],
{
    assert(entries_model(seq![a, b, c]) =~= seq![
        (a.0@, jv(a.1)),
        (b.0@, jv(b.1)),
        (c.0@, jv(c.1)),
    ]);
}

/// An object with two entries.
pub fn obj2(k1: &str, v1: Json, k2: &str, v2: Json) -> (r: Json)
    ensures
        jv(r) == JsonV::Object(seq![(k1@, jv(v1)), (k2@, jv(v2))]),
{
    let a = entry(k1, v1);
    let b = entry(k2, v2);
    proof {
        lemma_entries_model2(a, b);
    }
    obj(vec![a, b])
}

/// An object with three entries.
pub fn obj3(k1: &str, v1: Json, k2: &str, v2: Json, k3: &str, v3: Json) -> (r: Json)
    ensures
        jv(r) == JsonV::Object(seq![(k1@, jv(v1)), (k2@, jv(v2)), (k3@, jv(v3))]),
{
    let a = entry(k1, v1);
    let b = entry(k2, v2);
    let c = entry(k3, v3);
    proof {
        lemma_entries_model3(a, b, c);
    }
    obj(vec![a, b, c])
}

/// An array with one value.
pub fn arr1(v: Json) -> (r: Json)
    ensures
        jv(r) == JsonV::Array(seq![jv(v)]),
{
    let ghost m = jv(v);
    let mut items: Vec<Json> = Vec::new();
    items.push(v);
    assert(values_model(items@) =~= seq![m]);
    arr(items)
}

/// Appends the entry `(key, value)`.
pub fn push_entry(es: &mut Vec<(String, Json)>, key: &str, value: Json)
    ensures
        entries_model(final(es)@) == entries_model(old(es)@).push((key@, jv(value))),
{
    let ghost before = es@;
    let ghost vm = jv(value);
    es.push(entry(key, value));
    assert(entries_model(es@) =~= entries_model(before).push((key@, vm)));
}

/// Appends a value.
pub fn push_value(vs: &mut Vec<Json>, value: Json)
    ensures
        values_model(final(vs)@) == values_model(old(vs)@).push(jv(value)),
{
    let ghost before = vs@;
    let ghost vm = jv(value);
    vs.push(value);
    assert(values_model(vs@) =~= values_model(before).push(vm));
}

/// The model of a JSON integer.
pub open spec fn int_v(i: int) -> JsonV {
    if i >= 0 {
        JsonV::Number(NumV::PosInt(i as u64))
    } else {
        JsonV::Number(NumV::NegInt(i as i64))
    }
}

/// A JSON number holding `u`.
pub fn json_u64(u: u64) -> (r: Json)
    ensures
        jv(r) == int_v(u as int),
{
    Json::Number(JsonNumber::PosInt(u))
}

/// A JSON number holding `i`.
pub fn json_i64(i: i64) -> (r: Json)
    ensures
        jv(r) == int_v(i as int),
{
    if i >= 0 {
        Json::Number(JsonNumber::PosInt(i as u64))
    } else {
        Json::Number(JsonNumber::NegInt(i))
    }
}

/// An object with the given entries, in order.
pub fn obj(v: Vec<(String, Json)>) -> (r: Json)
    ensures
        jv(r) == JsonV::Object(entries_model(v@)),
{
    proof {
        lemma_jv_entries(v@);
        assert(jv_entries(v@) =~= entries_model(v@));
    }
    Json::Object(v)
}

/// An array with the given values, in order.
pub fn arr(v: Vec<Json>) -> (r: Json)
    ensures
        jv(r) == JsonV::Array(values_model(v@)),
{
    proof {
        lemma_jv_seq(v@);
        assert(jv_seq(v@) =~= values_model(v@));
    }
    Json::Array(v)
}

/// An entry `(key, value)`.
pub fn entry(key: &str, value: Json) -> (r: (String, Json))
    ensures
        r.0@ == key@,
        jv(r.1) == jv(value),
{
    (owned(key), value)
}

/// Builds an object from entries.
pub fn object_of(entries: Vec<(String, Json)>) -> (r: Json)
    ensures
        jv(r) == JsonV::Object(jv_entries(entries@)),
{
    Json::Object(entries)
}

} // verus!
