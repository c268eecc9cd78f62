//! The local router's protocol logic: it accepts OpenAI Responses requests and
//! converts them to and from a Chat Completions upstream.

use vstd::prelude::*;

use crate::json::{
    int_v, json_i64, json_u64, push_entry, push_value, v_as_i64, v_as_u64,
    arr, arr1, compact, entries_model, entry, jv, obj2, obj3, jv_seq, lemma_jv_seq, obj, opt_jv, to_compact_string,
    v_as_array, v_as_bool, v_as_str, v_get, v_get_opt, v_is_number, v_is_object, v_opt_str,
    values_model, Json, JsonV,
};
use crate::text::{
    chars_of, ends_with, ends_with_exec, find_chars, find_first, lemma_find_first,
    lemma_find_first_append, lemma_find_first_is, lemma_find_first_none, occurs_at, slice_chars,
    string_of, is_blank, is_blank_str, owned, str_eq, decimal, decimal_chars, push_str_chars,
};

verus! {

// ---------------------------------------------------------------------------
// Inline `<think>` blocks
// ---------------------------------------------------------------------------

/// Whether the parser is outside or inside a `<think>` block.
#[derive(Clone, Copy, Debug, PartialEq, Eq, Structural)]
pub enum InlineThinkMode {
    Text,
    Reasoning,
}

/// What a delta produced by the parser carries.
#[derive(Clone, Copy, Debug, PartialEq, Eq, Structural)]
pub enum InlineDeltaKind {
    Text,
    Reasoning,
}

/// A piece of visible text or of reasoning recovered from a stream.
#[derive(Clone, Debug, PartialEq, Eq)]
pub struct InlineDelta {
    pub kind: InlineDeltaKind,
    pub text: String,
}

/// Splits a stream of text deltas into visible text and the reasoning that
/// an upstream model wrote between `<think>` and `</think>`.
#[derive(Debug)]
pub struct InlineThinkParser {
    mode: InlineThinkMode,
    pending: Vec<char>,
}

pub open spec fn open_tag() -> Seq<char> {
    seq!['<', 't', 'h', 'i', 'n', 'k', '>']
}

pub open spec fn close_tag() -> Seq<char> {
    seq!['<', '/', 't', 'h', 'i', 'n', 'k', '>']
}

/// The tag that ends the current mode.
pub open spec fn tag_for(mode: InlineThinkMode) -> Seq<char> {
    match mode {
        InlineThinkMode::Text => open_tag(),
        InlineThinkMode::Reasoning => close_tag(),
    }
}

pub open spec fn kind_for(mode: InlineThinkMode) -> InlineDeltaKind {
    match mode {
        InlineThinkMode::Text => InlineDeltaKind::Text,
        InlineThinkMode::Reasoning => InlineDeltaKind::Reasoning,
    }
}

pub open spec fn flip(mode: InlineThinkMode) -> InlineThinkMode {
    match mode {
        InlineThinkMode::Text => InlineThinkMode::Reasoning,
        InlineThinkMode::Reasoning => InlineThinkMode::Text,
    }
}

/// Searches lengths `l, l - 1, ..., 1` for a suffix of `s` of that length
/// that is a prefix of `tag`.
pub open spec fn suffix_prefix_from(s: Seq<char>, tag: Seq<char>, l: nat) -> nat
    decreases l,
{
    if l == 0 {
        0
    } else if l <= tag.len() && ends_with(s, tag.take(l as int)) {
        l
    } else {
        suffix_prefix_from(s, tag, (l - 1) as nat)
    }
}

/// The length of the longest suffix of `s`, shorter than `tag`, that is a
/// prefix of `tag` (0 when there is none).
pub open spec fn partial_suffix_len(s: Seq<char>, tag: Seq<char>) -> nat {
    let max = if s.len() < tag.len() {
        s.len()
    } else if tag.len() == 0 {
        0
    } else {
        (tag.len() - 1) as nat
    };
    suffix_prefix_from(s, tag, max)
}

pub open spec fn delta_model(d: InlineDelta) -> (InlineDeltaKind, Seq<char>) {
    (d.kind, d.text@)
}

pub open spec fn deltas_model(v: Seq<InlineDelta>) -> Seq<(InlineDeltaKind, Seq<char>)> {
    v.map_values(|d: InlineDelta| delta_model(d))
}

/// The deltas that the parser emits from `pending` in `mode`, with the mode and
/// the pending text it is left with. Without `flush` a trailing partial tag
/// is held back until more text arrives.
pub open spec fn drain_spec(mode: InlineThinkMode, pending: Seq<char>, flush: bool) -> (
    Seq<(InlineDeltaKind, Seq<char>)>,
    InlineThinkMode,
    Seq<char>,
)
    decreases pending.len(),
{
    let tag = tag_for(mode);
    match find_first(pending, tag) {
        Some(i) => {
            proof {
                lemma_find_first(pending, tag);
            }
            let before = pending.take(i);
            let rest = pending.skip(i + tag.len());
            let after = drain_spec(flip(mode), rest, flush);
            let events = if before.len() > 0 {
                seq![(kind_for(mode), before)] + after.0
            } else {
                after.0
            };
            (events, after.1, after.2)
        },
        None => {
            let keep = if flush {
                0
            } else {
                partial_suffix_len(pending, tag)
            };
            let n = pending.len() - keep;
            let events = if n > 0 {
                seq![(kind_for(mode), pending.take(n))]
            } else {
                Seq::empty()
            };
            (events, mode, pending.skip(n))
        },
    }
}

/// Visible text and reasoning `(text, reasoning)` of `s`, read in `mode`:
/// outside a block, text runs up to the next `<think>`; inside, reasoning
/// runs up to the next `</think>`; an unclosed block lasts to the end.
pub open spec fn think_split(s: Seq<char>, mode: InlineThinkMode) -> (Seq<char>, Seq<char>)
    decreases s.len(),
{
    let tag = tag_for(mode);
    match find_first(s, tag) {
        Some(i) => {
            proof {
                lemma_find_first(s, tag);
            }
            prepend_segment(mode, s.take(i), think_split(s.skip(i + tag.len()), flip(mode)))
        },
        None => prepend_segment(mode, s, (Seq::empty(), Seq::empty())),
    }
}

/// Puts `seg` in front of the text or the reasoning part, as `mode` says.
pub open spec fn prepend_segment(
    mode: InlineThinkMode,
    seg: Seq<char>,
    parts: (Seq<char>, Seq<char>),
) -> (Seq<char>, Seq<char>) {
    match mode {
        InlineThinkMode::Text => (seg + parts.0, parts.1),
        InlineThinkMode::Reasoning => (parts.0, seg + parts.1),
    }
}

pub open spec fn mode_of(kind: InlineDeltaKind) -> InlineThinkMode {
    match kind {
        InlineDeltaKind::Text => InlineThinkMode::Text,
        InlineDeltaKind::Reasoning => InlineThinkMode::Reasoning,
    }
}

/// The visible text and the reasoning carried by a list of deltas.
pub open spec fn deltas_split(events: Seq<(InlineDeltaKind, Seq<char>)>) -> (Seq<char>, Seq<char>)
    decreases events.len(),
{
    if events.len() == 0 {
        (Seq::empty(), Seq::empty())
    } else {
        prepend_segment(mode_of(events[0].0), events[0].1, deltas_split(events.drop_first()))
    }
}


// ---------------------------------------------------------------------------
// Streaming and batch splitting agree
// ---------------------------------------------------------------------------

/// Concatenates two `(text, reasoning)` pairs part by part.
pub open spec fn combine(a: (Seq<char>, Seq<char>), b: (Seq<char>, Seq<char>)) -> (
    Seq<char>,
    Seq<char>,
) {
    (a.0 + b.0, a.1 + b.1)
}

pub open spec fn empty_parts() -> (Seq<char>, Seq<char>) {
    (Seq::empty(), Seq::empty())
}

/// The state after pushing `chunks` one after the other, with every delta
/// emitted on the way; empty chunks change nothing.
pub open spec fn feed(mode: InlineThinkMode, pending: Seq<char>, chunks: Seq<Seq<char>>) -> (
    Seq<(InlineDeltaKind, Seq<char>)>,
    InlineThinkMode,
    Seq<char>,
)
    decreases chunks.len(),
{
    if chunks.len() == 0 {
        (Seq::empty(), mode, pending)
    } else {
        let c = chunks[0];
        let first = if c.len() == 0 {
            (Seq::<(InlineDeltaKind, Seq<char>)>::empty(), mode, pending)
        } else {
            drain_spec(mode, pending + c, false)
        };
        let rest = feed(first.1, first.2, chunks.drop_first());
        (first.0 + rest.0, rest.1, rest.2)
    }
}

/// All chunks joined.
pub open spec fn concat_chunks(chunks: Seq<Seq<char>>) -> Seq<char>
    decreases chunks.len(),
{
    if chunks.len() == 0 {
        Seq::empty()
    } else {
        chunks[0] + concat_chunks(chunks.drop_first())
    }
}

proof fn lemma_suffix_prefix_bound(s: Seq<char>, tag: Seq<char>, l: nat)
    ensures
        suffix_prefix_from(s, tag, l) <= l,
    decreases l,
{
    if l > 0 {
        lemma_suffix_prefix_bound(s, tag, (l - 1) as nat);
    }
}

proof fn lemma_suffix_prefix_max(s: Seq<char>, tag: Seq<char>, l: nat, l2: nat)
    requires
        1 <= l2 <= l,
        l2 <= tag.len(),
        ends_with(s, tag.take(l2 as int)),
    ensures
        suffix_prefix_from(s, tag, l) >= l2,
    decreases l,
{
    if l == l2 {
    } else if l <= tag.len() && ends_with(s, tag.take(l as int)) {
    } else {
        lemma_suffix_prefix_max(s, tag, (l - 1) as nat, l2);
    }
}

/// Text held back as a partial tag holds back no earlier occurrence.
proof fn lemma_hold_back(p: Seq<char>, t: Seq<char>, x: Seq<char>, n: nat)
    requires
        t.len() > 0,
        find_first(p, t) is None,
        n + partial_suffix_len(p, t) == p.len(),
    ensures
        ({
            let q = p.skip(n as int) + x;
            match find_first(p + x, t) {
                Some(j) => n <= j && find_first(q, t) == Some(j - n),
                None => find_first(q, t) is None,
            }
        }),
{
    let px = p + x;
    let q = p.skip(n as int) + x;
    lemma_find_first(p, t);
    lemma_find_first(px, t);
    assert(q =~= px.skip(n as int));
    let keep = partial_suffix_len(p, t);
    let max = if p.len() < t.len() {
        p.len()
    } else {
        (t.len() - 1) as nat
    };
    assert(keep == suffix_prefix_from(p, t, max));
    assert forall|j: int| occurs_at(px, t, j) implies n <= j by {
        if j + t.len() <= p.len() {
            assert(px.subrange(j, j + t.len()) =~= p.subrange(j, j + t.len()));
            assert(occurs_at(p, t, j));
        } else if j < p.len() {
            let l2 = (p.len() - j) as nat;
            assert(p.subrange(p.len() - l2, p.len() as int) =~= t.take(l2 as int)) by {
                assert forall|k: int| 0 <= k < l2 implies p.subrange(
                    p.len() - l2,
                    p.len() as int,
                )[k] == t.take(l2 as int)[k] by {
                    assert(px.subrange(j, j + t.len())[k] == t[k]);
                }
            }
            lemma_suffix_prefix_max(p, t, max, l2);
        }
    }
    assert forall|k: int| 0 <= k implies occurs_at(q, t, k) == occurs_at(px, t, n + k) by {
        if k + t.len() <= q.len() {
            assert(q.subrange(k, k + t.len()) =~= px.subrange(n + k, n + k + t.len()));
        }
    }
    match find_first(px, t) {
        Some(j) => {
            assert forall|k: int| 0 <= k < j - n implies !occurs_at(q, t, k) by {
                assert(!occurs_at(px, t, n + k));
            }
            lemma_find_first_is(q, t, j - n);
        },
        None => {
            assert forall|k: int| !occurs_at(q, t, k) by {
                if 0 <= k {
                    assert(!occurs_at(px, t, n + k));
                }
            }
            lemma_find_first_none(q, t);
        },
    }
}

proof fn lemma_prepend_combine(
    m: InlineThinkMode,
    seg: Seq<char>,
    a: (Seq<char>, Seq<char>),
    b: (Seq<char>, Seq<char>),
)
    ensures
        prepend_segment(m, seg, combine(a, b)) == combine(prepend_segment(m, seg, a), b),
{
    assert(seg + (a.0 + b.0) =~= (seg + a.0) + b.0);
    assert(seg + (a.1 + b.1) =~= (seg + a.1) + b.1);
}

proof fn lemma_prepend_concat(
    m: InlineThinkMode,
    s1: Seq<char>,
    s2: Seq<char>,
    a: (Seq<char>, Seq<char>),
)
    ensures
        prepend_segment(m, s1 + s2, a) == prepend_segment(m, s1, prepend_segment(m, s2, a)),
{
    assert((s1 + s2) + a.0 =~= s1 + (s2 + a.0));
    assert((s1 + s2) + a.1 =~= s1 + (s2 + a.1));
}

proof fn lemma_combine_assoc(
    a: (Seq<char>, Seq<char>),
    b: (Seq<char>, Seq<char>),
    c: (Seq<char>, Seq<char>),
)
    ensures
        combine(combine(a, b), c) == combine(a, combine(b, c)),
        combine(empty_parts(), a) == a,
        combine(a, empty_parts()) == a,
{
    assert((a.0 + b.0) + c.0 =~= a.0 + (b.0 + c.0));
    assert((a.1 + b.1) + c.1 =~= a.1 + (b.1 + c.1));
    assert(Seq::<char>::empty() + a.0 =~= a.0);
    assert(Seq::<char>::empty() + a.1 =~= a.1);
    assert(a.0 + Seq::<char>::empty() =~= a.0);
    assert(a.1 + Seq::<char>::empty() =~= a.1);
}

proof fn lemma_deltas_split_append(
    e1: Seq<(InlineDeltaKind, Seq<char>)>,
    e2: Seq<(InlineDeltaKind, Seq<char>)>,
)
    ensures
        deltas_split(e1 + e2) == combine(deltas_split(e1), deltas_split(e2)),
    decreases e1.len(),
{
    if e1.len() == 0 {
        assert(e1 + e2 =~= e2);
        lemma_combine_assoc(deltas_split(e2), empty_parts(), empty_parts());
    } else {
        assert((e1 + e2).drop_first() =~= e1.drop_first() + e2);
        lemma_deltas_split_append(e1.drop_first(), e2);
        lemma_prepend_combine(
            mode_of(e1[0].0),
            e1[0].1,
            deltas_split(e1.drop_first()),
            deltas_split(e2),
        );
    }
}

/// A single delta of `mode`'s kind puts its text in front.
proof fn lemma_deltas_split_single(
    mode: InlineThinkMode,
    seg: Seq<char>,
    rest: Seq<(InlineDeltaKind, Seq<char>)>,
)
    ensures
        deltas_split(seq![(kind_for(mode), seg)] + rest) == prepend_segment(
            mode,
            seg,
            deltas_split(rest),
        ),
{
    let e = seq![(kind_for(mode), seg)] + rest;
    assert(e.drop_first() =~= rest);
    assert(mode_of(kind_for(mode)) == mode);
}

proof fn lemma_prepend_empty(m: InlineThinkMode, a: (Seq<char>, Seq<char>))
    ensures
        prepend_segment(m, Seq::empty(), a) == a,
{
    assert(Seq::<char>::empty() + a.0 =~= a.0);
    assert(Seq::<char>::empty() + a.1 =~= a.1);
}

/// Without flushing, what the parser emits from `p` plus how it reads what it
/// keeps, followed by any further text `x`, is how `p + x` reads as a whole.
pub proof fn lemma_drain_keeps_split(mode: InlineThinkMode, p: Seq<char>, x: Seq<char>)
    ensures
        ({
            let d = drain_spec(mode, p, false);
            think_split(p + x, mode) == combine(deltas_split(d.0), think_split(d.2 + x, d.1))
        }),
    decreases p.len(),
{
    let t = tag_for(mode);
    lemma_find_first(p, t);
    let d = drain_spec(mode, p, false);
    match find_first(p, t) {
        Some(i) => {
            lemma_find_first_append(p, t, x);
            let before = p.take(i);
            let rest = p.skip(i + t.len());
            lemma_drain_keeps_split(flip(mode), rest, x);
            let dr = drain_spec(flip(mode), rest, false);
            assert((p + x).take(i) =~= before);
            assert((p + x).skip(i + t.len()) =~= rest + x);
            lemma_prepend_combine(mode, before, deltas_split(dr.0), think_split(dr.2 + x, dr.1));
            if before.len() > 0 {
                lemma_deltas_split_single(mode, before, dr.0);
            } else {
                lemma_prepend_empty(mode, deltas_split(dr.0));
                lemma_prepend_empty(mode, combine(deltas_split(dr.0), think_split(dr.2 + x, dr.1)));
            }
        },
        None => {
            let keep = partial_suffix_len(p, t);
            let max = if p.len() < t.len() {
                p.len()
            } else {
                (t.len() - 1) as nat
            };
            lemma_suffix_prefix_bound(p, t, max);
            let n = (p.len() - keep) as nat;
            lemma_hold_back(p, t, x, n);
            let q = p.skip(n as int) + x;
            let head = p.take(n as int);
            assert(p + x =~= head + q);
            match find_first(p + x, t) {
                Some(j) => {
                    lemma_find_first(p + x, t);
                    let tail = think_split((p + x).skip(j + t.len()), flip(mode));
                    assert((p + x).take(j) =~= head + q.take(j - n));
                    assert((p + x).skip(j + t.len()) =~= q.skip(j - n + t.len()));
                    lemma_prepend_concat(mode, head, q.take(j - n), tail);
                },
                None => {
                    lemma_prepend_concat(mode, head, q, empty_parts());
                },
            }
            lemma_prepend_combine(mode, head, empty_parts(), think_split(q, mode));
            lemma_combine_assoc(think_split(q, mode), empty_parts(), empty_parts());
            if n > 0 {
                lemma_deltas_split_single(mode, head, Seq::empty());
                assert(seq![(kind_for(mode), head)] + Seq::<(InlineDeltaKind, Seq<char>)>::empty()
                    =~= seq![(kind_for(mode), head)]);
            } else {
                assert(head =~= Seq::<char>::empty());
                lemma_prepend_empty(mode, think_split(q, mode));
                lemma_prepend_empty(mode, empty_parts());
            }
        },
    }
}

/// Flushing emits everything: the deltas carry exactly how `p` reads.
pub proof fn lemma_drain_flush(mode: InlineThinkMode, p: Seq<char>)
    ensures
        drain_spec(mode, p, true).2 == Seq::<char>::empty(),
        deltas_split(drain_spec(mode, p, true).0) == think_split(p, mode),
    decreases p.len(),
{
    let t = tag_for(mode);
    lemma_find_first(p, t);
    match find_first(p, t) {
        Some(i) => {
            let before = p.take(i);
            let rest = p.skip(i + t.len());
            lemma_drain_flush(flip(mode), rest);
            let dr = drain_spec(flip(mode), rest, true);
            if before.len() > 0 {
                lemma_deltas_split_single(mode, before, dr.0);
            } else {
                lemma_prepend_empty(mode, deltas_split(dr.0));
            }
        },
        None => {
            assert(p.skip(p.len() as int) =~= Seq::<char>::empty());
            if p.len() > 0 {
                assert(p.take(p.len() as int) =~= p);
                lemma_deltas_split_single(mode, p, Seq::empty());
                assert(seq![(kind_for(mode), p)] + Seq::<(InlineDeltaKind, Seq<char>)>::empty()
                    =~= seq![(kind_for(mode), p)]);
            } else {
                assert(p =~= Seq::<char>::empty());
                lemma_prepend_empty(mode, empty_parts());
            }
        },
    }
}

proof fn lemma_feed(
    mode: InlineThinkMode,
    pending: Seq<char>,
    chunks: Seq<Seq<char>>,
    x: Seq<char>,
)
    ensures
        ({
            let f = feed(mode, pending, chunks);
            think_split(pending + concat_chunks(chunks) + x, mode) == combine(
                deltas_split(f.0),
                think_split(f.2 + x, f.1),
            )
        }),
    decreases chunks.len(),
{
    let f = feed(mode, pending, chunks);
    if chunks.len() == 0 {
        assert(pending + concat_chunks(chunks) + x =~= pending + x);
        lemma_combine_assoc(think_split(pending + x, mode), empty_parts(), empty_parts());
    } else {
        let c = chunks[0];
        let rest = chunks.drop_first();
        let tail = concat_chunks(rest);
        if c.len() == 0 {
            assert(pending + concat_chunks(chunks) + x =~= pending + tail + x);
            lemma_feed(mode, pending, rest, x);
            let f2 = feed(mode, pending, rest);
            assert(Seq::<(InlineDeltaKind, Seq<char>)>::empty() + f2.0 =~= f2.0);
        } else {
            let d = drain_spec(mode, pending + c, false);
            lemma_drain_keeps_split(mode, pending + c, tail + x);
            lemma_feed(d.1, d.2, rest, x);
            let f2 = feed(d.1, d.2, rest);
            assert(pending + concat_chunks(chunks) + x =~= (pending + c) + (tail + x));
            assert(d.2 + (tail + x) =~= d.2 + tail + x);
            lemma_deltas_split_append(d.0, f2.0);
            lemma_combine_assoc(deltas_split(d.0), deltas_split(f2.0), think_split(f2.2 + x, f2.1));
        }
    }
}

/// Law: a text that arrives in any number of chunks is split into the same
/// visible text and reasoning as the whole text read at once, once the
/// stream is finished.
pub proof fn law_stream_matches_batch(chunks: Seq<Seq<char>>)
    ensures
        ({
            let f = feed(InlineThinkMode::Text, Seq::empty(), chunks);
            let last = drain_spec(f.1, f.2, true);
            deltas_split(f.0 + last.0) == think_split(concat_chunks(chunks), InlineThinkMode::Text)
        }),
{
    let f = feed(InlineThinkMode::Text, Seq::empty(), chunks);
    lemma_feed(InlineThinkMode::Text, Seq::empty(), chunks, Seq::empty());
    assert(Seq::<char>::empty() + concat_chunks(chunks) + Seq::<char>::empty() =~= concat_chunks(
        chunks,
    ));
    assert(f.2 + Seq::<char>::empty() =~= f.2);
    let last = drain_spec(f.1, f.2, true);
    lemma_drain_flush(f.1, f.2);
    lemma_deltas_split_append(f.0, last.0);
}

impl InlineThinkParser {
    pub closed spec fn mode(&self) -> InlineThinkMode {
        self.mode
    }

    pub closed spec fn pending(&self) -> Seq<char> {
        self.pending@
    }

    /// A parser outside any `<think>` block, with nothing pending.
    pub fn new() -> (r: Self)
        ensures
            r.mode() == InlineThinkMode::Text,
            r.pending() == Seq::<char>::empty(),
    {
        InlineThinkParser { mode: InlineThinkMode::Text, pending: Vec::new() }
    }

    /// Feeds a delta; returns what can be told apart already and keeps a
    /// trailing partial tag pending.
    pub fn push(&mut self, delta: &str) -> (r: Vec<InlineDelta>)
        ensures
            delta@.len() == 0 ==> r@.len() == 0 && final(self).mode() == old(self).mode()
                && final(self).pending() == old(self).pending(),
            delta@.len() > 0 ==> (deltas_model(r@), final(self).mode(), final(self).pending())
                == drain_spec(old(self).mode(), old(self).pending() + delta@, false),
    {
        let d = chars_of(delta);
        if d.len() == 0 {
            return Vec::new();
        }
        let mut d = d;
        self.pending.append(&mut d);
        self.drain(false)
    }

    /// Ends the stream: everything still pending is emitted.
    pub fn finish(&mut self) -> (r: Vec<InlineDelta>)
        ensures
            (deltas_model(r@), final(self).mode(), final(self).pending()) == drain_spec(
                old(self).mode(),
                old(self).pending(),
                true,
            ),
    {
        self.drain(true)
    }

    /// Emits the deltas that `pending` determines; see `drain_spec`.
    pub fn drain(&mut self, flush: bool) -> (r: Vec<InlineDelta>)
        ensures
            (deltas_model(r@), final(self).mode(), final(self).pending()) == drain_spec(
                old(self).mode(),
                old(self).pending(),
                flush,
            ),
    {
        let ghost goal = drain_spec(self.mode, self.pending@, flush);
        let mut events: Vec<InlineDelta> = Vec::new();
        loop
            invariant_except_break
                goal.0 == deltas_model(events@) + drain_spec(self.mode, self.pending@, flush).0,
                goal.1 == drain_spec(self.mode, self.pending@, flush).1,
                goal.2 == drain_spec(self.mode, self.pending@, flush).2,
            ensures
                goal == (deltas_model(events@), self.mode, self.pending@),
            decreases self.pending@.len(),
        {
            let ghost before_events = events@;
            let ghost p = self.pending@;
            let ghost m = self.mode;
            let plen = self.pending.len();
            let (tag, kind) = match self.mode {
                InlineThinkMode::Text => (open_tag_chars(), InlineDeltaKind::Text),
                InlineThinkMode::Reasoning => (close_tag_chars(), InlineDeltaKind::Reasoning),
            };
            match find_chars(&self.pending, &tag) {
                Some(index) => {
                    proof {
                        lemma_find_first(p, tag@);
                    }
                    let before = slice_chars(&self.pending, 0, index);
                    if before.len() > 0 {
                        events.push(InlineDelta { kind, text: string_of(&before) });
                    }
                    let rest = slice_chars(&self.pending, index + tag.len(), plen);
                    self.pending = rest;
                    self.mode = match self.mode {
                        InlineThinkMode::Text => InlineThinkMode::Reasoning,
                        InlineThinkMode::Reasoning => InlineThinkMode::Text,
                    };
                    proof {
                        assert(before@ =~= p.take(index as int));
                        assert(self.pending@ =~= p.skip(index + tag@.len()));
                        assert(deltas_model(events@) =~= deltas_model(before_events) + (
                        if before@.len() > 0 {
                            seq![(kind_for(m), before@)]
                        } else {
                            Seq::empty()
                        }));
                    }
                },
                None => {
                    let keep = if flush {
                        0
                    } else {
                        partial_tag_suffix_len(&self.pending, &tag)
                    };
                    let emit_len = self.pending.len() - keep;
                    if emit_len > 0 {
                        let text = slice_chars(&self.pending, 0, emit_len);
                        events.push(InlineDelta { kind, text: string_of(&text) });
                        proof {
                            assert(text@ =~= p.take(emit_len as int));
                        }
                    }
                    let rest = slice_chars(&self.pending, emit_len, self.pending.len());
                    self.pending = rest;
                    proof {
                        assert(self.pending@ =~= p.skip(emit_len as int));
                        assert(deltas_model(events@) =~= deltas_model(before_events) + (
                        if emit_len > 0 {
                            seq![(kind_for(m), p.take(emit_len as int))]
                        } else {
                            Seq::empty()
                        }));
                        assert(goal.0 =~= deltas_model(events@));
                    }
                    break ;
                },
            }
        }
        events
    }
}


/// The visible text and the reasoning carried by `events`, in order.
fn split_deltas(events: &Vec<InlineDelta>) -> (r: (Vec<char>, Vec<char>))
    ensures
        (r.0@, r.1@) == deltas_split(deltas_model(events@)),
{
    let ghost all = deltas_model(events@);
    let mut text: Vec<char> = Vec::new();
    let mut reasoning: Vec<char> = Vec::new();
    let mut i: usize = 0;
    proof {
        assert(all.skip(0) =~= all);
        lemma_combine_assoc(deltas_split(all), empty_parts(), empty_parts());
    }
    while i < events.len()
        invariant
            i <= events@.len(),
            all == deltas_model(events@),
            deltas_split(all) == combine((text@, reasoning@), deltas_split(all.skip(i as int))),
        decreases events.len() - i,
    {
        let ghost rest = all.skip(i as int);
        assert(rest.drop_first() =~= all.skip(i + 1));
        assert(rest[0] == delta_model(events@[i as int]));
        let mut seg = chars_of(events[i].text.as_str());
        let ghost tail = deltas_split(all.skip(i + 1));
        match events[i].kind {
            InlineDeltaKind::Text => {
                proof {
                    assert(text@ + (seg@ + tail.0) =~= (text@ + seg@) + tail.0);
                }
                text.append(&mut seg);
            },
            InlineDeltaKind::Reasoning => {
                proof {
                    assert(reasoning@ + (seg@ + tail.1) =~= (reasoning@ + seg@) + tail.1);
                }
                reasoning.append(&mut seg);
            },
        }
        i += 1;
    }
    assert(all.skip(i as int) =~= Seq::<(InlineDeltaKind, Seq<char>)>::empty());
    assert(text@ + Seq::<char>::empty() =~= text@);
    assert(reasoning@ + Seq::<char>::empty() =~= reasoning@);
    (text, reasoning)
}

/// Splits a complete message into its reasoning (`None` when there is none)
/// and its visible text.
pub fn split_inline_think_text(text: &str) -> (r: (Option<String>, String))
    ensures
        r.1@ == think_split(text@, InlineThinkMode::Text).0,
        r.0 is None <==> think_split(text@, InlineThinkMode::Text).1.len() == 0,
        r.0 matches Some(reasoning) ==> reasoning@ == think_split(text@, InlineThinkMode::Text).1,
{
    let mut parser = InlineThinkParser::new();
    let mut deltas = parser.push(text);
    let ghost after_push = (parser.mode(), parser.pending());
    let mut last = parser.finish();
    let ghost first_model = deltas_model(deltas@);
    let ghost last_model = deltas_model(last@);
    deltas.append(&mut last);
    proof {
        let chunks = seq![text@];
        law_stream_matches_batch(chunks);
        assert(chunks.drop_first() =~= Seq::<Seq<char>>::empty());
        assert(concat_chunks(Seq::<Seq<char>>::empty()) == Seq::<char>::empty());
        assert(chunks[0] == text@);
        assert(concat_chunks(chunks) =~= text@);
        assert(Seq::<char>::empty() + text@ =~= text@);
        let f = feed(InlineThinkMode::Text, Seq::empty(), chunks);
        let first = if text@.len() == 0 {
            (Seq::<(InlineDeltaKind, Seq<char>)>::empty(), InlineThinkMode::Text, Seq::<char>::empty())
        } else {
            drain_spec(InlineThinkMode::Text, Seq::<char>::empty() + text@, false)
        };
        let rest = feed(first.1, first.2, Seq::<Seq<char>>::empty());
        assert(f == (first.0 + rest.0, rest.1, rest.2));
        assert(first.0 =~= first_model);
        assert(first.0 + rest.0 =~= first_model);
        assert(f.0 =~= first_model);
        assert(deltas_model(deltas@) =~= first_model + last_model);
    }
    let (visible, reasoning) = split_deltas(&deltas);
    let reasoning_out = if reasoning.len() > 0 {
        Some(string_of(&reasoning))
    } else {
        None
    };
    (reasoning_out, string_of(&visible))
}

fn open_tag_chars() -> (r: Vec<char>)
    ensures
        r@ == open_tag(),
{
    let r = vec!['<', 't', 'h', 'i', 'n', 'k', '>'];
    assert(r@ =~= open_tag());
    r
}

fn close_tag_chars() -> (r: Vec<char>)
    ensures
        r@ == close_tag(),
{
    let r = vec!['<', '/', 't', 'h', 'i', 'n', 'k', '>'];
    assert(r@ =~= close_tag());
    r
}

/// The length of the longest suffix of `text`, shorter than `tag`, that is
/// a prefix of `tag`.
pub fn partial_tag_suffix_len(text: &[char], tag: &[char]) -> (r: usize)
    ensures
        r == partial_suffix_len(text@, tag@),
        r <= text@.len(),
{
    let max: usize = if text.len() < tag.len() {
        text.len()
    } else if tag.len() == 0 {
        0
    } else {
        tag.len() - 1
    };
    let mut l = max;
    assert(partial_suffix_len(text@, tag@) == suffix_prefix_from(text@, tag@, max as nat));
    while l > 0
        invariant
            partial_suffix_len(text@, tag@) == suffix_prefix_from(text@, tag@, max as nat),
            l <= max,
            max <= text@.len(),
            max <= tag@.len(),
            suffix_prefix_from(text@, tag@, max as nat) == suffix_prefix_from(
                text@,
                tag@,
                l as nat,
            ),
        decreases l,
    {
        let prefix = slice_chars(tag, 0, l);
        if ends_with_exec(text, &prefix) {
            assert(prefix@ =~= tag@.take(l as int));
            assert(suffix_prefix_from(text@, tag@, l as nat) == l);
            return l;
        }
        assert(prefix@ =~= tag@.take(l as int));
        l -= 1;
    }
    0
}


// ---------------------------------------------------------------------------
// Responses requests to Chat Completions requests
// ---------------------------------------------------------------------------

/// Where and how the router forwards requests.
#[derive(Clone, Debug)]
pub struct RouterConfig {
    pub port: u16,
    pub upstream_base_url: String,
    pub api_key: String,
    pub upstream_model: Option<String>,
    pub upstream_wire_api: String,
}

pub open spec fn sv(s: &str) -> Seq<char> {
    s@
}

/// The Chat Completions role for a Responses role.
pub open spec fn chat_role(role: Seq<char>) -> Seq<char> {
    if role == "system"@ || role == "developer"@ {
        "system"@
    } else if role == "assistant"@ {
        "assistant"@
    } else if role == "tool"@ {
        "tool"@
    } else {
        "user"@
    }
}

pub fn normalize_chat_role(role: &str) -> (r: &'static str)
    ensures
        r@ == chat_role(role@),
{
    if str_eq(role, "system") || str_eq(role, "developer") {
        "system"
    } else if str_eq(role, "assistant") {
        "assistant"
    } else if str_eq(role, "tool") {
        "tool"
    } else {
        "user"
    }
}

pub open spec fn opt_or<T>(a: Option<T>, b: Option<T>) -> Option<T> {
    if a is Some {
        a
    } else {
        b
    }
}

/// The text of a content part: its `text`, `input_text` or `output_text`
/// member, whichever is present first, when that member is a string.
pub open spec fn part_text(item: JsonV) -> Option<Seq<char>> {
    v_opt_str(
        opt_or(
            v_get(item, "text"@),
            opt_or(v_get(item, "input_text"@), v_get(item, "output_text"@)),
        ),
    )
}

/// The texts of the parts that have one, in order.
pub open spec fn part_texts(items: Seq<JsonV>) -> Seq<Seq<char>>
    decreases items.len(),
{
    if items.len() == 0 {
        Seq::empty()
    } else {
        let rest = part_texts(items.drop_last());
        match part_text(items.last()) {
            Some(t) => rest.push(t),
            None => rest,
        }
    }
}

/// Parts joined with line breaks.
pub open spec fn join_lines(parts: Seq<Seq<char>>) -> Seq<char>
    decreases parts.len(),
{
    if parts.len() == 0 {
        Seq::empty()
    } else if parts.len() == 1 {
        parts[0]
    } else {
        join_lines(parts.drop_last()) + seq!['\n'] + parts.last()
    }
}

/// The text of a message content: a string as is, the texts of an array of
/// parts joined by line breaks, nothing for `null`, and any other value as
/// its compact JSON text.
pub open spec fn content_text(content: JsonV) -> Seq<char> {
    match content {
        JsonV::Str(t) => t,
        JsonV::Array(items) => join_lines(part_texts(items)),
        JsonV::Null => Seq::empty(),
        _ => compact(content),
    }
}

fn part_text_exec(item: &Json) -> (r: Option<&String>)
    ensures
        match r {
            Some(s) => part_text(jv(*item)) == Some(s@),
            None => part_text(jv(*item)) is None,
        },
{
    let found = match item.get("text") {
        Some(v) => Some(v),
        None => match item.get("input_text") {
            Some(v) => Some(v),
            None => item.get("output_text"),
        },
    };
    match found {
        Some(v) => v.as_str(),
        None => None,
    }
}

pub fn response_content_to_text(content: &Json) -> (r: String)
    ensures
        r@ == content_text(jv(*content)),
{
    match content {
        Json::String(t) => t.clone(),
        Json::Array(items) => {
            let mut out: Vec<char> = Vec::new();
            let mut count: usize = 0;
            let mut i: usize = 0;
            proof {
                lemma_jv_seq(items@);
                assert(jv_seq(items@).take(0) =~= Seq::<JsonV>::empty());
            }
            while i < items.len()
                invariant
                    i <= items@.len(),
                    jv_seq(items@).len() == items@.len(),
                    forall|m: int| 0 <= m < items@.len() ==> #[trigger] jv_seq(items@)[m] == jv(items@[m]),
                    count == part_texts(jv_seq(items@).take(i as int)).len(),
                    count <= i,
                    out@ == join_lines(part_texts(jv_seq(items@).take(i as int))),
                decreases items.len() - i,
            {
                let ghost t = jv_seq(items@).take(i + 1);
                proof {
                    assert(t.drop_last() =~= jv_seq(items@).take(i as int));
                    assert(t.last() == jv(items@[i as int]));
                }
                match part_text_exec(&items[i]) {
                    Some(text) => {
                        let ghost prev = part_texts(jv_seq(items@).take(i as int));
                        if count > 0 {
                            out.push('\n');
                        }
                        let mut cs = crate::text::chars_of(text.as_str());
                        out.append(&mut cs);
                        proof {
                            let now = prev.push(text@);
                            assert(now.drop_last() =~= prev);
                            if count == 0 {
                                assert(prev.len() == 0);
                                assert(out@ =~= text@);
                            }
                        }
                        count += 1;
                    },
                    None => {},
                }
                i += 1;
            }
            proof {
                assert(jv_seq(items@).take(items@.len() as int) =~= jv_seq(items@));
            }
            string_of(&out)
        },
        Json::Null => String::new(),
        _ => to_compact_string(content),
    }
}

/// A string member: `Some` when `key` holds a string.
pub open spec fn str_member(v: JsonV, key: Seq<char>) -> Option<Seq<char>> {
    v_opt_str(v_get(v, key))
}

/// The call id of a function-call item: `call_id`, else `callId`, when it is
/// a string that is not blank.
pub open spec fn call_id_of(item: JsonV) -> Option<Seq<char>> {
    match v_opt_str(opt_or(v_get(item, "call_id"@), v_get(item, "callId"@))) {
        Some(id) => if is_blank(id) {
            None
        } else {
            Some(id)
        },
        None => None,
    }
}

pub open spec fn nonempty_text(v: Option<JsonV>) -> Option<Seq<char>> {
    match v {
        Some(c) => if content_text(c).len() > 0 {
            Some(content_text(c))
        } else {
            None
        },
        None => None,
    }
}

pub open spec fn function_call_output_message(item: JsonV) -> Option<JsonV> {
    match call_id_of(item) {
        Some(id) => {
            let content = match nonempty_text(v_get(item, "output"@)) {
                Some(t) => t,
                None => match nonempty_text(v_get(item, "content"@)) {
                    Some(t) => t,
                    None => Seq::empty(),
                },
            };
            Some(
                JsonV::Object(
                    seq![
                        ("role"@, JsonV::Str("tool"@)),
                        ("tool_call_id"@, JsonV::Str(id)),
                        ("content"@, JsonV::Str(content)),
                    ],
                ),
            )
        },
        None => None,
    }
}

pub open spec fn function_call_message(item: JsonV) -> Option<JsonV> {
    let id = match call_id_of(item) {
        Some(id) => id,
        None => "call_codex_toolkit"@,
    };
    match str_member(item, "name"@) {
        Some(name) => if is_blank(name) {
            None
        } else {
            let arguments = match str_member(item, "arguments"@) {
                Some(a) => a,
                None => Seq::empty(),
            };
            let function = JsonV::Object(
                seq![("name"@, JsonV::Str(name)), ("arguments"@, JsonV::Str(arguments))],
            );
            let call = JsonV::Object(
                seq![
                    ("id"@, JsonV::Str(id)),
                    ("type"@, JsonV::Str("function"@)),
                    ("function"@, function),
                ],
            );
            Some(
                JsonV::Object(
                    seq![
                        ("role"@, JsonV::Str("assistant"@)),
                        ("content"@, JsonV::Str(Seq::empty())),
                        ("tool_calls"@, JsonV::Array(seq![call])),
                    ],
                ),
            )
        },
        None => None,
    }
}

/// The chat message for one Responses input item.
pub open spec fn item_message(item: JsonV) -> Option<JsonV> {
    let kind = str_member(item, "type"@);
    if kind == Some("function_call_output"@) {
        function_call_output_message(item)
    } else if kind == Some("function_call"@) {
        function_call_message(item)
    } else {
        let role = match str_member(item, "role"@) {
            Some(r) => chat_role(r),
            None => "user"@,
        };
        let content = match nonempty_text(v_get(item, "content"@)) {
            Some(t) => Some(t),
            None => str_member(item, "text"@),
        };
        match content {
            Some(c) => Some(
                JsonV::Object(seq![("role"@, JsonV::Str(role)), ("content"@, JsonV::Str(c))]),
            ),
            None => None,
        }
    }
}

fn str_member_exec<'a>(v: &'a Json, key: &str) -> (r: Option<&'a String>)
    ensures
        match r {
            Some(s) => str_member(jv(*v), key@) == Some(s@),
            None => str_member(jv(*v), key@) is None,
        },
{
    match v.get(key) {
        Some(x) => x.as_str(),
        None => None,
    }
}

fn call_id_exec(item: &Json) -> (r: Option<String>)
    ensures
        match r {
            Some(s) => call_id_of(jv(*item)) == Some(s@),
            None => call_id_of(jv(*item)) is None,
        },
{
    let found = match item.get("call_id") {
        Some(v) => Some(v),
        None => item.get("callId"),
    };
    let id = match found {
        Some(v) => v.as_str(),
        None => None,
    };
    match id {
        Some(s) => if is_blank_str(s.as_str()) {
            None
        } else {
            Some(s.clone())
        },
        None => None,
    }
}

fn nonempty_text_exec(v: Option<&Json>) -> (r: Option<String>)
    ensures
        match r {
            Some(s) => nonempty_text(opt_jv(v)) == Some(s@),
            None => nonempty_text(opt_jv(v)) is None,
        },
{
    match v {
        Some(c) => {
            let t = response_content_to_text(c);
            if !t.as_str().is_empty() {
                Some(t)
            } else {
                None
            }
        },
        None => None,
    }
}

pub fn function_call_output_to_chat_message(item: &Json) -> (r: Option<Json>)
    ensures
        match r {
            Some(m) => function_call_output_message(jv(*item)) == Some(jv(m)),
            None => function_call_output_message(jv(*item)) is None,
        },
{
    let id = match call_id_exec(item) {
        Some(id) => id,
        None => return None,
    };
    let content = match nonempty_text_exec(item.get("output")) {
        Some(t) => t,
        None => match nonempty_text_exec(item.get("content")) {
            Some(t) => t,
            None => String::new(),
        },
    };
    let role = Json::str_of("tool");
    let idv = Json::string_from(id);
    let cv = Json::string_from(content);
    let m = obj3("role", role, "tool_call_id", idv, "content", cv);
    Some(m)
}

pub fn function_call_item_to_chat_message(item: &Json) -> (r: Option<Json>)
    ensures
        match r {
            Some(m) => function_call_message(jv(*item)) == Some(jv(m)),
            None => function_call_message(jv(*item)) is None,
        },
{
    let id = match call_id_exec(item) {
        Some(id) => id,
        None => owned("call_codex_toolkit"),
    };
    let name = match str_member_exec(item, "name") {
        Some(n) => if is_blank_str(n.as_str()) {
            return None;
        } else {
            n.clone()
        },
        None => return None,
    };
    let arguments = match str_member_exec(item, "arguments") {
        Some(a) => a.clone(),
        None => String::new(),
    };
    let namev = Json::string_from(name);
    let argv = Json::string_from(arguments);
    let function = obj2("name", namev, "arguments", argv);
    let idv = Json::string_from(id);
    let typev = Json::str_of("function");
    let call = obj3("id", idv, "type", typev, "function", function);
    let calls = arr1(call);
    let rolev = Json::str_of("assistant");
    let contentv = Json::string_from(String::new());
    let m = obj3("role", rolev, "content", contentv, "tool_calls", calls);
    Some(m)
}

pub fn response_item_to_chat_message(item: &Json) -> (r: Option<Json>)
    ensures
        match r {
            Some(m) => item_message(jv(*item)) == Some(jv(m)),
            None => item_message(jv(*item)) is None,
        },
{
    let kind = str_member_exec(item, "type");
    match kind {
        Some(k) => {
            if str_eq(k.as_str(), "function_call_output") {
                return function_call_output_to_chat_message(item);
            }
            if str_eq(k.as_str(), "function_call") {
                return function_call_item_to_chat_message(item);
            }
        },
        None => {},
    }
    let role: &str = match str_member_exec(item, "role") {
        Some(r) => normalize_chat_role(r.as_str()),
        None => "user",
    };
    let content = match nonempty_text_exec(item.get("content")) {
        Some(t) => t,
        None => match str_member_exec(item, "text") {
            Some(t) => t.clone(),
            None => return None,
        },
    };
    let rolev = Json::str_of(role);
    let contentv = Json::string_from(content);
    let m = obj2("role", rolev, "content", contentv);
    Some(m)
}



/// The chat messages for a list of Responses input items; items without a
/// message are skipped.
pub open spec fn item_messages(items: Seq<JsonV>) -> Seq<JsonV>
    decreases items.len(),
{
    if items.len() == 0 {
        Seq::empty()
    } else {
        let rest = item_messages(items.drop_last());
        match item_message(items.last()) {
            Some(m) => rest.push(m),
            None => rest,
        }
    }
}

pub open spec fn text_message(role: Seq<char>, content: Seq<char>) -> JsonV {
    JsonV::Object(seq![("role"@, JsonV::Str(role)), ("content"@, JsonV::Str(content))])
}

/// The chat messages of a Responses request: a system message for non-blank
/// `instructions`, then the `input` (a string is one user message; an array
/// is read item by item); a request with neither gets one empty user
/// message.
pub open spec fn request_messages(req: JsonV) -> Seq<JsonV> {
    let system = match str_member(req, "instructions"@) {
        Some(s) => if is_blank(s) {
            Seq::empty()
        } else {
            seq![text_message("system"@, s)]
        },
        None => Seq::empty(),
    };
    let input = match v_get(req, "input"@) {
        Some(JsonV::Str(t)) => seq![text_message("user"@, t)],
        Some(JsonV::Array(items)) => item_messages(items),
        _ => Seq::empty(),
    };
    let all = system + input;
    if all.len() == 0 {
        seq![text_message("user"@, Seq::empty())]
    } else {
        all
    }
}

fn text_message_exec(role: &str, content: String) -> (r: Json)
    ensures
        jv(r) == text_message(role@, content@),
{
    let rv = Json::str_of(role);
    let cv = Json::string_from(content);
    obj2("role", rv, "content", cv)
}

pub fn extract_messages(req: &Json) -> (r: Vec<Json>)
    ensures
        values_model(r@) == request_messages(jv(*req)),
{
    let mut messages: Vec<Json> = Vec::new();
    match str_member_exec(req, "instructions") {
        Some(s) => if !is_blank_str(s.as_str()) {
            messages.push(text_message_exec("system", s.clone()));
        },
        None => {},
    }
    let ghost system = values_model(messages@);
    match req.get("input") {
        Some(Json::String(t)) => {
            messages.push(text_message_exec("user", t.clone()));
        },
        Some(Json::Array(items)) => {
            let mut i: usize = 0;
            proof {
                lemma_jv_seq(items@);
                assert(jv_seq(items@).take(0) =~= Seq::<JsonV>::empty());
                assert(values_model(messages@) =~= system + item_messages(Seq::<JsonV>::empty()));
            }
            while i < items.len()
                invariant
                    i <= items@.len(),
                    jv_seq(items@).len() == items@.len(),
                    forall|m: int| 0 <= m < items@.len() ==> #[trigger] jv_seq(items@)[m] == jv(items@[m]),
                    values_model(messages@) == system + item_messages(jv_seq(items@).take(i as int)),
                decreases items.len() - i,
            {
                let ghost t = jv_seq(items@).take(i + 1);
                let ghost before = messages@;
                proof {
                    assert(t.drop_last() =~= jv_seq(items@).take(i as int));
                    assert(t.last() == jv(items@[i as int]));
                }
                match response_item_to_chat_message(&items[i]) {
                    Some(m) => {
                        messages.push(m);
                        assert(values_model(messages@) =~= values_model(before).push(jv(messages@.last())));
                    },
                    None => {},
                }
                i += 1;
            }
            proof {
                assert(jv_seq(items@).take(items@.len() as int) =~= jv_seq(items@));
            }
        },
        _ => {},
    }
    if messages.len() == 0 {
        messages.push(text_message_exec("user", String::new()));
        assert(values_model(messages@) =~= seq![text_message("user"@, Seq::empty())]);
    }
    proof {
        let all = values_model(messages@);
        assert(all.len() == messages@.len());
    }
    messages
}

/// A function tool of a Responses request in Chat Completions form; other
/// tools, and function tools without a name, have none.
pub open spec fn chat_tool(tool: JsonV) -> Option<JsonV> {
    if str_member(tool, "type"@) != Some("function"@) {
        None
    } else {
        match v_get(tool, "name"@) {
            Some(name) => {
                let description = match v_get(tool, "description"@) {
                    Some(d) => d,
                    None => JsonV::Str(Seq::empty()),
                };
                let parameters = match v_get(tool, "parameters"@) {
                    Some(p) => p,
                    None => JsonV::Object(
                        seq![
                            ("type"@, JsonV::Str("object"@)),
                            ("properties"@, JsonV::Object(Seq::empty())),
                        ],
                    ),
                };
                Some(
                    JsonV::Object(
                        seq![
                            ("type"@, JsonV::Str("function"@)),
                            (
                                "function"@,
                                JsonV::Object(
                                    seq![
                                        ("name"@, name),
                                        ("description"@, description),
                                        ("parameters"@, parameters),
                                    ],
                                ),
                            ),
                        ],
                    ),
                )
            },
            None => None,
        }
    }
}

pub open spec fn chat_tools(tools: Seq<JsonV>) -> Seq<JsonV>
    decreases tools.len(),
{
    if tools.len() == 0 {
        Seq::empty()
    } else {
        let rest = chat_tools(tools.drop_last());
        match chat_tool(tools.last()) {
            Some(t) => rest.push(t),
            None => rest,
        }
    }
}

pub fn response_tool_to_chat_tool(tool: &Json) -> (r: Option<Json>)
    ensures
        match r {
            Some(t) => chat_tool(jv(*tool)) == Some(jv(t)),
            None => chat_tool(jv(*tool)) is None,
        },
{
    match str_member_exec(tool, "type") {
        Some(t) => if !str_eq(t.as_str(), "function") {
            return None;
        },
        None => return None,
    }
    let name = match tool.get("name") {
        Some(n) => n.deep_clone(),
        None => return None,
    };
    let description = match tool.get("description") {
        Some(d) => d.deep_clone(),
        None => Json::string_from(String::new()),
    };
    let parameters = match tool.get("parameters") {
        Some(p) => p.deep_clone(),
        None => {
            let t = Json::str_of("object");
            let props = obj(Vec::new());
            proof {
                assert(entries_model(Seq::<(String, Json)>::empty()) =~= Seq::<(Seq<char>, JsonV)>::empty());
            }
            obj2("type", t, "properties", props)
        },
    };
    let function = obj3("name", name, "description", description, "parameters", parameters);
    let ty = Json::str_of("function");
    Some(obj2("type", ty, "function", function))
}

/// Appends `(dst, value)` when `src` holds a number.
pub open spec fn with_number(
    es: Seq<(Seq<char>, JsonV)>,
    req: JsonV,
    src: Seq<char>,
    dst: Seq<char>,
) -> Seq<(Seq<char>, JsonV)> {
    match v_get(req, src) {
        Some(v) => if v_is_number(v) {
            es.push((dst, v))
        } else {
            es
        },
        None => es,
    }
}

/// The Chat Completions request for a Responses request: the configured
/// upstream model (else the request's model, else `deepseek-chat`), the
/// messages, numeric `temperature`, `top_p` and `max_output_tokens` (as
/// `max_tokens`), `stream` when it is `true`, the reasoning effort, and the
/// function tools when there are any.
pub open spec fn chat_request(req: JsonV, upstream_model: Option<Seq<char>>) -> JsonV {
    let model = match upstream_model {
        Some(m) => m,
        None => match str_member(req, "model"@) {
            Some(m) => m,
            None => "deepseek-chat"@,
        },
    };
    let e0 = seq![
        ("model"@, JsonV::Str(model)),
        ("messages"@, JsonV::Array(request_messages(req))),
    ];
    let e1 = with_number(e0, req, "temperature"@, "temperature"@);
    let e2 = with_number(e1, req, "top_p"@, "top_p"@);
    let e3 = with_number(e2, req, "max_output_tokens"@, "max_tokens"@);
    let e4 = if v_opt_bool(v_get(req, "stream"@)) == Some(true) {
        e3.push(("stream"@, JsonV::Bool(true)))
    } else {
        e3
    };
    let e5 = match v_opt_str(v_get_opt(v_get(req, "reasoning"@), "effort"@)) {
        Some(effort) => e4.push(("reasoning_effort"@, JsonV::Str(effort))),
        None => e4,
    };
    let e6 = match v_get(req, "tools"@) {
        Some(JsonV::Array(tools)) => if chat_tools(tools).len() > 0 {
            e5.push(("tools"@, JsonV::Array(chat_tools(tools))))
        } else {
            e5
        },
        _ => e5,
    };
    JsonV::Object(e6)
}

pub open spec fn v_opt_bool(v: Option<JsonV>) -> Option<bool> {
    match v {
        Some(x) => v_as_bool(x),
        None => None,
    }
}

pub open spec fn opt_str_view(o: Option<String>) -> Option<Seq<char>> {
    match o {
        Some(s) => Some(s@),
        None => None,
    }
}

fn copy_number(source: &Json, target: &mut Vec<(String, Json)>, src: &str, dst: &str)
    ensures
        entries_model(final(target)@) == with_number(
            entries_model(old(target)@),
            jv(*source),
            src@,
            dst@,
        ),
{
    match source.get(src) {
        Some(v) => if v.is_number() {
            let ghost before = target@;
            target.push(entry(dst, v.deep_clone()));
            assert(entries_model(target@) =~= entries_model(before).push(
                (dst@, jv(target@.last().1)),
            ));
        },
        None => {},
    }
}

pub fn responses_to_chat_request(req: &Json, config: &RouterConfig) -> (r: Json)
    ensures
        jv(r) == chat_request(jv(*req), opt_str_view(config.upstream_model)),
{
    let model: String = match &config.upstream_model {
        Some(m) => m.clone(),
        None => match str_member_exec(req, "model") {
            Some(m) => m.clone(),
            None => owned("deepseek-chat"),
        },
    };
    let messages = extract_messages(req);
    let mv = Json::string_from(model);
    let msgs = arr(messages);
    let ghost rq = jv(*req);
    let ghost e0 = seq![("model"@, jv(mv)), ("messages"@, jv(msgs))];
    let mut es: Vec<(String, Json)> = Vec::new();
    es.push(entry("model", mv));
    es.push(entry("messages", msgs));
    assert(entries_model(es@) =~= e0);
    assert(e0 == seq![
        ("model"@, JsonV::Str(model@)),
        ("messages"@, JsonV::Array(request_messages(rq))),
    ]);
    copy_number(req, &mut es, "temperature", "temperature");
    copy_number(req, &mut es, "top_p", "top_p");
    copy_number(req, &mut es, "max_output_tokens", "max_tokens");
    let ghost e3 = entries_model(es@);
    assert(e3 == with_number(
        with_number(with_number(e0, rq, "temperature"@, "temperature"@), rq, "top_p"@, "top_p"@),
        rq,
        "max_output_tokens"@,
        "max_tokens"@,
    ));
    let stream = match req.get("stream") {
        Some(v) => v.as_bool(),
        None => None,
    };
    if stream == Some(true) {
        let ghost before = es@;
        es.push(entry("stream", Json::Bool(true)));
        assert(entries_model(es@) =~= entries_model(before).push(("stream"@, JsonV::Bool(true))));
    }
    let ghost e4 = entries_model(es@);
    assert(e4 == if v_opt_bool(v_get(rq, "stream"@)) == Some(true) {
        e3.push(("stream"@, JsonV::Bool(true)))
    } else {
        e3
    });
    let effort = match req.get("reasoning") {
        Some(reasoning) => match reasoning.get("effort") {
            Some(e) => e.as_str(),
            None => None,
        },
        None => None,
    };
    match effort {
        Some(e) => {
            let ghost before = es@;
            es.push(entry("reasoning_effort", Json::string_from(e.clone())));
            assert(entries_model(es@) =~= entries_model(before).push(
                ("reasoning_effort"@, JsonV::Str(e@)),
            ));
        },
        None => {},
    }
    let ghost e5 = entries_model(es@);
    assert(e5 == match v_opt_str(v_get_opt(v_get(rq, "reasoning"@), "effort"@)) {
        Some(effort) => e4.push(("reasoning_effort"@, JsonV::Str(effort))),
        None => e4,
    });
    match req.get("tools") {
        Some(Json::Array(tools)) => {
            let mut converted: Vec<Json> = Vec::new();
            let mut i: usize = 0;
            proof {
                lemma_jv_seq(tools@);
                assert(jv_seq(tools@).take(0) =~= Seq::<JsonV>::empty());
                assert(values_model(converted@) =~= Seq::<JsonV>::empty());
            }
            while i < tools.len()
                invariant
                    i <= tools@.len(),
                    jv_seq(tools@).len() == tools@.len(),
                    forall|m: int| 0 <= m < tools@.len() ==> #[trigger] jv_seq(tools@)[m] == jv(tools@[m]),
                    values_model(converted@) == chat_tools(jv_seq(tools@).take(i as int)),
                decreases tools.len() - i,
            {
                let ghost t = jv_seq(tools@).take(i + 1);
                let ghost before = converted@;
                proof {
                    assert(t.drop_last() =~= jv_seq(tools@).take(i as int));
                    assert(t.last() == jv(tools@[i as int]));
                }
                match response_tool_to_chat_tool(&tools[i]) {
                    Some(c) => {
                        converted.push(c);
                        assert(values_model(converted@) =~= values_model(before).push(
                            jv(converted@.last()),
                        ));
                    },
                    None => {},
                }
                i += 1;
            }
            proof {
                assert(jv_seq(tools@).take(tools@.len() as int) =~= jv_seq(tools@));
            }
            if converted.len() > 0 {
                let ghost before = es@;
                let ghost cm = values_model(converted@);
                es.push(entry("tools", arr(converted)));
                assert(entries_model(es@) =~= entries_model(before).push(
                    ("tools"@, JsonV::Array(cm)),
                ));
            }
        },
        _ => {},
    }
    obj(es)
}


// ---------------------------------------------------------------------------
// Chat Completions responses to Responses responses
// ---------------------------------------------------------------------------

/// The first element of `choices`.
pub open spec fn first_choice(chunk: JsonV) -> Option<JsonV> {
    match v_get(chunk, "choices"@) {
        Some(JsonV::Array(cs)) => if cs.len() > 0 {
            Some(cs[0])
        } else {
            None
        },
        _ => None,
    }
}

/// The reasoning of a chat message: `reasoning_content`, else `reasoning`,
/// when it is a string.
pub open spec fn reasoning_text_of(message: JsonV) -> Option<Seq<char>> {
    v_opt_str(opt_or(v_get(message, "reasoning_content"@), v_get(message, "reasoning"@)))
}

pub open spec fn str_or_empty(o: Option<Seq<char>>) -> Seq<char> {
    match o {
        Some(s) => s,
        None => Seq::empty(),
    }
}

/// The Responses `function_call` item for the chat tool call at `index`.
pub open spec fn chat_tool_call_item(tc: JsonV, index: nat) -> Option<JsonV> {
    match v_get(tc, "function"@) {
        Some(f) => {
            let fallback = "call_codex_toolkit_"@ + decimal(index);
            let id = match str_member(tc, "id"@) {
                Some(i) => if is_blank(i) {
                    fallback
                } else {
                    i
                },
                None => fallback,
            };
            Some(
                JsonV::Object(
                    seq![
                        ("id"@, JsonV::Str("fc_"@ + id)),
                        ("type"@, JsonV::Str("function_call"@)),
                        ("status"@, JsonV::Str("completed"@)),
                        ("call_id"@, JsonV::Str(id)),
                        ("name"@, JsonV::Str(str_or_empty(str_member(f, "name"@)))),
                        ("arguments"@, JsonV::Str(str_or_empty(str_member(f, "arguments"@)))),
                    ],
                ),
            )
        },
        None => None,
    }
}

pub open spec fn tool_call_items(tcs: Seq<JsonV>) -> Seq<JsonV>
    decreases tcs.len(),
{
    if tcs.len() == 0 {
        Seq::empty()
    } else {
        let rest = tool_call_items(tcs.drop_last());
        match chat_tool_call_item(tcs.last(), (tcs.len() - 1) as nat) {
            Some(i) => rest.push(i),
            None => rest,
        }
    }
}

pub open spec fn u64_or_zero(v: Option<JsonV>) -> int {
    match v {
        Some(x) => match v_as_u64(x) {
            Some(n) => n as int,
            None => 0,
        },
        None => 0,
    }
}

/// Chat token usage in Responses form; `null` unless `usage` is an object.
pub open spec fn usage_v(usage: JsonV) -> JsonV {
    if !v_is_object(usage) {
        JsonV::Null
    } else {
        JsonV::Object(
            seq![
                ("input_tokens"@, int_v(u64_or_zero(v_get(usage, "prompt_tokens"@)))),
                ("output_tokens"@, int_v(u64_or_zero(v_get(usage, "completion_tokens"@)))),
                ("total_tokens"@, int_v(u64_or_zero(v_get(usage, "total_tokens"@)))),
            ],
        )
    }
}

/// Instructions stay instructions: an input message from the `developer`
/// or the `system`, with text content, becomes a chat message from the
/// `system` with the same text.
pub proof fn law_instruction_messages_become_system(item: JsonV, role: Seq<char>, text: Seq<char>)
    requires
        str_member(item, "type"@) != Some("function_call_output"@),
        str_member(item, "type"@) != Some("function_call"@),
        role == "developer"@ || role == "system"@,
        str_member(item, "role"@) == Some(role),
        v_get(item, "content"@) == Some(JsonV::Str(text)),
        text.len() > 0,
    ensures
        item_message(item) == Some(text_message("system"@, text)),
{
}

/// Any other role of an input message is carried over when the chat API
/// knows it (`assistant`, `tool`, `user`) and sent as `user` otherwise; a
/// message never reaches the chat API as `developer`.
pub proof fn law_message_roles_carried_over(item: JsonV, role: Seq<char>, text: Seq<char>)
    requires
        str_member(item, "type"@) != Some("function_call_output"@),
        str_member(item, "type"@) != Some("function_call"@),
        str_member(item, "role"@) == Some(role),
        v_get(item, "content"@) == Some(JsonV::Str(text)),
        text.len() > 0,
    ensures
        (role == "assistant"@ || role == "tool"@ || role == "user"@) ==> item_message(item) == Some(text_message(role, text)),
        !(role == "assistant"@ || role == "tool"@ || role == "user"@ || role == "system"@ || role == "developer"@)
            ==> item_message(item) == Some(text_message("user"@, text)),
        item_message(item) != Some(text_message("developer"@, text)),
{
    reveal_strlit("developer");
    reveal_strlit("system");
    reveal_strlit("assistant");
    reveal_strlit("tool");
    reveal_strlit("user");
    assert("developer"@ != "system"@ && "developer"@ != "assistant"@ && "developer"@ != "tool"@ && "developer"@ != "user"@) by {
        assert("developer"@.len() == 9 && "system"@.len() == 6 && "assistant"@.len() == 9 && "tool"@.len() == 4 && "user"@.len() == 4);
        assert("developer"@[0] != "assistant"@[0]);
    }
    assert("system"@[0] == 's' && "assistant"@[0] == 'a' && "tool"@[0] == 't' && "user"@[0] == 'u');
    assert("system"@ != "assistant"@ && "system"@ != "tool"@ && "system"@ != "user"@);
    assert("assistant"@ != "tool"@ && "assistant"@ != "user"@ && "tool"@ != "user"@);
    assert(text_message("developer"@, text) != text_message(chat_role(role), text)) by {
        let a = text_message("developer"@, text);
        let b = text_message(chat_role(role), text);
        if a == b {
            assert(a->Object_0[0] == b->Object_0[0]);
        }
    }
}

/// An input message that names no role comes from the `user`.
pub proof fn law_messages_without_role_are_user(item: JsonV, text: Seq<char>)
    requires
        str_member(item, "type"@) != Some("function_call_output"@),
        str_member(item, "type"@) != Some("function_call"@),
        str_member(item, "role"@) is None,
        v_get(item, "content"@) == Some(JsonV::Str(text)),
        text.len() > 0,
    ensures
        item_message(item) == Some(text_message("user"@, text)),
{
}

/// A usage that is not an object gives no usage.
pub proof fn law_usage_needs_an_object(usage: JsonV)
    requires
        !v_is_object(usage),
    ensures
        usage_v(usage) == JsonV::Null,
{
}

/// Token counts are carried over by meaning: the Responses input tokens are
/// the chat prompt tokens, the output tokens the completion tokens and the
/// total the total, each 0 when the chat usage gives no unsigned count.
pub proof fn law_usage_counts_carried_over(usage: JsonV, prompt: u64, completion: u64, total: u64)
    requires
        v_is_object(usage),
    ensures
        v_get(usage, "prompt_tokens"@) == Some(JsonV::Number(crate::json::NumV::PosInt(prompt)))
            ==> v_get(usage_v(usage), "input_tokens"@) == Some(JsonV::Number(crate::json::NumV::PosInt(prompt))),
        v_get(usage, "completion_tokens"@) == Some(JsonV::Number(crate::json::NumV::PosInt(completion)))
            ==> v_get(usage_v(usage), "output_tokens"@) == Some(JsonV::Number(crate::json::NumV::PosInt(completion))),
        v_get(usage, "total_tokens"@) == Some(JsonV::Number(crate::json::NumV::PosInt(total)))
            ==> v_get(usage_v(usage), "total_tokens"@) == Some(JsonV::Number(crate::json::NumV::PosInt(total))),
        v_get(usage, "prompt_tokens"@) is None ==> v_get(usage_v(usage), "input_tokens"@) == Some(JsonV::Number(crate::json::NumV::PosInt(0))),
        v_get(usage, "completion_tokens"@) is None ==> v_get(usage_v(usage), "output_tokens"@) == Some(JsonV::Number(crate::json::NumV::PosInt(0))),
        (v_get(usage, "prompt_tokens"@) matches Some(x) && v_as_u64(x) is None) ==> v_get(usage_v(usage), "input_tokens"@)
            == Some(JsonV::Number(crate::json::NumV::PosInt(0))),
        (v_get(usage, "completion_tokens"@) matches Some(x) && v_as_u64(x) is None) ==> v_get(usage_v(usage), "output_tokens"@)
            == Some(JsonV::Number(crate::json::NumV::PosInt(0))),
{
    reveal_strlit("input_tokens");
    reveal_strlit("output_tokens");
    reveal_strlit("total_tokens");
    assert("input_tokens"@ != "output_tokens"@) by {
        assert("input_tokens"@[0] != "output_tokens"@[0]);
    }
    assert("input_tokens"@ != "total_tokens"@) by {
        assert("input_tokens"@[0] != "total_tokens"@[0]);
    }
    assert("output_tokens"@ != "total_tokens"@) by {
        assert("output_tokens"@[0] != "total_tokens"@[0]);
    }
    reveal_with_fuel(crate::json::entries_lookup, 4);
}

pub open spec fn summary_part(text: Seq<char>) -> JsonV {
    JsonV::Object(seq![("type"@, JsonV::Str("summary_text"@)), ("text"@, JsonV::Str(text))])
}

pub open spec fn reasoning_item(id: Seq<char>, text: Seq<char>) -> JsonV {
    JsonV::Object(
        seq![
            ("id"@, JsonV::Str(id)),
            ("type"@, JsonV::Str("reasoning"@)),
            ("summary"@, JsonV::Array(seq![summary_part(text)])),
        ],
    )
}

pub open spec fn output_text_part(text: Seq<char>) -> JsonV {
    JsonV::Object(
        seq![
            ("type"@, JsonV::Str("output_text"@)),
            ("text"@, JsonV::Str(text)),
            ("annotations"@, JsonV::Array(Seq::empty())),
        ],
    )
}

pub open spec fn message_item(id: Seq<char>, status: Seq<char>, text: Seq<char>) -> JsonV {
    JsonV::Object(
        seq![
            ("id"@, JsonV::Str(id)),
            ("type"@, JsonV::Str("message"@)),
            ("status"@, JsonV::Str(status)),
            ("role"@, JsonV::Str("assistant"@)),
            ("content"@, JsonV::Array(seq![output_text_part(text)])),
        ],
    )
}

pub open spec fn i64_or_zero(v: Option<JsonV>) -> int {
    match v {
        Some(x) => match v_as_i64(x) {
            Some(n) => n as int,
            None => 0,
        },
        None => 0,
    }
}

/// The Responses response for a non-streamed chat completion: reasoning
/// (explicit, else from inline `<think>` blocks) as a reasoning item when
/// there is some, the visible text as a completed message, then the tool
/// calls; id, creation time, model and usage are carried over.
pub open spec fn chat_response_to_responses(chat: JsonV, req: JsonV) -> JsonV {
    let message = v_get_opt(first_choice(chat), "message"@);
    let output_text = match message {
        Some(m) => str_or_empty(str_member(m, "content"@)),
        None => Seq::empty(),
    };
    let explicit = match message {
        Some(m) => reasoning_text_of(m),
        None => None,
    };
    let split = think_split(output_text, InlineThinkMode::Text);
    let inline = if split.1.len() > 0 {
        Some(split.1)
    } else {
        None
    };
    let reasoning = opt_or(explicit, inline);
    let model = match opt_or(v_get(chat, "model"@), v_get(req, "model"@)) {
        Some(m) => m,
        None => JsonV::Str("deepseek-chat"@),
    };
    let usage = match v_get(chat, "usage"@) {
        Some(u) => u,
        None => JsonV::Null,
    };
    let out0 = match reasoning {
        Some(r) => if r.len() > 0 {
            seq![reasoning_item("rs_codex_toolkit"@, r)]
        } else {
            Seq::empty()
        },
        None => Seq::empty(),
    };
    let out1 = out0.push(message_item("msg_codex_toolkit"@, "completed"@, split.0));
    let out2 = match v_get_opt(message, "tool_calls"@) {
        Some(JsonV::Array(tcs)) => out1 + tool_call_items(tcs),
        _ => out1,
    };
    let id = match str_member(chat, "id"@) {
        Some(i) => i,
        None => "resp_codex_toolkit"@,
    };
    JsonV::Object(
        seq![
            ("id"@, JsonV::Str(id)),
            ("object"@, JsonV::Str("response"@)),
            ("created_at"@, int_v(i64_or_zero(v_get(chat, "created"@)))),
            ("model"@, model),
            ("status"@, JsonV::Str("completed"@)),
            ("output"@, JsonV::Array(out2)),
            ("usage"@, usage_v(usage)),
        ],
    )
}

fn first_choice_exec(chunk: &Json) -> (r: Option<&Json>)
    ensures
        opt_jv(r) == first_choice(jv(*chunk)),
{
    match chunk.get("choices") {
        Some(Json::Array(cs)) => {
            proof {
                lemma_jv_seq(cs@);
            }
            if cs.len() > 0 {
                Some(&cs[0])
            } else {
                None
            }
        },
        _ => None,
    }
}

pub fn message_reasoning_text(message: &Json) -> (r: Option<String>)
    ensures
        opt_str_view(r) == reasoning_text_of(jv(*message)),
{
    let found = match message.get("reasoning_content") {
        Some(v) => Some(v),
        None => message.get("reasoning"),
    };
    match found {
        Some(v) => match v.as_str() {
            Some(s) => Some(s.clone()),
            None => None,
        },
        None => None,
    }
}

fn str_member_or_empty(v: &Json, key: &str) -> (r: String)
    ensures
        r@ == str_or_empty(str_member(jv(*v), key@)),
{
    match str_member_exec(v, key) {
        Some(s) => s.clone(),
        None => String::new(),
    }
}

fn concat_str(a: &str, b: &[char]) -> (r: String)
    ensures
        r@ == a@ + b@,
{
    let mut out = crate::text::chars_of(a);
    let mut rest = slice_chars(b, 0, b.len());
    assert(b@.subrange(0, b@.len() as int) =~= b@);
    out.append(&mut rest);
    string_of(&out)
}

pub fn chat_tool_call_to_response_item(tool_call: &Json, index: usize) -> (r: Option<Json>)
    ensures
        match r {
            Some(i) => chat_tool_call_item(jv(*tool_call), index as nat) == Some(jv(i)),
            None => chat_tool_call_item(jv(*tool_call), index as nat) is None,
        },
{
    let function = match tool_call.get("function") {
        Some(f) => f,
        None => return None,
    };
    let digits = decimal_chars(index as u64);
    let id: String = match str_member_exec(tool_call, "id") {
        Some(i) => if is_blank_str(i.as_str()) {
            concat_str("call_codex_toolkit_", &digits)
        } else {
            i.clone()
        },
        None => concat_str("call_codex_toolkit_", &digits),
    };
    let id_chars = crate::text::chars_of(id.as_str());
    let item_id = concat_str("fc_", &id_chars);
    let name = str_member_or_empty(function, "name");
    let arguments = str_member_or_empty(function, "arguments");
    let mut es: Vec<(String, Json)> = Vec::new();
    push_entry(&mut es, "id", Json::string_from(item_id));
    push_entry(&mut es, "type", Json::str_of("function_call"));
    push_entry(&mut es, "status", Json::str_of("completed"));
    push_entry(&mut es, "call_id", Json::string_from(id));
    push_entry(&mut es, "name", Json::string_from(name));
    push_entry(&mut es, "arguments", Json::string_from(arguments));
    let ghost tc = jv(*tool_call);
    let ghost f = v_get(tc, "function"@)->0;
    assert(entries_model(es@) =~= seq![
        ("id"@, JsonV::Str("fc_"@ + id@)),
        ("type"@, JsonV::Str("function_call"@)),
        ("status"@, JsonV::Str("completed"@)),
        ("call_id"@, JsonV::Str(id@)),
        ("name"@, JsonV::Str(str_or_empty(str_member(f, "name"@)))),
        ("arguments"@, JsonV::Str(str_or_empty(str_member(f, "arguments"@)))),
    ]);
    let r = obj(es);
    Some(r)
}

pub fn normalize_usage(usage: &Json) -> (r: Json)
    ensures
        jv(r) == usage_v(jv(*usage)),
{
    if !usage.is_object() {
        return Json::Null;
    }
    let input = match usage.get("prompt_tokens") {
        Some(v) => match v.as_u64() {
            Some(n) => n,
            None => 0,
        },
        None => 0,
    };
    let output = match usage.get("completion_tokens") {
        Some(v) => match v.as_u64() {
            Some(n) => n,
            None => 0,
        },
        None => 0,
    };
    let total = match usage.get("total_tokens") {
        Some(v) => match v.as_u64() {
            Some(n) => n,
            None => 0,
        },
        None => 0,
    };
    obj3(
        "input_tokens",
        json_u64(input),
        "output_tokens",
        json_u64(output),
        "total_tokens",
        json_u64(total),
    )
}

fn summary_part_exec(text: String) -> (r: Json)
    ensures
        jv(r) == summary_part(text@),
{
    obj2("type", Json::str_of("summary_text"), "text", Json::string_from(text))
}

fn reasoning_item_exec(id: &str, text: String) -> (r: Json)
    ensures
        jv(r) == reasoning_item(id@, text@),
{
    let part = summary_part_exec(text);
    obj3("id", Json::str_of(id), "type", Json::str_of("reasoning"), "summary", arr1(part))
}

fn output_text_part_exec(text: String) -> (r: Json)
    ensures
        jv(r) == output_text_part(text@),
{
    let empty = arr(Vec::new());
    assert(values_model(Seq::<Json>::empty()) =~= Seq::<JsonV>::empty());
    obj3("type", Json::str_of("output_text"), "text", Json::string_from(text), "annotations", empty)
}

fn message_item_exec(id: &str, status: &str, text: String) -> (r: Json)
    ensures
        jv(r) == message_item(id@, status@, text@),
{
    let part = output_text_part_exec(text);
    let content = arr1(part);
    let mut es: Vec<(String, Json)> = Vec::new();
    push_entry(&mut es, "id", Json::str_of(id));
    push_entry(&mut es, "type", Json::str_of("message"));
    push_entry(&mut es, "status", Json::str_of(status));
    push_entry(&mut es, "role", Json::str_of("assistant"));
    push_entry(&mut es, "content", content);
    assert(entries_model(es@) =~= seq![
        ("id"@, JsonV::Str(id@)),
        ("type"@, JsonV::Str("message"@)),
        ("status"@, JsonV::Str(status@)),
        ("role"@, JsonV::Str("assistant"@)),
        ("content"@, JsonV::Array(seq![output_text_part(text@)])),
    ]);
    let r = obj(es);
    r
}

#[verifier::spinoff_prover]
pub fn chat_to_responses_response(chat: &Json, original_request: &Json) -> (r: Json)
    ensures
        jv(r) == chat_response_to_responses(jv(*chat), jv(*original_request)),
{
    let ghost c = jv(*chat);
    let ghost q = jv(*original_request);
    let message: Option<&Json> = match first_choice_exec(chat) {
        Some(ch) => ch.get("message"),
        None => None,
    };
    let ghost sm = v_get_opt(first_choice(c), "message"@);
    assert(opt_jv(message) == sm);
    let output_text: String = match message {
        Some(m) => str_member_or_empty(m, "content"),
        None => String::new(),
    };
    let explicit = match message {
        Some(m) => message_reasoning_text(m),
        None => None,
    };
    let (inline, clean) = split_inline_think_text(output_text.as_str());
    let ghost split = think_split(output_text@, InlineThinkMode::Text);
    let ghost spec_inline = if split.1.len() > 0 {
        Some(split.1)
    } else {
        None
    };
    assert(opt_str_view(inline) == spec_inline);
    let reasoning = match explicit {
        Some(e) => Some(e),
        None => inline,
    };
    let ghost spec_reasoning = opt_or(
        match sm {
            Some(m) => reasoning_text_of(m),
            None => None,
        },
        spec_inline,
    );
    assert(opt_str_view(reasoning) == spec_reasoning);
    let model = match chat.get("model") {
        Some(m) => m.deep_clone(),
        None => match original_request.get("model") {
            Some(m) => m.deep_clone(),
            None => Json::str_of("deepseek-chat"),
        },
    };
    let usage = match chat.get("usage") {
        Some(u) => normalize_usage(u),
        None => normalize_usage(&Json::Null),
    };
    let mut output: Vec<Json> = Vec::new();
    match reasoning {
        Some(text) => if !text.as_str().is_empty() {
            push_value(&mut output, reasoning_item_exec("rs_codex_toolkit", text));
        },
        None => {},
    }
    push_value(&mut output, message_item_exec("msg_codex_toolkit", "completed", clean));
    let ghost out1 = values_model(output@);
    proof {
        let out0 = match spec_reasoning {
            Some(r) => if r.len() > 0 {
                seq![reasoning_item("rs_codex_toolkit"@, r)]
            } else {
                Seq::empty()
            },
            None => Seq::empty(),
        };
        assert(out1 =~= out0.push(message_item("msg_codex_toolkit"@, "completed"@, split.0)));
    }
    let tool_calls = match message {
        Some(m) => m.get("tool_calls"),
        None => None,
    };
    assert(opt_jv(tool_calls) == v_get_opt(sm, "tool_calls"@));
    match tool_calls {
        Some(Json::Array(tcs)) => {
            let mut i: usize = 0;
            proof {
                lemma_jv_seq(tcs@);
                assert(jv_seq(tcs@).take(0) =~= Seq::<JsonV>::empty());
                assert(out1 + tool_call_items(Seq::<JsonV>::empty()) =~= out1);
            }
            while i < tcs.len()
                invariant
                    i <= tcs@.len(),
                    jv_seq(tcs@).len() == tcs@.len(),
                    forall|m: int| 0 <= m < tcs@.len() ==> #[trigger] jv_seq(tcs@)[m] == jv(tcs@[m]),
                    values_model(output@) == out1 + tool_call_items(jv_seq(tcs@).take(i as int)),
                decreases tcs.len() - i,
            {
                let ghost t = jv_seq(tcs@).take(i + 1);
                let ghost before = values_model(output@);
                proof {
                    assert(t.drop_last() =~= jv_seq(tcs@).take(i as int));
                    assert(t.last() == jv(tcs@[i as int]));
                }
                match chat_tool_call_to_response_item(&tcs[i], i) {
                    Some(item) => {
                        let ghost im = jv(item);
                        push_value(&mut output, item);
                        assert(out1 + tool_call_items(t) =~= before.push(im));
                    },
                    None => {},
                }
                i += 1;
            }
            proof {
                assert(jv_seq(tcs@).take(tcs@.len() as int) =~= jv_seq(tcs@));
            }
        },
        _ => {},
    }
    let ghost out2 = values_model(output@);
    assert(out2 == match v_get_opt(sm, "tool_calls"@) {
        Some(JsonV::Array(tcs)) => out1 + tool_call_items(tcs),
        _ => out1,
    });
    let id = match str_member_exec(chat, "id") {
        Some(i) => i.clone(),
        None => owned("resp_codex_toolkit"),
    };
    let created = match chat.get("created") {
        Some(v) => match v.as_i64() {
            Some(n) => n,
            None => 0,
        },
        None => 0,
    };
    let mut es: Vec<(String, Json)> = Vec::new();
    push_entry(&mut es, "id", Json::string_from(id));
    push_entry(&mut es, "object", Json::str_of("response"));
    push_entry(&mut es, "created_at", json_i64(created));
    push_entry(&mut es, "model", model);
    push_entry(&mut es, "status", Json::str_of("completed"));
    push_entry(&mut es, "output", arr(output));
    push_entry(&mut es, "usage", usage);
    proof {
        let spec_model = match opt_or(v_get(c, "model"@), v_get(q, "model"@)) {
            Some(m) => m,
            None => JsonV::Str("deepseek-chat"@),
        };
        let spec_usage = match v_get(c, "usage"@) {
            Some(u) => u,
            None => JsonV::Null,
        };
        let spec_id = match str_member(c, "id"@) {
            Some(i) => i,
            None => "resp_codex_toolkit"@,
        };
        assert(usage_v(JsonV::Null) == JsonV::Null);
        assert(entries_model(es@) =~= seq![
            ("id"@, JsonV::Str(spec_id)),
            ("object"@, JsonV::Str("response"@)),
            ("created_at"@, int_v(i64_or_zero(v_get(c, "created"@)))),
            ("model"@, spec_model),
            ("status"@, JsonV::Str("completed"@)),
            ("output"@, JsonV::Array(out2)),
            ("usage"@, usage_v(spec_usage)),
        ]);
    }
    obj(es)
}


// ---------------------------------------------------------------------------
// Chat Completions stream chunks
// ---------------------------------------------------------------------------

/// The `delta` of the first choice.
pub open spec fn chunk_delta(chunk: JsonV) -> Option<JsonV> {
    v_get_opt(first_choice(chunk), "delta"@)
}

/// The text delta of a chunk.
pub open spec fn chunk_text(chunk: JsonV) -> Option<Seq<char>> {
    v_opt_str(v_get_opt(chunk_delta(chunk), "content"@))
}

/// The reasoning delta of a chunk: `reasoning_content`, else `reasoning`.
pub open spec fn chunk_reasoning(chunk: JsonV) -> Option<Seq<char>> {
    match chunk_delta(chunk) {
        Some(d) => reasoning_text_of(d),
        None => None,
    }
}

/// The tool-call deltas of a chunk.
pub open spec fn chunk_tool_calls(chunk: JsonV) -> Seq<JsonV> {
    match v_get_opt(chunk_delta(chunk), "tool_calls"@) {
        Some(JsonV::Array(a)) => a,
        _ => Seq::empty(),
    }
}

/// The finish reason of the first choice, when it is a string.
pub open spec fn chunk_finish_reason(chunk: JsonV) -> Option<Seq<char>> {
    v_opt_str(v_get_opt(first_choice(chunk), "finish_reason"@))
}

/// The chunk's `usage` when it is an object.
pub open spec fn chunk_usage(chunk: JsonV) -> Option<JsonV> {
    match v_get(chunk, "usage"@) {
        Some(u) => if v_is_object(u) {
            Some(u)
        } else {
            None
        },
        None => None,
    }
}

/// The first choice has a non-null `finish_reason`.
pub open spec fn chunk_finished(chunk: JsonV) -> bool {
    match v_get_opt(first_choice(chunk), "finish_reason"@) {
        Some(f) => !(f is Null),
        None => false,
    }
}

fn chunk_delta_exec(chunk: &Json) -> (r: Option<&Json>)
    ensures
        opt_jv(r) == chunk_delta(jv(*chunk)),
{
    match first_choice_exec(chunk) {
        Some(c) => c.get("delta"),
        None => None,
    }
}

pub fn chat_chunk_delta(chunk: &Json) -> (r: Option<String>)
    ensures
        opt_str_view(r) == chunk_text(jv(*chunk)),
{
    match chunk_delta_exec(chunk) {
        Some(d) => match d.get("content") {
            Some(c) => match c.as_str() {
                Some(t) => Some(t.clone()),
                None => None,
            },
            None => None,
        },
        None => None,
    }
}

pub fn chat_chunk_reasoning_delta(chunk: &Json) -> (r: Option<String>)
    ensures
        opt_str_view(r) == chunk_reasoning(jv(*chunk)),
{
    match chunk_delta_exec(chunk) {
        Some(d) => message_reasoning_text(d),
        None => None,
    }
}

pub fn chat_chunk_tool_calls(chunk: &Json) -> (r: Vec<Json>)
    ensures
        values_model(r@) == chunk_tool_calls(jv(*chunk)),
{
    let calls = match chunk_delta_exec(chunk) {
        Some(d) => d.get("tool_calls"),
        None => None,
    };
    let mut out: Vec<Json> = Vec::new();
    match calls {
        Some(Json::Array(a)) => {
            let mut i: usize = 0;
            proof {
                lemma_jv_seq(a@);
            }
            while i < a.len()
                invariant
                    i <= a@.len(),
                    jv_seq(a@).len() == a@.len(),
                    forall|m: int| 0 <= m < a@.len() ==> #[trigger] jv_seq(a@)[m] == jv(a@[m]),
                    values_model(out@) == jv_seq(a@).take(i as int),
                decreases a.len() - i,
            {
                let ghost before = values_model(out@);
                push_value(&mut out, a[i].deep_clone());
                assert(values_model(out@) =~= jv_seq(a@).take(i + 1));
                i += 1;
            }
            assert(jv_seq(a@).take(a@.len() as int) =~= jv_seq(a@));
        },
        _ => {
            assert(values_model(out@) =~= Seq::<JsonV>::empty());
        },
    }
    out
}

pub fn chat_chunk_finish_reason(chunk: &Json) -> (r: Option<String>)
    ensures
        opt_str_view(r) == chunk_finish_reason(jv(*chunk)),
{
    match first_choice_exec(chunk) {
        Some(c) => match c.get("finish_reason") {
            Some(f) => match f.as_str() {
                Some(t) => Some(t.clone()),
                None => None,
            },
            None => None,
        },
        None => None,
    }
}

pub open spec fn opt_json_view(o: Option<Json>) -> Option<JsonV> {
    match o {
        Some(j) => Some(jv(j)),
        None => None,
    }
}

pub fn chat_chunk_usage(chunk: &Json) -> (r: Option<Json>)
    ensures
        opt_json_view(r) == chunk_usage(jv(*chunk)),
{
    match chunk.get("usage") {
        Some(u) => if u.is_object() {
            Some(u.deep_clone())
        } else {
            None
        },
        None => None,
    }
}

pub fn chat_chunk_is_finished(chunk: &Json) -> (r: bool)
    ensures
        r == chunk_finished(jv(*chunk)),
{
    match first_choice_exec(chunk) {
        Some(c) => match c.get("finish_reason") {
            Some(f) => !f.is_null(),
            None => false,
        },
        None => false,
    }
}

// ---------------------------------------------------------------------------
// Errors and health
// ---------------------------------------------------------------------------

/// The Responses error type for an upstream HTTP status.
pub open spec fn error_type(status: u16) -> Seq<char> {
    if status == 401 || status == 403 {
        "authentication_error"@
    } else if status == 404 {
        "not_found_error"@
    } else if status == 429 {
        "rate_limit_error"@
    } else if 400 <= status <= 499 {
        "invalid_request_error"@
    } else {
        "server_error"@
    }
}

pub fn response_error_type(status: u16) -> (r: &'static str)
    ensures
        r@ == error_type(status),
{
    if status == 401 || status == 403 {
        "authentication_error"
    } else if status == 404 {
        "not_found_error"
    } else if status == 429 {
        "rate_limit_error"
    } else if 400 <= status && status <= 499 {
        "invalid_request_error"
    } else {
        "server_error"
    }
}

/// The error body the router answers with when the upstream refuses a
/// request: the upstream's `error.message` (else its top-level `message`)
/// when it is not blank, else the raw body, else a fixed sentence; the
/// upstream's `error.code` (else `upstream_error`); the error type for the
/// status; and the status. `parsed` is the body read as JSON, if it is JSON.
pub open spec fn upstream_error(status: u16, body: Seq<char>, parsed: Option<JsonV>) -> JsonV {
    let err = v_get_opt(parsed, "error"@);
    let found = match v_opt_str(v_get_opt(err, "message"@)) {
        Some(m) => Some(m),
        None => v_opt_str(v_get_opt(parsed, "message"@)),
    };
    let message = match found {
        Some(m) => if is_blank(m) {
            None
        } else {
            Some(m)
        },
        None => None,
    };
    let text = match message {
        Some(m) => m,
        None => if is_blank(body) {
            "Upstream request failed."@
        } else {
            body
        },
    };
    let code = match v_opt_str(v_get_opt(err, "code"@)) {
        Some(c) => c,
        None => "upstream_error"@,
    };
    JsonV::Object(
        seq![
            (
                "error"@,
                JsonV::Object(
                    seq![
                        ("message"@, JsonV::Str(text)),
                        ("type"@, JsonV::Str(error_type(status))),
                        ("code"@, JsonV::Str(code)),
                        ("status"@, int_v(status as int)),
                    ],
                ),
            ),
        ],
    )
}

pub fn upstream_error_response(status: u16, body: &str, parsed: Option<&Json>) -> (r: Json)
    ensures
        jv(r) == upstream_error(status, body@, opt_jv(parsed)),
{
    let err: Option<&Json> = match parsed {
        Some(p) => p.get("error"),
        None => None,
    };
    let from_error: Option<&String> = match err {
        Some(e) => match e.get("message") {
            Some(m) => m.as_str(),
            None => None,
        },
        None => None,
    };
    let found: Option<&String> = match from_error {
        Some(m) => Some(m),
        None => match parsed {
            Some(p) => match p.get("message") {
                Some(m) => m.as_str(),
                None => None,
            },
            None => None,
        },
    };
    let text: String = match found {
        Some(m) => if is_blank_str(m.as_str()) {
            if is_blank_str(body) {
                owned("Upstream request failed.")
            } else {
                owned(body)
            }
        } else {
            m.clone()
        },
        None => if is_blank_str(body) {
            owned("Upstream request failed.")
        } else {
            owned(body)
        },
    };
    let code: String = match err {
        Some(e) => match e.get("code") {
            Some(c) => match c.as_str() {
                Some(s) => s.clone(),
                None => owned("upstream_error"),
            },
            None => owned("upstream_error"),
        },
        None => owned("upstream_error"),
    };
    let mut es: Vec<(String, Json)> = Vec::new();
    push_entry(&mut es, "message", Json::string_from(text));
    push_entry(&mut es, "type", Json::str_of(response_error_type(status)));
    push_entry(&mut es, "code", Json::string_from(code));
    push_entry(&mut es, "status", json_u64(status as u64));
    let inner = obj(es);
    let mut outer: Vec<(String, Json)> = Vec::new();
    push_entry(&mut outer, "error", inner);
    proof {
        let spec = upstream_error(status, body@, opt_jv(parsed));
        let spec_inner = v_get(spec, "error"@)->0;
        assert(entries_model(es@) =~= spec_inner->Object_0);
        assert(entries_model(outer@) =~= spec->Object_0);
    }
    obj(outer)
}

/// What `GET /health` answers.
pub open spec fn health(config: RouterConfig) -> JsonV {
    JsonV::Object(
        seq![
            ("ok"@, JsonV::Bool(true)),
            ("gateway"@, JsonV::Str("codex-toolkit-local-router"@)),
            ("codexWireApi"@, JsonV::Str("responses"@)),
            ("upstreamWireApi"@, JsonV::Str(config.upstream_wire_api@)),
            ("upstreamBaseUrl"@, JsonV::Str(config.upstream_base_url@)),
            (
                "upstreamModel"@,
                match config.upstream_model {
                    Some(m) => JsonV::Str(m@),
                    None => JsonV::Null,
                },
            ),
            (
                "routes"@,
                JsonV::Array(
                    seq![JsonV::Str("POST /v1/responses"@), JsonV::Str("POST /responses"@)],
                ),
            ),
        ],
    )
}

pub fn router_health(config: &RouterConfig) -> (r: Json)
    ensures
        jv(r) == health(*config),
{
    obj(router_health_entries(config))
}

/// The entries of `router_health`.
pub fn router_health_entries(config: &RouterConfig) -> (r: Vec<(String, Json)>)
    ensures
        entries_model(r@) == health(*config)->Object_0,
{
    let model = match &config.upstream_model {
        Some(m) => Json::string_from(m.clone()),
        None => Json::Null,
    };
    let mut routes: Vec<Json> = Vec::new();
    push_value(&mut routes, Json::str_of("POST /v1/responses"));
    push_value(&mut routes, Json::str_of("POST /responses"));
    assert(values_model(routes@) =~= seq![
        JsonV::Str("POST /v1/responses"@),
        JsonV::Str("POST /responses"@),
    ]);
    let mut es: Vec<(String, Json)> = Vec::new();
    push_entry(&mut es, "ok", Json::Bool(true));
    push_entry(&mut es, "gateway", Json::str_of("codex-toolkit-local-router"));
    push_entry(&mut es, "codexWireApi", Json::str_of("responses"));
    push_entry(&mut es, "upstreamWireApi", Json::string_from(config.upstream_wire_api.clone()));
    push_entry(&mut es, "upstreamBaseUrl", Json::string_from(config.upstream_base_url.clone()));
    push_entry(&mut es, "upstreamModel", model);
    push_entry(&mut es, "routes", arr(routes));
    proof {
        assert(entries_model(es@) =~= health(*config)->Object_0);
    }
    es
}

/// `\r\n\r\n` starts at index `i`.
pub open spec fn is_crlf2(b: Seq<u8>, i: int) -> bool {
    b[i] == 13u8 && b[i + 1] == 10u8 && b[i + 2] == 13u8 && b[i + 3] == 10u8
}

pub fn find_header_end(buffer: &[u8]) -> (r: Option<usize>)
    ensures
        match r {
            Some(i) => i + 4 <= buffer@.len() && is_crlf2(buffer@, i as int) && forall|k: int|
                0 <= k < i ==> !is_crlf2(buffer@, k),
            None => forall|k: int| 0 <= k && k + 4 <= buffer@.len() ==> !is_crlf2(buffer@, k),
        },
{
    if buffer.len() < 4 {
        return None;
    }
    let mut i: usize = 0;
    while i <= buffer.len() - 4
        invariant
            buffer@.len() >= 4,
            i + 3 <= buffer@.len(),
            forall|k: int| 0 <= k < i ==> !is_crlf2(buffer@, k),
        decreases buffer.len() - i,
    {
        if buffer[i] == 13u8 && buffer[i + 1] == 10u8 && buffer[i + 2] == 13u8 && buffer[i + 3] == 10u8 {
            return Some(i);
        }
        i += 1;
    }
    None
}


// ---------------------------------------------------------------------------
// Responses stream events
// ---------------------------------------------------------------------------

/// A streamed tool call, keyed by its index in the chat stream.
#[derive(Debug)]
pub struct StreamToolCallState {
    pub output_index: Option<u32>,
    pub item_id: String,
    pub call_id: String,
    pub name: String,
    pub arguments: String,
    pub done: bool,
}

/// The model of a streamed tool call.
pub struct ToolV {
    pub output_index: Option<u32>,
    pub item_id: Seq<char>,
    pub call_id: Seq<char>,
    pub name: Seq<char>,
    pub arguments: Seq<char>,
    pub done: bool,
}

pub open spec fn tool_v(t: StreamToolCallState) -> ToolV {
    ToolV {
        output_index: t.output_index,
        item_id: t.item_id@,
        call_id: t.call_id@,
        name: t.name@,
        arguments: t.arguments@,
        done: t.done,
    }
}

/// The state of one Responses stream built from a Chat Completions stream.
#[derive(Debug)]
pub struct ResponseStreamState {
    response_id: String,
    text_item_id: String,
    reasoning_item_id: String,
    model: String,
    created_at: i64,
    accumulated_text: Vec<char>,
    accumulated_reasoning: Vec<char>,
    text_started: bool,
    text_done: bool,
    reasoning_started: bool,
    reasoning_done: bool,
    finish_reason: Option<String>,
    usage: Option<Json>,
    tool_calls: Vec<(usize, StreamToolCallState)>,
}

/// The model of a stream state; `tools` lists the tool calls by increasing
/// chat index.
pub struct StreamV {
    pub response_id: Seq<char>,
    pub text_item_id: Seq<char>,
    pub reasoning_item_id: Seq<char>,
    pub model: Seq<char>,
    pub created_at: i64,
    pub text: Seq<char>,
    pub reasoning: Seq<char>,
    pub text_started: bool,
    pub text_done: bool,
    pub reasoning_started: bool,
    pub reasoning_done: bool,
    pub finish_reason: Option<Seq<char>>,
    pub usage: Option<JsonV>,
    pub tools: Seq<(usize, ToolV)>,
}

/// A stream event: its name and its payload.
pub type EventV = (Seq<char>, JsonV);

pub open spec fn events_model(v: Seq<(&'static str, Json)>) -> Seq<EventV> {
    Seq::new(v.len(), |i: int| (v[i].0@, jv(v[i].1)))
}

pub open spec fn tools_model(v: Seq<(usize, StreamToolCallState)>) -> Seq<(usize, ToolV)> {
    Seq::new(v.len(), |i: int| (v[i].0, tool_v(v[i].1)))
}

/// Chat indexes increase along the list.
pub open spec fn keys_increasing(ts: Seq<(usize, ToolV)>) -> bool {
    forall|i: int, j: int| 0 <= i < j < ts.len() ==> ts[i].0 < ts[j].0
}

/// Position of the entry for `k`.
pub open spec fn tool_pos(ts: Seq<(usize, ToolV)>, k: usize) -> Option<int> {
    if exists|i: int| 0 <= i < ts.len() && ts[i].0 == k {
        Some(choose|i: int| 0 <= i < ts.len() && ts[i].0 == k)
    } else {
        None
    }
}

/// How many entries have a chat index below `k`.
pub open spec fn count_below(ts: Seq<(usize, ToolV)>, k: usize) -> nat
    decreases ts.len(),
{
    if ts.len() == 0 {
        0
    } else {
        count_below(ts.drop_last(), k) + if ts.last().0 < k {
            1nat
        } else {
            0nat
        }
    }
}

/// Sets the entry for `k`, keeping the chat indexes in order.
pub open spec fn tools_set(ts: Seq<(usize, ToolV)>, k: usize, t: ToolV) -> Seq<(usize, ToolV)> {
    match tool_pos(ts, k) {
        Some(i) => ts.update(i, (k, t)),
        None => ts.insert(count_below(ts, k) as int, (k, t)),
    }
}

/// How many tool calls have an output index.
pub open spec fn placed_tools(ts: Seq<(usize, ToolV)>) -> nat
    decreases ts.len(),
{
    if ts.len() == 0 {
        0
    } else {
        placed_tools(ts.drop_last()) + if ts.last().1.output_index is Some {
            1nat
        } else {
            0nat
        }
    }
}

impl ResponseStreamState {
    pub closed spec fn view(&self) -> StreamV {
        StreamV {
            response_id: self.response_id@,
            text_item_id: self.text_item_id@,
            reasoning_item_id: self.reasoning_item_id@,
            model: self.model@,
            created_at: self.created_at,
            text: self.accumulated_text@,
            reasoning: self.accumulated_reasoning@,
            text_started: self.text_started,
            text_done: self.text_done,
            reasoning_started: self.reasoning_started,
            reasoning_done: self.reasoning_done,
            finish_reason: opt_str_view(self.finish_reason),
            usage: opt_json_view(self.usage),
            tools: tools_model(self.tool_calls@),
        }
    }

    pub closed spec fn wf(&self) -> bool {
        keys_increasing(tools_model(self.tool_calls@))
    }
}

pub open spec fn text_output_index(s: StreamV) -> u32 {
    if s.reasoning_started {
        1
    } else {
        0
    }
}

pub open spec fn has_text(s: StreamV) -> bool {
    s.text_started || s.text.len() > 0
}

/// The output index the next new item gets.
pub open spec fn next_output_index(s: StreamV) -> int {
    (if s.reasoning_started {
        1int
    } else {
        0
    }) + (if has_text(s) {
        1int
    } else {
        0
    }) + placed_tools(s.tools)
}

pub open spec fn tool_item(t: ToolV) -> JsonV {
    JsonV::Object(
        seq![
            ("id"@, JsonV::Str(t.item_id)),
            ("type"@, JsonV::Str("function_call"@)),
            ("status"@, JsonV::Str("completed"@)),
            ("call_id"@, JsonV::Str(t.call_id)),
            ("name"@, JsonV::Str(t.name)),
            ("arguments"@, JsonV::Str(t.arguments)),
        ],
    )
}

/// Inserts after every item whose index is not larger: a stable insertion.
pub open spec fn insert_by_index(sorted: Seq<(u32, JsonV)>, x: (u32, JsonV)) -> Seq<(u32, JsonV)>
    decreases sorted.len(),
{
    if sorted.len() == 0 {
        seq![x]
    } else if sorted.last().0 <= x.0 {
        sorted.push(x)
    } else {
        insert_by_index(sorted.drop_last(), x).push(sorted.last())
    }
}

/// Items ordered by output index; items with equal indexes keep their order.
pub open spec fn sort_by_index(items: Seq<(u32, JsonV)>) -> Seq<(u32, JsonV)>
    decreases items.len(),
{
    if items.len() == 0 {
        Seq::empty()
    } else {
        insert_by_index(sort_by_index(items.drop_last()), items.last())
    }
}

/// The tool calls that have an output index, with it, by chat index.
pub open spec fn placed_tool_items(ts: Seq<(usize, ToolV)>) -> Seq<(u32, JsonV)>
    decreases ts.len(),
{
    if ts.len() == 0 {
        Seq::empty()
    } else {
        let rest = placed_tool_items(ts.drop_last());
        match ts.last().1.output_index {
            Some(i) => rest.push((i, tool_item(ts.last().1))),
            None => rest,
        }
    }
}

/// The output items of the response: the reasoning item, the message, then
/// the tool calls, ordered by output index.
pub open spec fn output_items(s: StreamV, status: Seq<char>) -> Seq<(u32, JsonV)> {
    let r = if s.reasoning_started {
        seq![(0u32, reasoning_item(s.reasoning_item_id, s.reasoning))]
    } else {
        Seq::empty()
    };
    let t = if has_text(s) {
        seq![(text_output_index(s), message_item(s.text_item_id, status, s.text))]
    } else {
        Seq::empty()
    };
    r + t + placed_tool_items(s.tools)
}

pub open spec fn second_parts(items: Seq<(u32, JsonV)>) -> Seq<JsonV> {
    Seq::new(items.len(), |i: int| items[i].1)
}

/// The response object of the stream with the given status.
pub open spec fn stream_response(s: StreamV, status: Seq<char>) -> JsonV {
    let base = seq![
        ("id"@, JsonV::Str(s.response_id)),
        ("object"@, JsonV::Str("response"@)),
        ("created_at"@, int_v(s.created_at as int)),
        ("model"@, JsonV::Str(s.model)),
        ("status"@, JsonV::Str(status)),
        ("output"@, JsonV::Array(second_parts(sort_by_index(output_items(s, status))))),
    ];
    let with_details = if status == "incomplete"@ {
        base.push(
            (
                "incomplete_details"@,
                JsonV::Object(seq![("reason"@, JsonV::Str("max_output_tokens"@))]),
            ),
        )
    } else {
        base
    };
    let with_usage = match s.usage {
        Some(u) => with_details.push(("usage"@, u)),
        None => with_details,
    };
    JsonV::Object(with_usage)
}

pub open spec fn typed(kind: Seq<char>, rest: Seq<(Seq<char>, JsonV)>) -> JsonV {
    JsonV::Object(seq![("type"@, JsonV::Str(kind))] + rest)
}

/// `response.created` and `response.in_progress`.
pub open spec fn start_events_v(s: StreamV) -> Seq<EventV> {
    seq![
        (
            "response.created"@,
            typed("response.created"@, seq![("response"@, stream_response(s, "in_progress"@))]),
        ),
        (
            "response.in_progress"@,
            typed(
                "response.in_progress"@,
                seq![("response"@, stream_response(s, "in_progress"@))],
            ),
        ),
    ]
}

pub open spec fn zero() -> JsonV {
    int_v(0)
}

/// The events for a reasoning delta and the state after it; the reasoning
/// item is opened the first time.
pub open spec fn reasoning_delta_v(s: StreamV, delta: Seq<char>) -> (Seq<EventV>, StreamV) {
    if delta.len() == 0 {
        (Seq::empty(), s)
    } else {
        let opening = if !s.reasoning_started {
            seq![
                (
                    "response.output_item.added"@,
                    typed(
                        "response.output_item.added"@,
                        seq![
                            ("output_index"@, zero()),
                            (
                                "item"@,
                                JsonV::Object(
                                    seq![
                                        ("id"@, JsonV::Str(s.reasoning_item_id)),
                                        ("type"@, JsonV::Str("reasoning"@)),
                                        ("status"@, JsonV::Str("in_progress"@)),
                                        ("summary"@, JsonV::Array(Seq::empty())),
                                    ],
                                ),
                            ),
                        ],
                    ),
                ),
                (
                    "response.reasoning_summary_part.added"@,
                    typed(
                        "response.reasoning_summary_part.added"@,
                        seq![
                            ("item_id"@, JsonV::Str(s.reasoning_item_id)),
                            ("output_index"@, zero()),
                            ("summary_index"@, zero()),
                            ("part"@, summary_part(Seq::empty())),
                        ],
                    ),
                ),
            ]
        } else {
            Seq::empty()
        };
        let s2 = StreamV { reasoning_started: true, reasoning: s.reasoning + delta, ..s };
        let ev = (
            "response.reasoning_summary_text.delta"@,
            typed(
                "response.reasoning_summary_text.delta"@,
                seq![
                    ("item_id"@, JsonV::Str(s.reasoning_item_id)),
                    ("output_index"@, zero()),
                    ("summary_index"@, zero()),
                    ("delta"@, JsonV::Str(delta)),
                ],
            ),
        );
        (opening.push(ev), s2)
    }
}

/// The events for a text delta and the state after it; the message item is
/// opened the first time.
pub open spec fn text_delta_v(s: StreamV, delta: Seq<char>) -> (Seq<EventV>, StreamV) {
    let s1 = StreamV { text_started: true, ..s };
    let index = int_v(text_output_index(s1) as int);
    let opening = if !s.text_started {
        seq![
            (
                "response.output_item.added"@,
                typed(
                    "response.output_item.added"@,
                    seq![
                        ("output_index"@, index),
                        (
                            "item"@,
                            JsonV::Object(
                                seq![
                                    ("id"@, JsonV::Str(s.text_item_id)),
                                    ("type"@, JsonV::Str("message"@)),
                                    ("status"@, JsonV::Str("in_progress"@)),
                                    ("role"@, JsonV::Str("assistant"@)),
                                    ("content"@, JsonV::Array(Seq::empty())),
                                ],
                            ),
                        ),
                    ],
                ),
            ),
            (
                "response.content_part.added"@,
                typed(
                    "response.content_part.added"@,
                    seq![
                        ("item_id"@, JsonV::Str(s.text_item_id)),
                        ("output_index"@, index),
                        ("content_index"@, zero()),
                        ("part"@, output_text_part(Seq::empty())),
                    ],
                ),
            ),
        ]
    } else {
        Seq::empty()
    };
    let s2 = StreamV { text: s.text + delta, ..s1 };
    let ev = (
        "response.output_text.delta"@,
        typed(
            "response.output_text.delta"@,
            seq![
                ("item_id"@, JsonV::Str(s.text_item_id)),
                ("output_index"@, index),
                ("content_index"@, zero()),
                ("delta"@, JsonV::Str(delta)),
            ],
        ),
    );
    (opening.push(ev), s2)
}

/// `incomplete` when the upstream stopped for length, else `completed`.
pub open spec fn status_of(s: StreamV) -> Seq<char> {
    if s.finish_reason == Some("length"@) {
        "incomplete"@
    } else {
        "completed"@
    }
}

/// The events that close the reasoning item, if it is open.
pub open spec fn reasoning_done_v(s: StreamV) -> (Seq<EventV>, StreamV) {
    if s.reasoning_started && !s.reasoning_done {
        (
            seq![
                (
                    "response.reasoning_summary_text.done"@,
                    typed(
                        "response.reasoning_summary_text.done"@,
                        seq![
                            ("item_id"@, JsonV::Str(s.reasoning_item_id)),
                            ("output_index"@, zero()),
                            ("summary_index"@, zero()),
                            ("text"@, JsonV::Str(s.reasoning)),
                        ],
                    ),
                ),
                (
                    "response.reasoning_summary_part.done"@,
                    typed(
                        "response.reasoning_summary_part.done"@,
                        seq![
                            ("item_id"@, JsonV::Str(s.reasoning_item_id)),
                            ("output_index"@, zero()),
                            ("summary_index"@, zero()),
                            ("part"@, summary_part(s.reasoning)),
                        ],
                    ),
                ),
                (
                    "response.output_item.done"@,
                    typed(
                        "response.output_item.done"@,
                        seq![
                            ("output_index"@, zero()),
                            ("item"@, reasoning_item(s.reasoning_item_id, s.reasoning)),
                        ],
                    ),
                ),
            ],
            StreamV { reasoning_done: true, ..s },
        )
    } else {
        (Seq::empty(), s)
    }
}

/// The events that close the message item, if it is open.
pub open spec fn text_done_v(s: StreamV) -> (Seq<EventV>, StreamV) {
    if s.text_started && !s.text_done {
        let index = int_v(text_output_index(s) as int);
        (
            seq![
                (
                    "response.output_text.done"@,
                    typed(
                        "response.output_text.done"@,
                        seq![
                            ("item_id"@, JsonV::Str(s.text_item_id)),
                            ("output_index"@, index),
                            ("content_index"@, zero()),
                            ("text"@, JsonV::Str(s.text)),
                        ],
                    ),
                ),
                (
                    "response.content_part.done"@,
                    typed(
                        "response.content_part.done"@,
                        seq![
                            ("item_id"@, JsonV::Str(s.text_item_id)),
                            ("output_index"@, index),
                            ("content_index"@, zero()),
                            ("part"@, output_text_part(s.text)),
                        ],
                    ),
                ),
                (
                    "response.output_item.done"@,
                    typed(
                        "response.output_item.done"@,
                        seq![
                            ("output_index"@, index),
                            ("item"@, message_item(s.text_item_id, "completed"@, s.text)),
                        ],
                    ),
                ),
            ],
            StreamV { text_done: true, ..s },
        )
    } else {
        (Seq::empty(), s)
    }
}

/// The output index of a tool call, 0 when it has none.
pub open spec fn output_index_or_zero(t: ToolV) -> int {
    match t.output_index {
        Some(i) => i as int,
        None => 0,
    }
}

/// The event that closes one open tool call.
pub open spec fn tool_done_event(t: ToolV) -> EventV {
    (
        "response.output_item.done"@,
        typed(
            "response.output_item.done"@,
            seq![
                ("output_index"@, int_v(output_index_or_zero(t))),
                ("item"@, tool_item(t)),
            ],
        ),
    )
}

/// Closes the tool calls from position `i` on, in chat-index order.
pub open spec fn tools_done_from(ts: Seq<(usize, ToolV)>, i: nat) -> (Seq<EventV>, Seq<(usize, ToolV)>)
    decreases ts.len() - i,
{
    if i >= ts.len() {
        (Seq::empty(), ts)
    } else {
        let t = ts[i as int].1;
        let (ev, ts2) = if t.done {
            (Seq::<EventV>::empty(), ts)
        } else {
            (seq![tool_done_event(t)], ts.update(i as int, (ts[i as int].0, ToolV { done: true, ..t })))
        };
        let rest = tools_done_from(ts2, i + 1);
        (ev + rest.0, rest.1)
    }
}

/// The closing events of the stream: open items are closed (reasoning,
/// message, tool calls), then `response.completed` carries the final
/// response.
pub open spec fn done_events_v(s: StreamV) -> (Seq<EventV>, StreamV) {
    let (e1, s1) = reasoning_done_v(s);
    let (e2, s2) = text_done_v(s1);
    let (e3, ts) = tools_done_from(s2.tools, 0);
    let s3 = StreamV { tools: ts, ..s2 };
    let completed = (
        "response.completed"@,
        typed("response.completed"@, seq![("response"@, stream_response(s3, status_of(s)))]),
    );
    ((e1 + e2 + e3).push(completed), s3)
}

/// `response.failed` with the current response and an upstream error.
pub open spec fn failed_events_v(s: StreamV, message: Seq<char>) -> Seq<EventV> {
    seq![
        (
            "response.failed"@,
            typed(
                "response.failed"@,
                seq![
                    ("response"@, stream_response(s, "failed"@)),
                    (
                        "error"@,
                        JsonV::Object(
                            seq![
                                ("message"@, JsonV::Str(message)),
                                ("type"@, JsonV::Str("server_error"@)),
                                ("code"@, JsonV::Str("upstream_stream_error"@)),
                            ],
                        ),
                    ),
                ],
            ),
        ),
    ]
}


pub open spec fn keyed_model(keys: Seq<u32>, vals: Seq<Json>) -> Seq<(u32, JsonV)> {
    Seq::new(keys.len(), |i: int| (keys[i], jv(vals[i])))
}

/// Where a stable insertion of an item with index `x` goes: after the last
/// item whose index is not larger.
proof fn lemma_insert_by_index(s: Seq<(u32, JsonV)>, x: (u32, JsonV), j: int)
    requires
        0 <= j <= s.len(),
        forall|k: int| j <= k < s.len() ==> s[k].0 > x.0,
        j == 0 || s[j - 1].0 <= x.0,
    ensures
        insert_by_index(s, x) == s.take(j) + seq![x] + s.skip(j),
    decreases s.len(),
{
    if s.len() == 0 {
        assert(s.take(j) + seq![x] + s.skip(j) =~= seq![x]);
    } else if s.last().0 <= x.0 {
        assert(j == s.len());
        assert(s.take(j) + seq![x] + s.skip(j) =~= s.push(x));
    } else {
        lemma_insert_by_index(s.drop_last(), x, j);
        assert(s.drop_last().take(j) + seq![x] + s.drop_last().skip(j) + seq![s.last()] =~= s.take(j)
            + seq![x] + s.skip(j));
    }
}

/// Inserts `(key, val)` after the last item whose key is not larger.
fn insert_keyed(keys: &mut Vec<u32>, vals: &mut Vec<Json>, key: u32, val: Json)
    requires
        old(keys)@.len() == old(vals)@.len(),
    ensures
        final(keys)@.len() == final(vals)@.len(),
        keyed_model(final(keys)@, final(vals)@) == insert_by_index(
            keyed_model(old(keys)@, old(vals)@),
            (key, jv(val)),
        ),
{
    let ghost old_model = keyed_model(keys@, vals@);
    let ghost vm = jv(val);
    let mut j = keys.len();
    while j > 0 && keys[j - 1] > key
        invariant
            j <= keys@.len(),
            keys@.len() == vals@.len(),
            old_model == keyed_model(keys@, vals@),
            forall|k: int| j <= k < keys@.len() ==> keys@[k] > key,
        decreases j,
    {
        j -= 1;
    }
    proof {
        lemma_insert_by_index(old_model, (key, vm), j as int);
    }
    keys.insert(j, key);
    vals.insert(j, val);
    assert(keyed_model(keys@, vals@) =~= old_model.take(j as int) + seq![(key, vm)]
        + old_model.skip(j as int));
}

/// An object whose first member is `type`.
fn typed_obj(kind: &str, rest: Vec<(String, Json)>) -> (r: Json)
    ensures
        jv(r) == typed(kind@, entries_model(rest@)),
{
    let ghost rm = entries_model(rest@);
    let mut es: Vec<(String, Json)> = Vec::new();
    push_entry(&mut es, "type", Json::str_of(kind));
    let ghost first = entries_model(es@);
    assert(first =~= seq![("type"@, JsonV::Str(kind@))]) by {
        assert(entries_model(Seq::<(String, Json)>::empty()) =~= Seq::<(Seq<char>, JsonV)>::empty());
    }
    let mut rest = rest;
    es.append(&mut rest);
    assert(entries_model(es@) =~= first + rm);
    obj(es)
}

fn push_event(events: &mut Vec<(&'static str, Json)>, name: &'static str, payload: Json)
    ensures
        events_model(final(events)@) == events_model(old(events)@).push((name@, jv(payload))),
{
    let ghost before = events@;
    let ghost pm = jv(payload);
    events.push((name, payload));
    assert(events_model(events@) =~= events_model(before).push((name@, pm)));
}

fn entries1(k1: &str, v1: Json) -> (r: Vec<(String, Json)>)
    ensures
        entries_model(r@) == seq![(k1@, jv(v1))],
{
    let mut es: Vec<(String, Json)> = Vec::new();
    push_entry(&mut es, k1, v1);
    assert(entries_model(es@) =~= seq![(k1@, jv(v1))]) by {
        assert(entries_model(Seq::<(String, Json)>::empty()) =~= Seq::<(Seq<char>, JsonV)>::empty());
    }
    es
}

fn entries2(k1: &str, v1: Json, k2: &str, v2: Json) -> (r: Vec<(String, Json)>)
    ensures
        entries_model(r@) == seq![(k1@, jv(v1)), (k2@, jv(v2))],
{
    let ghost m1 = jv(v1);
    let ghost m2 = jv(v2);
    let mut es = entries1(k1, v1);
    push_entry(&mut es, k2, v2);
    assert(entries_model(es@) =~= seq![(k1@, m1), (k2@, m2)]);
    es
}

fn entries3(k1: &str, v1: Json, k2: &str, v2: Json, k3: &str, v3: Json) -> (r: Vec<(String, Json)>)
    ensures
        entries_model(r@) == seq![(k1@, jv(v1)), (k2@, jv(v2)), (k3@, jv(v3))],
{
    let ghost m1 = jv(v1);
    let ghost m2 = jv(v2);
    let ghost m3 = jv(v3);
    let mut es = entries2(k1, v1, k2, v2);
    push_entry(&mut es, k3, v3);
    assert(entries_model(es@) =~= seq![(k1@, m1), (k2@, m2), (k3@, m3)]);
    es
}

fn entries4(k1: &str, v1: Json, k2: &str, v2: Json, k3: &str, v3: Json, k4: &str, v4: Json) -> (r: Vec<
    (String, Json),
>)
    ensures
        entries_model(r@) == seq![(k1@, jv(v1)), (k2@, jv(v2)), (k3@, jv(v3)), (k4@, jv(v4))],
{
    let ghost m1 = jv(v1);
    let ghost m2 = jv(v2);
    let ghost m3 = jv(v3);
    let ghost m4 = jv(v4);
    let mut es = entries3(k1, v1, k2, v2, k3, v3);
    push_entry(&mut es, k4, v4);
    assert(entries_model(es@) =~= seq![(k1@, m1), (k2@, m2), (k3@, m3), (k4@, m4)]);
    es
}

fn tool_item_exec(t: &StreamToolCallState) -> (r: Json)
    ensures
        jv(r) == tool_item(tool_v(*t)),
{
    let mut es: Vec<(String, Json)> = Vec::new();
    push_entry(&mut es, "id", Json::string_from(t.item_id.clone()));
    push_entry(&mut es, "type", Json::str_of("function_call"));
    push_entry(&mut es, "status", Json::str_of("completed"));
    push_entry(&mut es, "call_id", Json::string_from(t.call_id.clone()));
    push_entry(&mut es, "name", Json::string_from(t.name.clone()));
    push_entry(&mut es, "arguments", Json::string_from(t.arguments.clone()));
    assert(entries_model(es@) =~= tool_item(tool_v(*t))->Object_0);
    obj(es)
}

proof fn lemma_placed_tool_items_step(ts: Seq<(usize, ToolV)>, i: int)
    requires
        0 <= i < ts.len(),
    ensures
        placed_tool_items(ts.take(i + 1)) == match ts[i].1.output_index {
            Some(k) => placed_tool_items(ts.take(i)).push((k, tool_item(ts[i].1))),
            None => placed_tool_items(ts.take(i)),
        },
        placed_tools(ts.take(i + 1)) == placed_tools(ts.take(i)) + if ts[i].1.output_index is Some {
            1nat
        } else {
            0nat
        },
{
    assert(ts.take(i + 1).drop_last() =~= ts.take(i));
    assert(ts.take(i + 1).last() == ts[i]);
}

impl ResponseStreamState {
    /// The response object with the given status.
    pub fn response_object(&self, status: &str) -> (r: Json)
        ensures
            jv(r) == stream_response(self@, status@),
    {
        let ghost s = self@;
        let mut keys: Vec<u32> = Vec::new();
        let mut vals: Vec<Json> = Vec::new();
        let mut items_k: Vec<u32> = Vec::new();
        let mut items_v: Vec<Json> = Vec::new();
        if self.reasoning_started {
            items_k.push(0);
            items_v.push(
                reasoning_item_exec(self.reasoning_item_id.as_str(), string_of(&self.accumulated_reasoning)),
            );
        }
        if self.text_started || self.accumulated_text.len() > 0 {
            let index: u32 = if self.reasoning_started {
                1
            } else {
                0
            };
            items_k.push(index);
            items_v.push(
                message_item_exec(self.text_item_id.as_str(), status, string_of(&self.accumulated_text)),
            );
        }
        let ghost head = keyed_model(items_k@, items_v@);
        proof {
            let r = if s.reasoning_started {
                seq![(0u32, reasoning_item(s.reasoning_item_id, s.reasoning))]
            } else {
                Seq::empty()
            };
            let t = if has_text(s) {
                seq![(text_output_index(s), message_item(s.text_item_id, status@, s.text))]
            } else {
                Seq::empty()
            };
            assert(head =~= r + t);
            assert(s.tools.take(0) =~= Seq::<(usize, ToolV)>::empty());
            assert(head + placed_tool_items(s.tools.take(0)) =~= head);
        }
        let mut i: usize = 0;
        while i < self.tool_calls.len()
            invariant
                s == self@,
                i <= self.tool_calls@.len(),
                items_k@.len() == items_v@.len(),
                keyed_model(items_k@, items_v@) == head + placed_tool_items(s.tools.take(i as int)),
            decreases self.tool_calls.len() - i,
        {
            proof {
                lemma_placed_tool_items_step(s.tools, i as int);
            }
            let ghost before = keyed_model(items_k@, items_v@);
            match self.tool_calls[i].1.output_index {
                Some(k) => {
                    let item = tool_item_exec(&self.tool_calls[i].1);
                    let ghost im = jv(item);
                    items_k.push(k);
                    items_v.push(item);
                    assert(keyed_model(items_k@, items_v@) =~= before.push((k, im)));
                },
                None => {},
            }
            i += 1;
        }
        proof {
            assert(s.tools.take(s.tools.len() as int) =~= s.tools);
            assert(keyed_model(keys@, vals@) =~= sort_by_index(Seq::<(u32, JsonV)>::empty()));
        }
        let ghost all = keyed_model(items_k@, items_v@);
        let mut m: usize = 0;
        while m < items_k.len()
            invariant
                m <= items_k@.len(),
                items_k@.len() == items_v@.len(),
                all == keyed_model(items_k@, items_v@),
                keys@.len() == vals@.len(),
                keyed_model(keys@, vals@) == sort_by_index(all.take(m as int)),
            decreases items_k.len() - m,
        {
            proof {
                assert(all.take(m + 1).drop_last() =~= all.take(m as int));
                assert(all.take(m + 1).last() == all[m as int]);
            }
            let v = items_v[m].deep_clone();
            insert_keyed(&mut keys, &mut vals, items_k[m], v);
            m += 1;
        }
        proof {
            assert(all.take(all.len() as int) =~= all);
            assert(all == output_items(s, status@));
        }
        let ghost sorted = keyed_model(keys@, vals@);
        let output = arr(vals);
        let mut es: Vec<(String, Json)> = Vec::new();
        push_entry(&mut es, "id", Json::string_from(self.response_id.clone()));
        push_entry(&mut es, "object", Json::str_of("response"));
        push_entry(&mut es, "created_at", json_i64(self.created_at));
        push_entry(&mut es, "model", Json::string_from(self.model.clone()));
        push_entry(&mut es, "status", Json::str_of(status));
        push_entry(&mut es, "output", output);
        let ghost base = entries_model(es@);
        proof {
            assert(second_parts(sorted) =~= values_model(vals@));
        }
        if str_eq(status, "incomplete") {
            let reason = obj(entries1("reason", Json::str_of("max_output_tokens")));
            push_entry(&mut es, "incomplete_details", reason);
        }
        let ghost with_details = entries_model(es@);
        match &self.usage {
            Some(u) => {
                push_entry(&mut es, "usage", u.deep_clone());
            },
            None => {},
        }
        proof {
            let sb = seq![
                ("id"@, JsonV::Str(s.response_id)),
                ("object"@, JsonV::Str("response"@)),
                ("created_at"@, int_v(s.created_at as int)),
                ("model"@, JsonV::Str(s.model)),
                ("status"@, JsonV::Str(status@)),
                ("output"@, JsonV::Array(second_parts(sort_by_index(output_items(s, status@))))),
            ];
            assert(base =~= sb);
        }
        obj(es)
    }
}


/// Seconds since the Unix epoch, 0 when the clock is before it.
#[verifier::external_body]
pub(crate) fn unix_timestamp() -> i64 {
    std::time::SystemTime::now().duration_since(std::time::UNIX_EPOCH).map(|d| d.as_secs() as i64).unwrap_or(0)
}

/// Milliseconds since the Unix epoch, 0 when the clock is before it.
#[verifier::external_body]
pub(crate) fn current_millis() -> u128 {
    std::time::SystemTime::now().duration_since(std::time::UNIX_EPOCH).map(|d| d.as_millis()).unwrap_or(0)
}

/// The decimal text of an integer, with a leading `-` when it is negative.
pub open spec fn int_text(i: int) -> Seq<char> {
    if i < 0 {
        seq!['-'] + decimal((-i) as nat)
    } else {
        decimal(i as nat)
    }
}

fn i64_chars(i: i64) -> (r: Vec<char>)
    ensures
        r@ == int_text(i as int),
{
    if i < 0 {
        let m: u64 = if i == -9223372036854775808i64 {
            9223372036854775808u64
        } else {
            (-i) as u64
        };
        let mut out: Vec<char> = Vec::new();
        out.push('-');
        let mut d = decimal_chars(m);
        out.append(&mut d);
        out
    } else {
        decimal_chars(i as u64)
    }
}

/// The fresh state of a stream created at `created_at` (seconds) and
/// `millis` (milliseconds): its ids end in the creation second followed by
/// the milliseconds modulo 100000.
pub open spec fn new_stream_v(model: Seq<char>, created_at: i64, millis: u128) -> StreamV {
    let stamp = int_text(created_at as int) + decimal((millis % 100000) as nat);
    StreamV {
        response_id: "resp_codex_toolkit_"@ + stamp,
        text_item_id: "msg_codex_toolkit_"@ + stamp,
        reasoning_item_id: "rs_codex_toolkit_"@ + stamp,
        model,
        created_at,
        text: Seq::empty(),
        reasoning: Seq::empty(),
        text_started: false,
        text_done: false,
        reasoning_started: false,
        reasoning_done: false,
        finish_reason: None,
        usage: None,
        tools: Seq::empty(),
    }
}

/// Sets the finish reason when one is given.
pub open spec fn set_finish_reason_v(s: StreamV, fr: Option<Seq<char>>) -> StreamV {
    if fr is Some {
        StreamV { finish_reason: fr, ..s }
    } else {
        s
    }
}

/// Records usage, in Responses form, when some is given.
pub open spec fn set_usage_v(s: StreamV, usage: Option<JsonV>) -> StreamV {
    match usage {
        Some(u) => StreamV { usage: Some(usage_v(u)), ..s },
        None => s,
    }
}

impl ResponseStreamState {
    /// A fresh stream state stamped with the current time.
    pub fn new(model: String) -> (r: Self)
        ensures
            r.wf(),
            exists|created_at: i64, millis: u128| r@ == new_stream_v(model@, created_at, millis),
    {
        let created_at = unix_timestamp();
        let millis = current_millis();
        Self::with_clock(model, created_at, millis)
    }

    /// A fresh stream state stamped with the given time.
    pub fn with_clock(model: String, created_at: i64, millis: u128) -> (r: Self)
        ensures
            r.wf(),
            r@ == new_stream_v(model@, created_at, millis),
    {
        let mut stamp = i64_chars(created_at);
        let mut ms = decimal_chars((millis % 100000) as u64);
        stamp.append(&mut ms);
        let mut rid = crate::text::chars_of("resp_codex_toolkit_");
        let mut tid = crate::text::chars_of("msg_codex_toolkit_");
        let mut sid = crate::text::chars_of("rs_codex_toolkit_");
        let mut s1 = stamp.clone();
        let mut s2 = stamp.clone();
        let mut s3 = stamp.clone();
        rid.append(&mut s1);
        tid.append(&mut s2);
        sid.append(&mut s3);
        let r = ResponseStreamState {
            response_id: string_of(&rid),
            text_item_id: string_of(&tid),
            reasoning_item_id: string_of(&sid),
            model,
            created_at,
            accumulated_text: Vec::new(),
            accumulated_reasoning: Vec::new(),
            text_started: false,
            text_done: false,
            reasoning_started: false,
            reasoning_done: false,
            finish_reason: None,
            usage: None,
            tool_calls: Vec::new(),
        };
        assert(tools_model(r.tool_calls@) =~= Seq::<(usize, ToolV)>::empty());
        r
    }

    /// `response.created` and `response.in_progress`.
    pub fn start_events(&self) -> (r: Vec<(&'static str, Json)>)
        ensures
            events_model(r@) == start_events_v(self@),
    {
        let mut events: Vec<(&'static str, Json)> = Vec::new();
        let created = typed_obj("response.created", entries1("response", self.response_object("in_progress")));
        push_event(&mut events, "response.created", created);
        let progress = typed_obj(
            "response.in_progress",
            entries1("response", self.response_object("in_progress")),
        );
        push_event(&mut events, "response.in_progress", progress);
        assert(events_model(events@) =~= start_events_v(self@)) by {
            assert(events_model(Seq::<(&'static str, Json)>::empty()) =~= Seq::<EventV>::empty());
        }
        events
    }

    /// `response.failed` with the current response and the error message.
    pub fn failed_events(&mut self, message: &str) -> (r: Vec<(&'static str, Json)>)
        ensures
            final(self)@ == old(self)@,
            final(self).wf() == old(self).wf(),
            events_model(r@) == failed_events_v(old(self)@, message@),
    {
        let error = obj3(
            "message",
            Json::str_of(message),
            "type",
            Json::str_of("server_error"),
            "code",
            Json::str_of("upstream_stream_error"),
        );
        let payload = typed_obj(
            "response.failed",
            entries2("response", self.response_object("failed"), "error", error),
        );
        let mut events: Vec<(&'static str, Json)> = Vec::new();
        push_event(&mut events, "response.failed", payload);
        assert(events_model(events@) =~= failed_events_v(self@, message@)) by {
            assert(events_model(Seq::<(&'static str, Json)>::empty()) =~= Seq::<EventV>::empty());
        }
        events
    }

    pub fn set_finish_reason(&mut self, finish_reason: Option<String>)
        ensures
            final(self)@ == set_finish_reason_v(old(self)@, opt_str_view(finish_reason)),
            final(self).wf() == old(self).wf(),
    {
        if finish_reason.is_some() {
            self.finish_reason = finish_reason;
        }
    }

    pub fn set_usage(&mut self, usage: Option<Json>)
        ensures
            final(self)@ == set_usage_v(old(self)@, opt_json_view(usage)),
            final(self).wf() == old(self).wf(),
    {
        match usage {
            Some(u) => {
                self.usage = Some(normalize_usage(&u));
            },
            None => {},
        }
    }

    pub fn response_status(&self) -> (r: &'static str)
        ensures
            r@ == status_of(self@),
    {
        match &self.finish_reason {
            Some(f) => if str_eq(f.as_str(), "length") {
                "incomplete"
            } else {
                "completed"
            },
            None => "completed",
        }
    }

    /// The events for a reasoning delta; see `reasoning_delta_v`.
    pub fn reasoning_delta_events(&mut self, delta: &str) -> (r: Vec<(&'static str, Json)>)
        ensures
            (events_model(r@), final(self)@) == reasoning_delta_v(old(self)@, delta@),
            final(self).wf() == old(self).wf(),
    {
        let ghost s = self@;
        let mut events: Vec<(&'static str, Json)> = Vec::new();
        proof {
            assert(events_model(events@) =~= Seq::<EventV>::empty());
        }
        if delta.is_empty() {
            return events;
        }
        if !self.reasoning_started {
            self.reasoning_started = true;
            let summary = arr(Vec::new());
            assert(values_model(Seq::<Json>::empty()) =~= Seq::<JsonV>::empty());
            let mut item_es = entries3(
                "id",
                Json::string_from(self.reasoning_item_id.clone()),
                "type",
                Json::str_of("reasoning"),
                "status",
                Json::str_of("in_progress"),
            );
            push_entry(&mut item_es, "summary", summary);
            assert(entries_model(item_es@) =~= seq![
                ("id"@, JsonV::Str(s.reasoning_item_id)),
                ("type"@, JsonV::Str("reasoning"@)),
                ("status"@, JsonV::Str("in_progress"@)),
                ("summary"@, JsonV::Array(Seq::empty())),
            ]);
            let item = obj(item_es);
            let added = typed_obj(
                "response.output_item.added",
                entries2("output_index", json_u64(0), "item", item),
            );
            push_event(&mut events, "response.output_item.added", added);
            let part = summary_part_exec(String::new());
            let part_added = typed_obj(
                "response.reasoning_summary_part.added",
                entries4(
                    "item_id",
                    Json::string_from(self.reasoning_item_id.clone()),
                    "output_index",
                    json_u64(0),
                    "summary_index",
                    json_u64(0),
                    "part",
                    part,
                ),
            );
            push_event(&mut events, "response.reasoning_summary_part.added", part_added);
        }
        let ghost opening = events_model(events@);
        let mut d = crate::text::chars_of(delta);
        self.accumulated_reasoning.append(&mut d);
        let ev = typed_obj(
            "response.reasoning_summary_text.delta",
            entries4(
                "item_id",
                Json::string_from(self.reasoning_item_id.clone()),
                "output_index",
                json_u64(0),
                "summary_index",
                json_u64(0),
                "delta",
                Json::str_of(delta),
            ),
        );
        push_event(&mut events, "response.reasoning_summary_text.delta", ev);
        proof {
            let spec = reasoning_delta_v(s, delta@);
            assert(events_model(events@) =~= spec.0);
            assert(self@ == spec.1);
        }
        events
    }

    /// The events for a text delta; see `text_delta_v`.
    pub fn delta_events(&mut self, delta: &str) -> (r: Vec<(&'static str, Json)>)
        ensures
            (events_model(r@), final(self)@) == text_delta_v(old(self)@, delta@),
            final(self).wf() == old(self).wf(),
    {
        let ghost s = self@;
        let mut events: Vec<(&'static str, Json)> = Vec::new();
        proof {
            assert(events_model(events@) =~= Seq::<EventV>::empty());
        }
        let index: u64 = if self.reasoning_started {
            1
        } else {
            0
        };
        if !self.text_started {
            self.text_started = true;
            let content = arr(Vec::new());
            assert(values_model(Seq::<Json>::empty()) =~= Seq::<JsonV>::empty());
            let mut item_es = entries4(
                "id",
                Json::string_from(self.text_item_id.clone()),
                "type",
                Json::str_of("message"),
                "status",
                Json::str_of("in_progress"),
                "role",
                Json::str_of("assistant"),
            );
            push_entry(&mut item_es, "content", content);
            assert(entries_model(item_es@) =~= seq![
                ("id"@, JsonV::Str(s.text_item_id)),
                ("type"@, JsonV::Str("message"@)),
                ("status"@, JsonV::Str("in_progress"@)),
                ("role"@, JsonV::Str("assistant"@)),
                ("content"@, JsonV::Array(Seq::empty())),
            ]);
            let item = obj(item_es);
            let added = typed_obj(
                "response.output_item.added",
                entries2("output_index", json_u64(index), "item", item),
            );
            push_event(&mut events, "response.output_item.added", added);
            let part = output_text_part_exec(String::new());
            let part_added = typed_obj(
                "response.content_part.added",
                entries4(
                    "item_id",
                    Json::string_from(self.text_item_id.clone()),
                    "output_index",
                    json_u64(index),
                    "content_index",
                    json_u64(0),
                    "part",
                    part,
                ),
            );
            push_event(&mut events, "response.content_part.added", part_added);
        }
        self.text_started = true;
        let mut d = crate::text::chars_of(delta);
        self.accumulated_text.append(&mut d);
        let ev = typed_obj(
            "response.output_text.delta",
            entries4(
                "item_id",
                Json::string_from(self.text_item_id.clone()),
                "output_index",
                json_u64(index),
                "content_index",
                json_u64(0),
                "delta",
                Json::str_of(delta),
            ),
        );
        push_event(&mut events, "response.output_text.delta", ev);
        proof {
            let spec = text_delta_v(s, delta@);
            assert(events_model(events@) =~= spec.0);
            assert(self@ == spec.1);
        }
        events
    }
}


/// The chat index of a streamed tool call (`index`, 0 when missing).
pub open spec fn tc_index(tc: JsonV) -> usize {
    (match v_get(tc, "index"@) {
        Some(x) => match v_as_u64(x) {
            Some(n) => n,
            None => 0,
        },
        None => 0,
    }) as usize
}

/// Registers the tool call at chat index `k` if it has no output index yet
/// and returns its output index.
pub open spec fn ensure_tool_v(s: StreamV, k: usize, tc: JsonV) -> (u32, StreamV) {
    let existing = match tool_pos(s.tools, k) {
        Some(i) => s.tools[i].1.output_index,
        None => None,
    };
    match existing {
        Some(idx) => (idx, s),
        None => {
            let idx = next_output_index(s) as u32;
            let fallback = "call_"@ + s.response_id + "_"@ + decimal(k as nat);
            let call_id = match str_member(tc, "id"@) {
                Some(i) => if is_blank(i) {
                    fallback
                } else {
                    i
                },
                None => fallback,
            };
            let name = str_or_empty(v_opt_str(v_get_opt(v_get(tc, "function"@), "name"@)));
            let t = ToolV {
                output_index: Some(idx),
                item_id: "fc_"@ + call_id,
                call_id,
                name,
                arguments: Seq::empty(),
                done: false,
            };
            (idx, StreamV { tools: tools_set(s.tools, k, t), ..s })
        },
    }
}

/// `response.output_item.added` for a tool call seen for the first time.
pub open spec fn tool_added_v(s: StreamV, tc: JsonV) -> (Seq<EventV>, StreamV) {
    let k = tc_index(tc);
    let existed = tool_pos(s.tools, k) is Some;
    let (idx, s1) = ensure_tool_v(s, k, tc);
    if existed {
        (Seq::empty(), s1)
    } else {
        let t = s1.tools[tool_pos(s1.tools, k)->0].1;
        (
            seq![
                (
                    "response.output_item.added"@,
                    typed(
                        "response.output_item.added"@,
                        seq![
                            ("output_index"@, int_v(idx as int)),
                            (
                                "item"@,
                                JsonV::Object(
                                    seq![
                                        ("id"@, JsonV::Str(t.item_id)),
                                        ("type"@, JsonV::Str("function_call"@)),
                                        ("status"@, JsonV::Str("in_progress"@)),
                                        ("call_id"@, JsonV::Str(t.call_id)),
                                        ("name"@, JsonV::Str(t.name)),
                                        ("arguments"@, JsonV::Str(Seq::empty())),
                                    ],
                                ),
                            ),
                        ],
                    ),
                ),
            ],
            s1,
        )
    }
}

/// A tool-call delta: the call id is replaced by a non-blank one, the name is
/// set or extended (unless it already ends with the new piece), and the
/// argument text is appended and reported.
pub open spec fn tool_delta_v(s: StreamV, tc: JsonV) -> (Seq<EventV>, StreamV) {
    let k = tc_index(tc);
    let (idx, s1) = ensure_tool_v(s, k, tc);
    match tool_pos(s1.tools, k) {
        None => (Seq::empty(), s1),
        Some(i) => {
            let t = s1.tools[i].1;
            let f = v_get(tc, "function"@);
            let t1 = match str_member(tc, "id"@) {
                Some(id) => if !is_blank(id) {
                    ToolV { call_id: id, ..t }
                } else {
                    t
                },
                None => t,
            };
            let t2 = match v_opt_str(v_get_opt(f, "name"@)) {
                Some(name) => if t1.name.len() == 0 {
                    ToolV { name, ..t1 }
                } else if t1.name != name && !ends_with(t1.name, name) {
                    ToolV { name: t1.name + name, ..t1 }
                } else {
                    t1
                },
                None => t1,
            };
            let args = str_or_empty(v_opt_str(v_get_opt(f, "arguments"@)));
            let t3 = if args.len() > 0 {
                ToolV { arguments: t2.arguments + args, ..t2 }
            } else {
                t2
            };
            let s2 = StreamV { tools: s1.tools.update(i, (k, t3)), ..s1 };
            if args.len() == 0 {
                (Seq::empty(), s2)
            } else {
                (
                    seq![
                        (
                            "response.function_call_arguments.delta"@,
                            typed(
                                "response.function_call_arguments.delta"@,
                                seq![
                                    ("item_id"@, JsonV::Str(t3.item_id)),
                                    ("output_index"@, int_v(idx as int)),
                                    ("delta"@, JsonV::Str(args)),
                                ],
                            ),
                        ),
                    ],
                    s2,
                )
            }
        },
    }
}

/// Closes the tool call at chat index `k` if it is open.
pub open spec fn tool_done_v(s: StreamV, k: usize) -> (Seq<EventV>, StreamV) {
    match tool_pos(s.tools, k) {
        None => (Seq::empty(), s),
        Some(i) => {
            let t = s.tools[i].1;
            if t.done {
                (Seq::empty(), s)
            } else {
                (
                    seq![tool_done_event(t)],
                    StreamV { tools: s.tools.update(i, (k, ToolV { done: true, ..t })), ..s },
                )
            }
        },
    }
}

proof fn lemma_tool_pos_at(ts: Seq<(usize, ToolV)>, k: usize, i: int)
    requires
        keys_increasing(ts),
        0 <= i < ts.len(),
        ts[i].0 == k,
    ensures
        tool_pos(ts, k) == Some(i),
{
    let j = choose|j: int| 0 <= j < ts.len() && ts[j].0 == k;
    assert(0 <= j < ts.len() && ts[j].0 == k);
    if j < i {
        assert(ts[j].0 < ts[i].0);
    }
    if i < j {
        assert(ts[i].0 < ts[j].0);
    }
}

proof fn lemma_count_below(ts: Seq<(usize, ToolV)>, k: usize, i: int)
    requires
        keys_increasing(ts),
        0 <= i <= ts.len(),
        forall|j: int| 0 <= j < i ==> ts[j].0 < k,
        i == ts.len() || ts[i].0 >= k,
    ensures
        count_below(ts, k) == i,
    decreases ts.len(),
{
    if ts.len() > 0 {
        let d = ts.drop_last();
        assert(keys_increasing(d));
        if i == ts.len() {
            lemma_count_below(d, k, i - 1);
        } else {
            if i < ts.len() - 1 {
                assert(ts[i].0 < ts.last().0);
            }
            lemma_count_below(d, k, i);
        }
    }
}

proof fn lemma_placed_bound(ts: Seq<(usize, ToolV)>)
    ensures
        placed_tools(ts) <= ts.len(),
    decreases ts.len(),
{
    if ts.len() > 0 {
        lemma_placed_bound(ts.drop_last());
    }
}

impl ResponseStreamState {
    /// How many tool calls the stream has seen.
    pub open spec fn tool_count(&self) -> nat {
        self@.tools.len()
    }

    /// How many tool calls the stream has seen.
    pub fn tool_call_count(&self) -> (r: usize)
        ensures
            r == self.tool_count(),
    {
        self.tool_calls.len()
    }

    /// Position of the tool call with chat index `k`.
    fn find_tool(&self, k: usize) -> (r: Option<usize>)
        requires
            self.wf(),
        ensures
            match r {
                Some(i) => i < self.tool_calls@.len() && self.tool_calls@[i as int].0 == k
                    && tool_pos(self@.tools, k) == Some(i as int),
                None => tool_pos(self@.tools, k) is None,
            },
    {
        let ghost ts = self@.tools;
        let mut i: usize = 0;
        while i < self.tool_calls.len()
            invariant
                ts == self@.tools,
                ts.len() == self.tool_calls@.len(),
                keys_increasing(ts),
                i <= ts.len(),
                forall|j: int| 0 <= j < i ==> ts[j].0 != k,
            decreases self.tool_calls.len() - i,
        {
            if self.tool_calls[i].0 == k {
                proof {
                    lemma_tool_pos_at(ts, k, i as int);
                }
                return Some(i);
            }
            i += 1;
        }
        None
    }

    pub fn next_output_index(&self) -> (r: u32)
        requires
            self.tool_count() < 4294967290,
        ensures
            r == next_output_index(self@),
    {
        let ghost ts = self@.tools;
        let mut next: u32 = 0;
        if self.reasoning_started {
            next += 1;
        }
        if self.text_started || self.accumulated_text.len() > 0 {
            next += 1;
        }
        let mut i: usize = 0;
        proof {
            assert(ts.take(0) =~= Seq::<(usize, ToolV)>::empty());
        }
        while i < self.tool_calls.len()
            invariant
                ts == self@.tools,
                ts.len() == self.tool_calls@.len(),
                ts.len() < 4294967290,
                i <= ts.len(),
                next as int == (if self@.reasoning_started {
                    1int
                } else {
                    0
                }) + (if has_text(self@) {
                    1int
                } else {
                    0
                }) + placed_tools(ts.take(i as int)),
            decreases self.tool_calls.len() - i,
        {
            proof {
                lemma_placed_tool_items_step(ts, i as int);
                lemma_placed_bound(ts.take(i as int));
            }
            if self.tool_calls[i].1.output_index.is_some() {
                next += 1;
            }
            i += 1;
        }
        assert(ts.take(ts.len() as int) =~= ts);
        next
    }

    /// See `ensure_tool_v`.
    pub fn ensure_tool_call(&mut self, chat_index: usize, tool_call: &Json) -> (r: u32)
        requires
            old(self).wf(),
            old(self).tool_count() < 4294967290,
        ensures
            final(self).wf(),
            final(self).tool_count() <= old(self).tool_count() + 1,
            (r, final(self)@) == ensure_tool_v(old(self)@, chat_index, jv(*tool_call)),
    {
        let ghost s = self@;
        let found = self.find_tool(chat_index);
        match found {
            Some(i) => match self.tool_calls[i].1.output_index {
                Some(idx) => return idx,
                None => {},
            },
            None => {},
        }
        let output_index = self.next_output_index();
        let mut fallback = crate::text::chars_of("call_");
        push_str_chars(&mut fallback, self.response_id.as_str());
        push_str_chars(&mut fallback, "_");
        let mut digits = decimal_chars(chat_index as u64);
        fallback.append(&mut digits);
        let call_id: String = match str_member_exec(tool_call, "id") {
            Some(i) => if is_blank_str(i.as_str()) {
                string_of(&fallback)
            } else {
                i.clone()
            },
            None => string_of(&fallback),
        };
        let name: String = match tool_call.get("function") {
            Some(f) => str_member_or_empty(f, "name"),
            None => String::new(),
        };
        let mut item_id = crate::text::chars_of("fc_");
        push_str_chars(&mut item_id, call_id.as_str());
        let tool = StreamToolCallState {
            output_index: Some(output_index),
            item_id: string_of(&item_id),
            call_id,
            name,
            arguments: String::new(),
            done: false,
        };
        let ghost tv = tool_v(tool);
        let ghost ts = self@.tools;
        match found {
            Some(i) => {
                let _old = self.tool_calls.remove(i);
                self.tool_calls.insert(i, (chat_index, tool));
                proof {
                    assert(tools_model(self.tool_calls@) =~= ts.update(i as int, (chat_index, tv)));
                    assert(keys_increasing(tools_model(self.tool_calls@)));
                }
            },
            None => {
                let mut p: usize = 0;
                while p < self.tool_calls.len() && self.tool_calls[p].0 < chat_index
                    invariant
                        ts == tools_model(self.tool_calls@),
                        keys_increasing(ts),
                        p <= ts.len(),
                        forall|j: int| 0 <= j < p ==> ts[j].0 < chat_index,
                    decreases self.tool_calls.len() - p,
                {
                    p += 1;
                }
                proof {
                    lemma_count_below(ts, chat_index, p as int);
                    if p < ts.len() {
                        assert(ts[p as int].0 != chat_index);
                    }
                }
                self.tool_calls.insert(p, (chat_index, tool));
                proof {
                    let nt = tools_model(self.tool_calls@);
                    assert(nt =~= ts.insert(p as int, (chat_index, tv)));
                    assert forall|a: int, b: int| 0 <= a < b < nt.len() implies nt[a].0 < nt[b].0 by {
                        if b < p {
                        } else if a > p {
                        } else if a == p {
                            assert(nt[b] == ts[b - 1]);
                            if b - 1 > p {
                                assert(ts[p as int].0 < ts[b - 1].0);
                            }
                        } else {
                            if b == p {
                            } else {
                                assert(nt[b] == ts[b - 1]);
                            }
                        }
                    }
                }
            },
        }
        proof {
            let spec = ensure_tool_v(s, chat_index, jv(*tool_call));
            assert(self@.tools =~= spec.1.tools);
            assert(self@ == spec.1);
        }
        output_index
    }

    /// `response.output_item.added` for a tool call seen for the first time.
    pub fn tool_call_added_events(&mut self, tool_call: &Json) -> (r: Vec<(&'static str, Json)>)
        requires
            old(self).wf(),
            old(self).tool_count() < 4294967290,
        ensures
            final(self).wf(),
            final(self).tool_count() <= old(self).tool_count() + 1,
            (events_model(r@), final(self)@) == tool_added_v(old(self)@, jv(*tool_call)),
    {
        let ghost s = self@;
        let chat_index: usize = match tool_call.get("index") {
            Some(v) => match v.as_u64() {
                Some(n) => n as usize,
                None => 0,
            },
            None => 0,
        };
        let existed = self.find_tool(chat_index).is_some();
        let output_index = self.ensure_tool_call(chat_index, tool_call);
        let mut events: Vec<(&'static str, Json)> = Vec::new();
        proof {
            assert(events_model(events@) =~= Seq::<EventV>::empty());
        }
        if existed {
            return events;
        }
        let ghost ts = self@.tools;
        let pos = match self.find_tool(chat_index) {
            Some(p) => p,
            None => {
                proof {
                    let spec = ensure_tool_v(s, chat_index, jv(*tool_call));
                    lemma_tools_set_has(s.tools, chat_index, ensure_new_tool(s, chat_index, jv(*tool_call)));
                }
                return events;
            },
        };
        let t = &self.tool_calls[pos].1;
        let mut item_es = entries4(
            "id",
            Json::string_from(t.item_id.clone()),
            "type",
            Json::str_of("function_call"),
            "status",
            Json::str_of("in_progress"),
            "call_id",
            Json::string_from(t.call_id.clone()),
        );
        push_entry(&mut item_es, "name", Json::string_from(t.name.clone()));
        push_entry(&mut item_es, "arguments", Json::string_from(String::new()));
        let ghost tv = ts[pos as int].1;
        assert(entries_model(item_es@) =~= seq![
            ("id"@, JsonV::Str(tv.item_id)),
            ("type"@, JsonV::Str("function_call"@)),
            ("status"@, JsonV::Str("in_progress"@)),
            ("call_id"@, JsonV::Str(tv.call_id)),
            ("name"@, JsonV::Str(tv.name)),
            ("arguments"@, JsonV::Str(Seq::empty())),
        ]);
        let item = obj(item_es);
        let added = typed_obj(
            "response.output_item.added",
            entries2("output_index", json_u64(output_index as u64), "item", item),
        );
        push_event(&mut events, "response.output_item.added", added);
        proof {
            let spec = tool_added_v(s, jv(*tool_call));
            assert(tool_pos(self@.tools, chat_index) == Some(pos as int));
            assert(self@.tools[pos as int].1 == tv);
            let item_v = JsonV::Object(
                seq![
                    ("id"@, JsonV::Str(tv.item_id)),
                    ("type"@, JsonV::Str("function_call"@)),
                    ("status"@, JsonV::Str("in_progress"@)),
                    ("call_id"@, JsonV::Str(tv.call_id)),
                    ("name"@, JsonV::Str(tv.name)),
                    ("arguments"@, JsonV::Str(Seq::empty())),
                ],
            );
            assert(jv(item) == item_v);
            let ev = (
                "response.output_item.added"@,
                typed(
                    "response.output_item.added"@,
                    seq![("output_index"@, int_v(output_index as int)), ("item"@, item_v)],
                ),
            );
            assert(events_model(events@) =~= seq![ev]);
            assert(spec.0 =~= seq![ev]);
        }
        events
    }

    /// See `tool_delta_v`.
    pub fn tool_call_delta_events(&mut self, tool_call: &Json) -> (r: Vec<(&'static str, Json)>)
        requires
            old(self).wf(),
            old(self).tool_count() < 4294967290,
        ensures
            final(self).wf(),
            final(self).tool_count() <= old(self).tool_count() + 1,
            (events_model(r@), final(self)@) == tool_delta_v(old(self)@, jv(*tool_call)),
    {
        let ghost s = self@;
        let chat_index: usize = match tool_call.get("index") {
            Some(v) => match v.as_u64() {
                Some(n) => n as usize,
                None => 0,
            },
            None => 0,
        };
        let output_index = self.ensure_tool_call(chat_index, tool_call);
        let ghost s1 = self@;
        let mut events: Vec<(&'static str, Json)> = Vec::new();
        proof {
            assert(events_model(events@) =~= Seq::<EventV>::empty());
        }
        let pos = match self.find_tool(chat_index) {
            Some(p) => p,
            None => return events,
        };
        let (key, mut tool) = self.tool_calls.remove(pos);
        let function: Option<&Json> = tool_call.get("function");
        match str_member_exec(tool_call, "id") {
            Some(id) => if !is_blank_str(id.as_str()) {
                tool.call_id = id.clone();
            },
            None => {},
        }
        let name: Option<&String> = match function {
            Some(f) => str_member_exec(f, "name"),
            None => None,
        };
        match name {
            Some(n) => {
                let current = crate::text::chars_of(tool.name.as_str());
                let piece = crate::text::chars_of(n.as_str());
                if current.len() == 0 {
                    tool.name = n.clone();
                } else if !crate::text::chars_eq(&current, &piece) && !ends_with_exec(&current, &piece) {
                    let mut joined = current;
                    let mut p2 = piece;
                    joined.append(&mut p2);
                    tool.name = string_of(&joined);
                }
            },
            None => {},
        }
        let arguments: String = match function {
            Some(f) => str_member_or_empty(f, "arguments"),
            None => String::new(),
        };
        let nonempty = !arguments.as_str().is_empty();
        if nonempty {
            let mut a = crate::text::chars_of(tool.arguments.as_str());
            push_str_chars(&mut a, arguments.as_str());
            tool.arguments = string_of(&a);
        }
        let item_id = tool.item_id.clone();
        let ghost tv = tool_v(tool);
        self.tool_calls.insert(pos, (key, tool));
        proof {
            assert(tools_model(self.tool_calls@) =~= s1.tools.update(pos as int, (chat_index, tv)));
            assert(keys_increasing(tools_model(self.tool_calls@)));
        }
        if nonempty {
            let ev = typed_obj(
                "response.function_call_arguments.delta",
                entries3(
                    "item_id",
                    Json::string_from(item_id),
                    "output_index",
                    json_u64(output_index as u64),
                    "delta",
                    Json::string_from(arguments),
                ),
            );
            push_event(&mut events, "response.function_call_arguments.delta", ev);
        }
        proof {
            let spec = tool_delta_v(s, jv(*tool_call));
            assert(events_model(events@) =~= spec.0);
            assert(self@.tools =~= spec.1.tools);
        }
        events
    }

    /// See `tool_done_v`.
    pub fn tool_call_done_events(&mut self, chat_index: usize) -> (r: Vec<(&'static str, Json)>)
        requires
            old(self).wf(),
        ensures
            final(self).wf(),
            final(self).tool_count() == old(self).tool_count(),
            (events_model(r@), final(self)@) == tool_done_v(old(self)@, chat_index),
    {
        let ghost s = self@;
        let mut events: Vec<(&'static str, Json)> = Vec::new();
        proof {
            assert(events_model(events@) =~= Seq::<EventV>::empty());
        }
        let pos = match self.find_tool(chat_index) {
            Some(p) => p,
            None => return events,
        };
        if self.tool_calls[pos].1.done {
            return events;
        }
        let (key, mut tool) = self.tool_calls.remove(pos);
        assert(tool_v(tool) == s.tools[pos as int].1);
        tool.done = true;
        let output_index: u64 = match tool.output_index {
            Some(i) => i as u64,
            None => 0,
        };
        let item = tool_item_exec(&tool);
        let ghost tv = tool_v(tool);
        self.tool_calls.insert(pos, (key, tool));
        proof {
            assert(tools_model(self.tool_calls@) =~= s.tools.update(pos as int, (chat_index, tv)));
            assert(keys_increasing(tools_model(self.tool_calls@)));
        }
        let ghost item_v = jv(item);
        let ev = typed_obj("response.output_item.done", entries2("output_index", json_u64(output_index), "item", item));
        proof {
            let t0 = s.tools[pos as int].1;
            lemma_tool_done_event(t0, output_index, item_v);
            assert(jv(ev) == tool_done_event(t0).1);
        }
        push_event(&mut events, "response.output_item.done", ev);
        proof {
            let spec = tool_done_v(s, chat_index);
            assert(events_model(events@) =~= spec.0);
            assert(self@.tools =~= spec.1.tools);
        }
        events
    }
}

impl ResponseStreamState {
    /// Closes the reasoning item if it is open; see `reasoning_done_v`.
    fn reasoning_done_events(&mut self) -> (r: Vec<(&'static str, Json)>)
        ensures
            (events_model(r@), final(self)@) == reasoning_done_v(old(self)@),
            final(self).wf() == old(self).wf(),
            final(self).tool_count() == old(self).tool_count(),
    {
        let ghost s = self@;
        let mut events: Vec<(&'static str, Json)> = Vec::new();
        proof {
            assert(events_model(events@) =~= Seq::<EventV>::empty());
        }
        if !(self.reasoning_started && !self.reasoning_done) {
            return events;
        }
        self.reasoning_done = true;
        let text = string_of(&self.accumulated_reasoning);
        let ev1 = typed_obj(
            "response.reasoning_summary_text.done",
            entries4(
                "item_id",
                Json::string_from(self.reasoning_item_id.clone()),
                "output_index",
                json_u64(0),
                "summary_index",
                json_u64(0),
                "text",
                Json::string_from(text.clone()),
            ),
        );
        push_event(&mut events, "response.reasoning_summary_text.done", ev1);
        let ev2 = typed_obj(
            "response.reasoning_summary_part.done",
            entries4(
                "item_id",
                Json::string_from(self.reasoning_item_id.clone()),
                "output_index",
                json_u64(0),
                "summary_index",
                json_u64(0),
                "part",
                summary_part_exec(text.clone()),
            ),
        );
        push_event(&mut events, "response.reasoning_summary_part.done", ev2);
        let ev3 = typed_obj(
            "response.output_item.done",
            entries2(
                "output_index",
                json_u64(0),
                "item",
                reasoning_item_exec(self.reasoning_item_id.as_str(), text),
            ),
        );
        push_event(&mut events, "response.output_item.done", ev3);
        proof {
            let spec = reasoning_done_v(s);
            assert(events_model(events@) =~= spec.0);
            assert(self@ == spec.1);
        }
        events
    }

    /// Closes the message item if it is open; see `text_done_v`.
    fn text_done_events(&mut self) -> (r: Vec<(&'static str, Json)>)
        ensures
            (events_model(r@), final(self)@) == text_done_v(old(self)@),
            final(self).wf() == old(self).wf(),
            final(self).tool_count() == old(self).tool_count(),
    {
        let ghost s = self@;
        let mut events: Vec<(&'static str, Json)> = Vec::new();
        proof {
            assert(events_model(events@) =~= Seq::<EventV>::empty());
        }
        if !(self.text_started && !self.text_done) {
            return events;
        }
        self.text_done = true;
        let index: u64 = if self.reasoning_started {
            1
        } else {
            0
        };
        let text = string_of(&self.accumulated_text);
        let ev1 = typed_obj(
            "response.output_text.done",
            entries4(
                "item_id",
                Json::string_from(self.text_item_id.clone()),
                "output_index",
                json_u64(index),
                "content_index",
                json_u64(0),
                "text",
                Json::string_from(text.clone()),
            ),
        );
        push_event(&mut events, "response.output_text.done", ev1);
        let ev2 = typed_obj(
            "response.content_part.done",
            entries4(
                "item_id",
                Json::string_from(self.text_item_id.clone()),
                "output_index",
                json_u64(index),
                "content_index",
                json_u64(0),
                "part",
                output_text_part_exec(text.clone()),
            ),
        );
        push_event(&mut events, "response.content_part.done", ev2);
        let ev3 = typed_obj(
            "response.output_item.done",
            entries2(
                "output_index",
                json_u64(index),
                "item",
                message_item_exec(self.text_item_id.as_str(), "completed", text),
            ),
        );
        push_event(&mut events, "response.output_item.done", ev3);
        proof {
            let spec = text_done_v(s);
            assert(events_model(events@) =~= spec.0);
            assert(self@ == spec.1);
        }
        events
    }

    /// The closing events of the stream; see `done_events_v`.
    pub fn done_events(&mut self) -> (r: Vec<(&'static str, Json)>)
        requires
            old(self).wf(),
        ensures
            final(self).wf(),
            final(self).tool_count() == old(self).tool_count(),
            (events_model(r@), final(self)@) == done_events_v(old(self)@),
    {
        let ghost s = self@;
        let mut events = self.reasoning_done_events();
        let mut more = self.text_done_events();
        events.append(&mut more);
        let ghost s2 = self@;
        let ghost e12 = events_model(events@);
        let ghost total = tools_done_from(s2.tools, 0);
        let mut i: usize = 0;
        while i < self.tool_calls.len()
            invariant
                self.wf(),
                self.tool_count() == old(self).tool_count(),
                self@ == (StreamV { tools: self@.tools, ..s2 }),
                self@.tools.len() == s2.tools.len(),
                i <= self@.tools.len(),
                events_model(events@) + tools_done_from(self@.tools, i as nat).0 == e12 + total.0,
                tools_done_from(self@.tools, i as nat).1 == total.1,
            decreases self.tool_calls.len() - i,
        {
            let ghost ts = self@.tools;
            let ghost before = events_model(events@);
            let key = self.tool_calls[i].0;
            proof {
                lemma_tool_pos_at(ts, key, i as int);
            }
            let mut closed = self.tool_call_done_events(key);
            events.append(&mut closed);
            proof {
                let ts2 = self@.tools;
                let step = tools_done_from(ts, i as nat);
                let rest = tools_done_from(ts2, (i + 1) as nat);
                assert(ts[i as int].0 == key);
                assert(step == (tool_done_v(StreamV { tools: ts, ..s2 }, key).0 + rest.0, rest.1));
                assert(events_model(events@) =~= before + tool_done_v(StreamV { tools: ts, ..s2 }, key).0);
                assert(events_model(events@) + rest.0 =~= before + step.0);
            }
            i += 1;
        }
        let status = self.response_status();
        let completed = typed_obj("response.completed", entries1("response", self.response_object(status)));
        push_event(&mut events, "response.completed", completed);
        proof {
            let spec = done_events_v(s);
            assert(tools_done_from(self@.tools, i as nat).0 =~= Seq::<EventV>::empty());
            assert(events_model(events@) =~= spec.0);
            assert(self@ == spec.1);
        }
        events
    }
}

proof fn lemma_tool_done_event(t: ToolV, output_index: u64, item: JsonV)
    requires
        item == tool_item(t),
        output_index as int == output_index_or_zero(t),
    ensures
        tool_done_event(t).1 == typed(
            "response.output_item.done"@,
            seq![("output_index"@, int_v(output_index as int)), ("item"@, item)],
        ),
{
}

/// The tool call registered by `ensure_tool_v` when none was placed.
pub open spec fn ensure_new_tool(s: StreamV, k: usize, tc: JsonV) -> ToolV {
    let idx = next_output_index(s) as u32;
    let fallback = "call_"@ + s.response_id + "_"@ + decimal(k as nat);
    let call_id = match str_member(tc, "id"@) {
        Some(i) => if is_blank(i) {
            fallback
        } else {
            i
        },
        None => fallback,
    };
    ToolV {
        output_index: Some(idx),
        item_id: "fc_"@ + call_id,
        call_id,
        name: str_or_empty(v_opt_str(v_get_opt(v_get(tc, "function"@), "name"@))),
        arguments: Seq::empty(),
        done: false,
    }
}

proof fn lemma_tools_set_has(ts: Seq<(usize, ToolV)>, k: usize, t: ToolV)
    ensures
        tool_pos(tools_set(ts, k, t), k) is Some,
{
    let r = tools_set(ts, k, t);
    match tool_pos(ts, k) {
        Some(i) => {
            assert(r[i].0 == k);
        },
        None => {
            let p = count_below(ts, k);
            lemma_count_below_bound(ts, k);
            assert(r[p as int].0 == k);
        },
    }
}

proof fn lemma_count_below_bound(ts: Seq<(usize, ToolV)>, k: usize)
    ensures
        count_below(ts, k) <= ts.len(),
    decreases ts.len(),
{
    if ts.len() > 0 {
        lemma_count_below_bound(ts.drop_last(), k);
    }
}


/// Registering a tool call adds an entry only when its chat index had none,
/// and leaves an entry for that index.
pub proof fn lemma_ensure_tool_len(s: StreamV, k: usize, tc: JsonV)
    ensures
        ensure_tool_v(s, k, tc).1.tools.len() == s.tools.len() + if tool_pos(s.tools, k) is Some {
            0int
        } else {
            1int
        },
        tool_pos(ensure_tool_v(s, k, tc).1.tools, k) is Some,
{
    match tool_pos(s.tools, k) {
        Some(i) => {
            let j = choose|j: int| 0 <= j < s.tools.len() && s.tools[j].0 == k;
            assert(0 <= j < s.tools.len() && s.tools[j].0 == k);
        },
        None => {
            lemma_count_below_bound(s.tools, k);
        },
    }
    let existing = match tool_pos(s.tools, k) {
        Some(i) => s.tools[i].1.output_index,
        None => None,
    };
    if existing is None {
        lemma_tools_set_has(s.tools, k, ensure_new_tool(s, k, tc));
    }
}

/// A streamed tool call (its `added` events, then its `delta` events) adds
/// at most one entry.
pub proof fn lemma_tool_step_len(s: StreamV, tc: JsonV)
    ensures
        tool_delta_v(tool_added_v(s, tc).1, tc).1.tools.len() <= s.tools.len() + 1,
{
    let k = tc_index(tc);
    lemma_ensure_tool_len(s, k, tc);
    let s1 = tool_added_v(s, tc).1;
    assert(s1 == ensure_tool_v(s, k, tc).1);
    lemma_ensure_tool_len(s1, k, tc);
}

/// Closing the tool calls from `i` on leaves every one of them closed and
/// the ones before `i` as they were.
proof fn lemma_tools_done_from_closes(ts: Seq<(usize, ToolV)>, i: nat)
    ensures
        tools_done_from(ts, i).1.len() == ts.len(),
        forall|j: int| 0 <= j < i && j < ts.len() ==> #[trigger] tools_done_from(ts, i).1[j] == ts[j],
        forall|j: int| i <= j < ts.len() ==> (#[trigger] tools_done_from(ts, i).1[j]).1.done,
    decreases ts.len() - i,
{
    if i < ts.len() {
        let t = ts[i as int].1;
        let ts2 = if t.done {
            ts
        } else {
            ts.update(i as int, (ts[i as int].0, ToolV { done: true, ..t }))
        };
        lemma_tools_done_from_closes(ts2, i + 1);
    }
}

/// With every tool call from `i` on closed, closing them emits nothing.
proof fn lemma_tools_done_from_closed(ts: Seq<(usize, ToolV)>, i: nat)
    requires
        forall|j: int| i <= j < ts.len() ==> (#[trigger] ts[j]).1.done,
    ensures
        tools_done_from(ts, i) == (Seq::<EventV>::empty(), ts),
    decreases ts.len() - i,
{
    if i < ts.len() {
        lemma_tools_done_from_closed(ts, i + 1);
        assert(Seq::<EventV>::empty() + Seq::<EventV>::empty() =~= Seq::<EventV>::empty());
    }
}

/// Deltas joined in order.
pub open spec fn joined(ds: Seq<Seq<char>>) -> Seq<char>
    decreases ds.len(),
{
    if ds.len() == 0 {
        Seq::empty()
    } else {
        joined(ds.drop_last()) + ds.last()
    }
}

/// The state after the reasoning deltas `ds`, one call each.
pub open spec fn feed_reasoning(s: StreamV, ds: Seq<Seq<char>>) -> StreamV
    decreases ds.len(),
{
    if ds.len() == 0 {
        s
    } else {
        reasoning_delta_v(feed_reasoning(s, ds.drop_last()), ds.last()).1
    }
}

/// The state after the text deltas `ds`, one call each.
pub open spec fn feed_text(s: StreamV, ds: Seq<Seq<char>>) -> StreamV
    decreases ds.len(),
{
    if ds.len() == 0 {
        s
    } else {
        text_delta_v(feed_text(s, ds.drop_last()), ds.last()).1
    }
}

proof fn lemma_feed_reasoning(s: StreamV, ds: Seq<Seq<char>>)
    ensures
        feed_reasoning(s, ds) == (StreamV {
            reasoning: s.reasoning + joined(ds),
            reasoning_started: s.reasoning_started || joined(ds).len() > 0,
            ..s
        }),
    decreases ds.len(),
{
    if ds.len() > 0 {
        lemma_feed_reasoning(s, ds.drop_last());
        assert(s.reasoning + joined(ds.drop_last()) + ds.last() =~= s.reasoning + joined(ds));
        if ds.last().len() == 0 {
            assert(joined(ds) =~= joined(ds.drop_last()));
        }
    } else {
        assert(s.reasoning + joined(ds) =~= s.reasoning);
    }
}

proof fn lemma_feed_text(s: StreamV, ds: Seq<Seq<char>>)
    ensures
        feed_text(s, ds) == (StreamV { text: s.text + joined(ds), text_started: s.text_started || ds.len() > 0, ..s }),
    decreases ds.len(),
{
    if ds.len() > 0 {
        lemma_feed_text(s, ds.drop_last());
        assert(s.text + joined(ds.drop_last()) + ds.last() =~= s.text + joined(ds));
    } else {
        assert(s.text + joined(ds) =~= s.text);
    }
}

/// The response object after a stream of reasoning deltas and then text
/// deltas. From a fresh state, its status is the one asked for, its model
/// the stream's, and its output the reasoning item (with all reasoning
/// deltas joined) when any reasoning came, then the message (with all text
/// deltas joined) when a text delta came; `incomplete_details` is there
/// exactly for the status `incomplete`.
pub proof fn law_response_object_after_deltas(
    model: Seq<char>,
    created_at: i64,
    millis: u128,
    reasoning: Seq<Seq<char>>,
    text: Seq<Seq<char>>,
    status: Seq<char>,
)
    ensures
        ({
            let s0 = new_stream_v(model, created_at, millis);
            let s = feed_text(feed_reasoning(s0, reasoning), text);
            let r = joined(reasoning);
            let o = stream_response(s, status);
            let expected = (if r.len() > 0 {
                seq![reasoning_item(s0.reasoning_item_id, r)]
            } else {
                Seq::empty()
            }) + (if text.len() > 0 {
                seq![message_item(s0.text_item_id, status, joined(text))]
            } else {
                Seq::empty()
            });
            &&& v_get(o, "status"@) == Some(JsonV::Str(status))
            &&& v_get(o, "model"@) == Some(JsonV::Str(model))
            &&& v_get(o, "output"@) == Some(JsonV::Array(expected))
            &&& (v_get(o, "incomplete_details"@) is Some <==> status == "incomplete"@)
        }),
{
    let s0 = new_stream_v(model, created_at, millis);
    lemma_feed_reasoning(s0, reasoning);
    let s1 = feed_reasoning(s0, reasoning);
    lemma_feed_text(s1, text);
    let s = feed_text(s1, text);
    let r = joined(reasoning);
    assert(s0.reasoning + r =~= r);
    assert(s1.text + joined(text) =~= joined(text));
    assert(s.reasoning == r && s.text == joined(text));
    assert(s.tools.len() == 0 && s.usage is None);
    assert(placed_tool_items(s.tools) =~= Seq::<(u32, JsonV)>::empty());
    let items = output_items(s, status);
    let expected = (if r.len() > 0 {
        seq![reasoning_item(s0.reasoning_item_id, r)]
    } else {
        Seq::empty()
    }) + (if text.len() > 0 {
        seq![message_item(s0.text_item_id, status, joined(text))]
    } else {
        Seq::empty()
    });
    // The items come already in index order.
    if r.len() > 0 && text.len() > 0 {
        assert(items =~= seq![(0u32, reasoning_item(s0.reasoning_item_id, r)), (1u32, message_item(s0.text_item_id, status, joined(text)))]);
        assert(items.drop_last() =~= seq![(0u32, reasoning_item(s0.reasoning_item_id, r))]);
        let a = items.drop_last();
        assert(a.drop_last() =~= Seq::<(u32, JsonV)>::empty());
        assert(sort_by_index(a.drop_last()) == Seq::<(u32, JsonV)>::empty());
        assert(insert_by_index(Seq::<(u32, JsonV)>::empty(), a.last()) == seq![a.last()]);
        assert(sort_by_index(a) =~= a);
        assert(insert_by_index(a, items.last()) == a.push(items.last()));
        assert(sort_by_index(items) =~= items);
    } else if r.len() > 0 {
        assert(items =~= seq![(0u32, reasoning_item(s0.reasoning_item_id, r))]);
        assert(items.drop_last() =~= Seq::<(u32, JsonV)>::empty());
        assert(sort_by_index(items.drop_last()) == Seq::<(u32, JsonV)>::empty());
        assert(insert_by_index(Seq::<(u32, JsonV)>::empty(), items.last()) == seq![items.last()]);
        assert(sort_by_index(items) =~= items);
    } else if text.len() > 0 {
        assert(items =~= seq![(0u32, message_item(s0.text_item_id, status, joined(text)))]);
        assert(items.drop_last() =~= Seq::<(u32, JsonV)>::empty());
        assert(sort_by_index(items.drop_last()) == Seq::<(u32, JsonV)>::empty());
        assert(insert_by_index(Seq::<(u32, JsonV)>::empty(), items.last()) == seq![items.last()]);
        assert(sort_by_index(items) =~= items);
    } else {
        assert(items =~= Seq::<(u32, JsonV)>::empty());
    }
    assert(second_parts(sort_by_index(items)) =~= expected);
    reveal_strlit("id");
    reveal_strlit("object");
    reveal_strlit("created_at");
    reveal_strlit("model");
    reveal_strlit("status");
    reveal_strlit("output");
    reveal_strlit("incomplete_details");
    reveal_strlit("incomplete");
    reveal_with_fuel(crate::json::entries_lookup, 8);
    assert("id"@.len() == 2 && "model"@.len() == 5 && "created_at"@.len() == 10 && "incomplete_details"@.len() == 18);
    assert("object"@[0] == 'o' && "status"@[0] == 's' && "output"@[0] == 'o' && "model"@[0] == 'm');
    assert("object"@[1] == 'b' && "output"@[1] == 'u');
    assert("object"@ != "status"@ && "object"@ != "output"@ && "status"@ != "output"@);
    assert("object"@ != "model"@ && "id"@ != "model"@ && "created_at"@ != "model"@);
    let o = stream_response(s, status);
    assert(v_get(o, "status"@) == Some(JsonV::Str(status)));
    assert(v_get(o, "model"@) == Some(JsonV::Str(model)));
    assert(v_get(o, "output"@) == Some(JsonV::Array(expected)));
}

/// The output index of the tool call at chat index `k`, if it has one.
pub open spec fn tool_index(s: StreamV, k: usize) -> Option<u32> {
    match tool_pos(s.tools, k) {
        Some(i) => s.tools[i].1.output_index,
        None => None,
    }
}

/// Entries before the position for `k` have smaller chat indexes, the
/// others larger or equal ones.
proof fn lemma_count_below_split(ts: Seq<(usize, ToolV)>, k: usize)
    requires
        keys_increasing(ts),
    ensures
        count_below(ts, k) <= ts.len(),
        forall|j: int| 0 <= j < count_below(ts, k) ==> (#[trigger] ts[j]).0 < k,
        forall|j: int| count_below(ts, k) <= j < ts.len() ==> (#[trigger] ts[j]).0 >= k,
    decreases ts.len(),
{
    if ts.len() > 0 {
        let d = ts.drop_last();
        assert(keys_increasing(d));
        lemma_count_below_split(d, k);
        if ts.last().0 < k {
            assert forall|j: int| 0 <= j < d.len() implies (#[trigger] d[j]).0 < k by {
                assert(ts[j].0 < ts[ts.len() - 1].0);
            }
            if count_below(d, k) < d.len() {
                assert(d[count_below(d, k) as int].0 < k);
            }
        }
        assert forall|j: int| 0 <= j < count_below(ts, k) implies (#[trigger] ts[j]).0 < k by {
            if j < d.len() {
                assert(d[j] == ts[j]);
            }
        }
        assert forall|j: int| count_below(ts, k) <= j < ts.len() implies (#[trigger] ts[j]).0 >= k by {
            if j < d.len() {
                assert(d[j] == ts[j]);
            }
        }
    }
}

/// Writing the entry for `k` keeps the chat indexes increasing and leaves
/// every other entry as it was.
proof fn lemma_tools_set_keeps(ts: Seq<(usize, ToolV)>, k: usize, t: ToolV, k2: usize)
    requires
        keys_increasing(ts),
    ensures
        keys_increasing(tools_set(ts, k, t)),
        tool_pos(tools_set(ts, k, t), k) matches Some(i) && tools_set(ts, k, t)[i].1 == t,
        k2 != k ==> match (tool_pos(ts, k2), tool_pos(tools_set(ts, k, t), k2)) {
            (Some(a), Some(b)) => ts[a].1 == tools_set(ts, k, t)[b].1,
            (None, None) => true,
            _ => false,
        },
{
    let r = tools_set(ts, k, t);
    match tool_pos(ts, k) {
        Some(i) => {
            let j = choose|j: int| 0 <= j < ts.len() && ts[j].0 == k;
            assert(0 <= j < ts.len() && ts[j].0 == k);
            assert(r =~= ts.update(i, (k, t)));
            assert(keys_increasing(r)) by {
                assert forall|a: int, b: int| 0 <= a < b < r.len() implies r[a].0 < r[b].0 by {
                    assert(r[a].0 == ts[a].0 && r[b].0 == ts[b].0);
                }
            }
            lemma_tool_pos_at(r, k, i);
            if k2 != k {
                if exists|x: int| 0 <= x < ts.len() && ts[x].0 == k2 {
                    let x = choose|x: int| 0 <= x < ts.len() && ts[x].0 == k2;
                    lemma_tool_pos_at(ts, k2, x);
                    assert(r[x].0 == k2);
                    lemma_tool_pos_at(r, k2, x);
                } else {
                    assert forall|x: int| 0 <= x < r.len() implies r[x].0 != k2 by {
                        if x != i {
                            assert(r[x] == ts[x]);
                        }
                    }
                }
            }
        },
        None => {
            let p = count_below(ts, k) as int;
            lemma_count_below_split(ts, k);
            assert(forall|x: int| 0 <= x < ts.len() ==> ts[x].0 != k);
            assert(r == ts.insert(p, (k, t)));
            assert(keys_increasing(r)) by {
                assert forall|a: int, b: int| 0 <= a < b < r.len() implies r[a].0 < r[b].0 by {
                    if b < p {
                        assert(r[a] == ts[a] && r[b] == ts[b]);
                    } else if b == p {
                        assert(r[a] == ts[a]);
                    } else if a == p {
                        assert(r[b] == ts[b - 1]);
                        assert(ts[b - 1].0 >= k);
                    } else if a < p {
                        assert(r[a] == ts[a] && r[b] == ts[b - 1]);
                    } else {
                        assert(r[a] == ts[a - 1] && r[b] == ts[b - 1]);
                    }
                }
            }
            lemma_tool_pos_at(r, k, p);
            if k2 != k {
                if exists|x: int| 0 <= x < ts.len() && ts[x].0 == k2 {
                    let x = choose|x: int| 0 <= x < ts.len() && ts[x].0 == k2;
                    lemma_tool_pos_at(ts, k2, x);
                    if x < p {
                        assert(r[x] == ts[x]);
                        lemma_tool_pos_at(r, k2, x);
                    } else {
                        assert(r[x + 1] == ts[x]);
                        lemma_tool_pos_at(r, k2, x + 1);
                    }
                } else {
                    assert forall|x: int| 0 <= x < r.len() implies r[x].0 != k2 by {
                        if x < p {
                            assert(r[x] == ts[x]);
                        } else if x > p {
                            assert(r[x] == ts[x - 1]);
                        }
                    }
                }
            }
        },
    }
}

/// Registering a tool call keeps the index of every placed call; a call
/// without one gets the next output index, which is announced.
proof fn lemma_ensure_tool_index(s: StreamV, k: usize, tc: JsonV, k2: usize)
    requires
        keys_increasing(s.tools),
    ensures
        keys_increasing(ensure_tool_v(s, k, tc).1.tools),
        tool_index(s, k) is Some ==> ensure_tool_v(s, k, tc) == (tool_index(s, k)->0, s),
        tool_index(s, k) is None ==> ensure_tool_v(s, k, tc).0 == next_output_index(s) as u32
            && tool_index(ensure_tool_v(s, k, tc).1, k) == Some(next_output_index(s) as u32),
        k2 != k ==> tool_index(ensure_tool_v(s, k, tc).1, k2) == tool_index(s, k2),
        tool_pos(ensure_tool_v(s, k, tc).1.tools, k) is Some,
{
    if tool_index(s, k) is None {
        lemma_tools_set_keeps(s.tools, k, ensure_new_tool(s, k, tc), k2);
        assert(ensure_tool_v(s, k, tc).1.tools == tools_set(s.tools, k, ensure_new_tool(s, k, tc)));
    }
}

/// Each tool call of a stream keeps the output index that its `added` event
/// announced: a call without one gets the next output index (the number of
/// items placed so far), which its `added` event announces when the call is
/// new, and neither an `added` step nor a `delta` step moves a placed call.
pub proof fn law_tool_calls_keep_their_announced_index(s: StreamV, tc: JsonV, other: usize)
    requires
        keys_increasing(s.tools),
    ensures
        ({
            let k = tc_index(tc);
            let idx = ensure_tool_v(s, k, tc).0;
            let added = tool_added_v(s, tc);
            let delta = tool_delta_v(s, tc).1;
            &&& tool_index(s, k) is None ==> idx == next_output_index(s) as u32
            &&& tool_pos(s.tools, k) is None ==> added.0.len() == 1
                && v_get(added.0[0].1, "output_index"@) == Some(int_v(idx as int))
            &&& tool_index(s, k) is Some ==> tool_index(s, k) == Some(idx)
            &&& tool_index(added.1, k) == Some(idx)
            &&& tool_index(delta, k) == Some(idx)
            &&& other != k ==> tool_index(added.1, other) == tool_index(s, other)
                && tool_index(delta, other) == tool_index(s, other)
            &&& keys_increasing(added.1.tools) && keys_increasing(delta.tools)
        }),
{
    let k = tc_index(tc);
    lemma_ensure_tool_index(s, k, tc, other);
    let s1 = ensure_tool_v(s, k, tc).1;
    let idx = ensure_tool_v(s, k, tc).0;
    if tool_index(s, k) is Some {
        let i = tool_pos(s.tools, k)->0;
        let j = choose|j: int| 0 <= j < s.tools.len() && s.tools[j].0 == k;
        assert(0 <= j < s.tools.len() && s.tools[j].0 == k);
        lemma_tool_pos_at(s.tools, k, j);
    }
    assert(tool_added_v(s, tc).1 == s1);
    let i = tool_pos(s1.tools, k)->0;
    let jj = choose|j: int| 0 <= j < s1.tools.len() && s1.tools[j].0 == k;
    assert(0 <= jj < s1.tools.len() && s1.tools[jj].0 == k);
    lemma_tool_pos_at(s1.tools, k, jj);
    let d = tool_delta_v(s, tc).1;
    assert(d.tools.len() == s1.tools.len());
    assert(forall|x: int| 0 <= x < d.tools.len() ==> (#[trigger] d.tools[x]).0 == s1.tools[x].0);
    assert(keys_increasing(d.tools));
    lemma_tool_pos_at(d.tools, k, i);
    assert(d.tools[i].1.output_index == s1.tools[i].1.output_index);
    if other != k {
        if exists|x: int| 0 <= x < s1.tools.len() && s1.tools[x].0 == other {
            let x = choose|x: int| 0 <= x < s1.tools.len() && s1.tools[x].0 == other;
            lemma_tool_pos_at(s1.tools, other, x);
            lemma_tool_pos_at(d.tools, other, x);
            assert(d.tools[x] == s1.tools[x]);
        } else {
            assert(forall|x: int| 0 <= x < d.tools.len() ==> (#[trigger] d.tools[x]).0 != other);
        }
    }
    if tool_index(s, k) is None {
        reveal_strlit("output_index");
        reveal_strlit("type");
        assert("type"@ != "output_index"@) by {
            assert("type"@.len() != "output_index"@.len());
        }
        reveal_with_fuel(crate::json::entries_lookup, 3);
    }
}

/// The identity of a streamed response: its id, its items' ids, its model
/// and its creation time.
pub open spec fn same_response(a: StreamV, b: StreamV) -> bool {
    &&& a.response_id == b.response_id
    &&& a.text_item_id == b.text_item_id
    &&& a.reasoning_item_id == b.reasoning_item_id
    &&& a.model == b.model
    &&& a.created_at == b.created_at
}

/// Every step of a response stream keeps the response's identity, so the
/// response objects that its events carry, from `response.created` to the
/// closing event, all name the same response: each is headed by the
/// stream's id, with its creation time and model.
pub proof fn law_stream_steps_keep_response_identity(
    s: StreamV,
    delta: Seq<char>,
    finish_reason: Option<Seq<char>>,
    usage: Option<JsonV>,
    chat_index: usize,
    tool_call: JsonV,
    status: Seq<char>,
)
    ensures
        same_response(reasoning_delta_v(s, delta).1, s),
        same_response(text_delta_v(s, delta).1, s),
        same_response(reasoning_done_v(s).1, s),
        same_response(text_done_v(s).1, s),
        same_response(done_events_v(s).1, s),
        same_response(set_finish_reason_v(s, finish_reason), s),
        same_response(set_usage_v(s, usage), s),
        same_response(ensure_tool_v(s, chat_index, tool_call).1, s),
        same_response(tool_added_v(s, tool_call).1, s),
        same_response(tool_delta_v(s, tool_call).1, s),
        same_response(tool_done_v(s, chat_index).1, s),
        v_get(stream_response(s, status), "id"@) == Some(JsonV::Str(s.response_id)),
{
    reveal_strlit("id");
}

/// The end of a stream closes each output item once: closing the stream a
/// second time emits only `response.completed` and changes nothing.
pub proof fn law_done_events_close_once(s: StreamV)
    ensures
        ({
            let (e1, s1) = done_events_v(s);
            let (e2, s2) = done_events_v(s1);
            &&& e2.len() == 1
            &&& e2[0].0 == "response.completed"@
            &&& s2 == s1
        }),
{
    let (r1, sa) = reasoning_done_v(s);
    let (t1, sb) = text_done_v(sa);
    let (x1, ts) = tools_done_from(sb.tools, 0);
    let s1 = StreamV { tools: ts, ..sb };
    lemma_tools_done_from_closes(sb.tools, 0);
    assert(done_events_v(s).1 == s1);
    assert(reasoning_done_v(s1) == (Seq::<EventV>::empty(), s1));
    assert(text_done_v(s1) == (Seq::<EventV>::empty(), s1));
    lemma_tools_done_from_closed(ts, 0);
    let (e2, s2) = done_events_v(s1);
    assert(s2 == s1);
    assert(e2.len() == 1);
}

} // verus!
