//! Streaming conversion: the upstream's Chat Completions stream, read as
//! server-sent-event lines, becomes a Responses event stream.
//!
//! The caller reads the upstream and writes the events; this module decides,
//! for each line and each chunk, what is sent and when the stream ends.

use vstd::prelude::*;

use crate::json::{jv, v_get, v_opt_str, Json, JsonV};
use crate::local_router::{
    chat_chunk_delta, chat_chunk_finish_reason, chat_chunk_is_finished, chat_chunk_reasoning_delta,
    chat_chunk_tool_calls, chat_chunk_usage, chunk_finish_reason, chunk_finished, chunk_reasoning,
    chunk_text, chunk_tool_calls, chunk_usage, done_events_v, lemma_tool_step_len, drain_spec, events_model, failed_events_v,
    new_stream_v, opt_json_view, opt_str_view, reasoning_delta_v, set_finish_reason_v, set_usage_v,
    start_events_v, text_delta_v, tool_added_v, tool_delta_v, EventV, InlineDelta, InlineDeltaKind,
    InlineThinkMode, InlineThinkParser, ResponseStreamState, StreamV, deltas_model,
};
use crate::text::{
    chars_of, find_first, find_chars, lemma_find_first, lemma_find_first_append, occurs_at, owned, slice_chars, starts_with,
    starts_with_exec, string_of, trim_chars, trim_seq, push_str_chars,
};
use crate::json::values_model;

verus! {

/// What the parser emits for a delta, with its new mode and pending text.
pub open spec fn push_spec(mode: InlineThinkMode, pending: Seq<char>, delta: Seq<char>) -> (
    Seq<(InlineDeltaKind, Seq<char>)>,
    InlineThinkMode,
    Seq<char>,
) {
    if delta.len() == 0 {
        (Seq::empty(), mode, pending)
    } else {
        drain_spec(mode, pending + delta, false)
    }
}

/// The events for a run of inline deltas: reasoning deltas and text deltas
/// in the order they came.
pub open spec fn apply_inline(s: StreamV, ds: Seq<(InlineDeltaKind, Seq<char>)>) -> (
    Seq<EventV>,
    StreamV,
)
    decreases ds.len(),
{
    if ds.len() == 0 {
        (Seq::empty(), s)
    } else {
        let (e0, s0) = apply_inline(s, ds.drop_last());
        let d = ds.last();
        let (e1, s1) = match d.0 {
            InlineDeltaKind::Reasoning => reasoning_delta_v(s0, d.1),
            InlineDeltaKind::Text => text_delta_v(s0, d.1),
        };
        (e0 + e1, s1)
    }
}

/// The events for the tool calls of a chunk: for each, its `added` events
/// then its `delta` events.
pub open spec fn apply_tools(s: StreamV, tcs: Seq<JsonV>) -> (Seq<EventV>, StreamV)
    decreases tcs.len(),
{
    if tcs.len() == 0 {
        (Seq::empty(), s)
    } else {
        let (e0, s0) = apply_tools(s, tcs.drop_last());
        let (e1, s1) = tool_added_v(s0, tcs.last());
        let (e2, s2) = tool_delta_v(s1, tcs.last());
        (e0 + e1 + e2, s2)
    }
}

/// The model of a converter: the stream state and the inline parser's mode
/// and pending text.
pub struct ConverterV {
    pub stream: StreamV,
    pub mode: InlineThinkMode,
    pub pending: Seq<char>,
}

/// One upstream chunk: usage and finish reason are recorded, the reasoning
/// delta and the text delta (split by the inline parser) are reported, then
/// the tool calls; a chunk with a finish reason flushes the parser and
/// closes the stream. The flag tells whether the stream ended.
pub open spec fn chunk_step_v(t: ConverterV, chunk: JsonV) -> (Seq<EventV>, ConverterV, bool) {
    let s1 = set_finish_reason_v(set_usage_v(t.stream, chunk_usage(chunk)), chunk_finish_reason(chunk));
    let (e1, s2) = match chunk_reasoning(chunk) {
        Some(r) => reasoning_delta_v(s1, r),
        None => (Seq::empty(), s1),
    };
    let (ds, mode2, pending2) = match chunk_text(chunk) {
        Some(d) => push_spec(t.mode, t.pending, d),
        None => (Seq::empty(), t.mode, t.pending),
    };
    let (e2, s3) = apply_inline(s2, ds);
    let (e3, s4) = apply_tools(s3, chunk_tool_calls(chunk));
    if chunk_finished(chunk) {
        let (ds2, mode3, pending3) = drain_spec(mode2, pending2, true);
        let (e4, s5) = apply_inline(s4, ds2);
        let (e5, s6) = done_events_v(s5);
        (e1 + e2 + e3 + e4 + e5, ConverterV { stream: s6, mode: mode3, pending: pending3 }, true)
    } else {
        (e1 + e2 + e3, ConverterV { stream: s4, mode: mode2, pending: pending2 }, false)
    }
}

/// The end of the upstream stream: the parser is flushed, then the stream
/// is closed.
pub open spec fn end_step_v(t: ConverterV) -> (Seq<EventV>, ConverterV) {
    let (ds, mode2, pending2) = drain_spec(t.mode, t.pending, true);
    let (e1, s1) = apply_inline(t.stream, ds);
    let (e2, s2) = done_events_v(s1);
    (e1 + e2, ConverterV { stream: s2, mode: mode2, pending: pending2 })
}

/// Converts one Chat Completions stream into Responses events.
#[derive(Debug)]
pub struct ChatStreamConverter {
    state: ResponseStreamState,
    inline: InlineThinkParser,
}

impl ChatStreamConverter {
    pub closed spec fn view(&self) -> ConverterV {
        ConverterV { stream: self.state@, mode: self.inline.mode(), pending: self.inline.pending() }
    }

    pub closed spec fn wf(&self) -> bool {
        self.state.wf()
    }

    /// A converter for a response on `model`, stamped with the current time.
    pub fn new(model: String) -> (r: Self)
        ensures
            r.wf(),
            r@.stream.tools.len() == 0,
            r@.mode == InlineThinkMode::Text,
            r@.pending == Seq::<char>::empty(),
            exists|created_at: i64, millis: u128| r@.stream == new_stream_v(model@, created_at, millis),
    {
        ChatStreamConverter { state: ResponseStreamState::new(model), inline: InlineThinkParser::new() }
    }

    /// A converter for a response on `model`, stamped with the given time.
    pub fn with_clock(model: String, created_at: i64, millis: u128) -> (r: Self)
        ensures
            r.wf(),
            r@ == (ConverterV {
                stream: new_stream_v(model@, created_at, millis),
                mode: InlineThinkMode::Text,
                pending: Seq::empty(),
            }),
    {
        let state = ResponseStreamState::with_clock(model, created_at, millis);
        ChatStreamConverter { state, inline: InlineThinkParser::new() }
    }

    /// How many tool calls the stream has seen.
    pub fn tool_count(&self) -> (r: usize)
        ensures
            r == self@.stream.tools.len(),
    {
        self.state.tool_call_count()
    }

    /// `response.created` and `response.in_progress`.
    pub fn start_events(&self) -> (r: Vec<(&'static str, Json)>)
        ensures
            events_model(r@) == start_events_v(self@.stream),
    {
        self.state.start_events()
    }

    /// The events for inline deltas; the parser is left as it is.
    fn inline_events(&mut self, deltas: Vec<InlineDelta>) -> (r: Vec<(&'static str, Json)>)
        requires
            old(self).wf(),
        ensures
            final(self).wf(),
            final(self)@.mode == old(self)@.mode,
            final(self)@.pending == old(self)@.pending,
            final(self)@.stream.tools == old(self)@.stream.tools,
            (events_model(r@), final(self)@.stream) == apply_inline(old(self)@.stream, deltas_model(deltas@)),
    {
        let ghost s0 = self@.stream;
        let ghost dm = deltas_model(deltas@);
        let mut events: Vec<(&'static str, Json)> = Vec::new();
        let mut i: usize = 0;
        proof {
            assert(dm.take(0) =~= Seq::<(InlineDeltaKind, Seq<char>)>::empty());
            assert(events_model(events@) =~= Seq::<EventV>::empty());
        }
        while i < deltas.len()
            invariant
                self.wf(),
                self@.mode == old(self)@.mode,
                self@.pending == old(self)@.pending,
                self@.stream.tools == old(self)@.stream.tools,
                i <= deltas@.len(),
                dm == deltas_model(deltas@),
                s0 == old(self)@.stream,
                (events_model(events@), self@.stream) == apply_inline(s0, dm.take(i as int)),
            decreases deltas.len() - i,
        {
            let ghost before = events_model(events@);
            let d = &deltas[i];
            let mut more = match d.kind {
                InlineDeltaKind::Reasoning => self.state.reasoning_delta_events(d.text.as_str()),
                InlineDeltaKind::Text => self.state.delta_events(d.text.as_str()),
            };
            let ghost m = events_model(more@);
            events.append(&mut more);
            proof {
                assert(dm.take(i + 1).drop_last() =~= dm.take(i as int));
                assert(dm.take(i + 1).last() == dm[i as int]);
                assert(events_model(events@) =~= before + m);
            }
            i += 1;
        }
        proof {
            assert(dm.take(deltas@.len() as int) =~= dm);
        }
        events
    }

    /// The events for a chunk's tool calls; see `apply_tools`.
    fn tool_events(&mut self, calls: &Vec<Json>) -> (r: Vec<(&'static str, Json)>)
        requires
            old(self).wf(),
            old(self)@.stream.tools.len() + calls@.len() < 4294967290,
        ensures
            final(self).wf(),
            final(self)@.stream.tools.len() <= old(self)@.stream.tools.len() + calls@.len(),
            final(self)@.mode == old(self)@.mode,
            final(self)@.pending == old(self)@.pending,
            (events_model(r@), final(self)@.stream) == apply_tools(old(self)@.stream, values_model(calls@)),
    {
        let ghost s0 = self@.stream;
        let ghost cm = values_model(calls@);
        let mut events: Vec<(&'static str, Json)> = Vec::new();
        let mut i: usize = 0;
        proof {
            assert(cm.take(0) =~= Seq::<JsonV>::empty());
            assert(events_model(events@) =~= Seq::<EventV>::empty());
        }
        while i < calls.len()
            invariant
                self.wf(),
                self@.mode == old(self)@.mode,
                self@.pending == old(self)@.pending,
                i <= calls@.len(),
                cm == values_model(calls@),
                s0 == old(self)@.stream,
                s0.tools.len() + calls@.len() < 4294967290,
                self@.stream.tools.len() <= s0.tools.len() + i,
                (events_model(events@), self@.stream) == apply_tools(s0, cm.take(i as int)),
            decreases calls.len() - i,
        {
            let ghost before = events_model(events@);
            let mut added = self.state.tool_call_added_events(&calls[i]);
            let ghost m1 = events_model(added@);
            events.append(&mut added);
            let mut delta = self.state.tool_call_delta_events(&calls[i]);
            let ghost m2 = events_model(delta@);
            events.append(&mut delta);
            proof {
                lemma_tool_step_len(apply_tools(s0, cm.take(i as int)).1, cm[i as int]);
                assert(cm.take(i + 1).drop_last() =~= cm.take(i as int));
                assert(cm.take(i + 1).last() == cm[i as int]);
                assert(events_model(events@) =~= before + m1 + m2);
            }
            i += 1;
        }
        proof {
            assert(cm.take(calls@.len() as int) =~= cm);
        }
        events
    }

    /// The events for one upstream chunk, and whether the stream ended with
    /// it; see `chunk_step_v`.
    pub fn chunk_events(&mut self, chunk: &Json) -> (r: (Vec<(&'static str, Json)>, bool))
        requires
            old(self).wf(),
            old(self)@.stream.tools.len() + chunk_tool_calls(jv(*chunk)).len() < 4294967290,
        ensures
            final(self).wf(),
            final(self)@.stream.tools.len() <= old(self)@.stream.tools.len() + chunk_tool_calls(
                jv(*chunk),
            ).len(),
            (events_model(r.0@), final(self)@, r.1) == chunk_step_v(old(self)@, jv(*chunk)),
    {
        let ghost t = self@;
        let ghost c = jv(*chunk);
        self.state.set_usage(chat_chunk_usage(chunk));
        self.state.set_finish_reason(chat_chunk_finish_reason(chunk));
        let mut events: Vec<(&'static str, Json)> = match chat_chunk_reasoning_delta(chunk) {
            Some(r) => self.state.reasoning_delta_events(r.as_str()),
            None => Vec::new(),
        };
        proof {
            if chunk_reasoning(c) is None {
                assert(events_model(events@) =~= Seq::<EventV>::empty());
            }
        }
        let ghost e1 = events_model(events@);
        let deltas: Vec<InlineDelta> = match chat_chunk_delta(chunk) {
            Some(d) => self.inline.push(d.as_str()),
            None => Vec::new(),
        };
        proof {
            if chunk_text(c) is None {
                assert(deltas_model(deltas@) =~= Seq::<(InlineDeltaKind, Seq<char>)>::empty());
            } else if chunk_text(c).unwrap().len() == 0 {
                assert(deltas_model(deltas@) =~= Seq::<(InlineDeltaKind, Seq<char>)>::empty());
            }
        }
        let mut more = self.inline_events(deltas);
        let ghost e2 = events_model(more@);
        events.append(&mut more);
        let calls = chat_chunk_tool_calls(chunk);
        let mut tools = self.tool_events(&calls);
        let ghost e3 = events_model(tools@);
        events.append(&mut tools);
        proof {
            assert(events_model(events@) =~= e1 + e2 + e3);
        }
        if chat_chunk_is_finished(chunk) {
            let flushed = self.inline.finish();
            let mut rest = self.inline_events(flushed);
            let ghost e4 = events_model(rest@);
            events.append(&mut rest);
            let mut done = self.state.done_events();
            let ghost e5 = events_model(done@);
            events.append(&mut done);
            proof {
                assert(events_model(events@) =~= e1 + e2 + e3 + e4 + e5);
            }
            (events, true)
        } else {
            (events, false)
        }
    }

    /// The events that close the stream when the upstream ends without a
    /// finish reason; see `end_step_v`.
    pub fn end_events(&mut self) -> (r: Vec<(&'static str, Json)>)
        requires
            old(self).wf(),
        ensures
            final(self).wf(),
            (events_model(r@), final(self)@) == end_step_v(old(self)@),
    {
        let flushed = self.inline.finish();
        let mut events = self.inline_events(flushed);
        let ghost e1 = events_model(events@);
        let mut done = self.state.done_events();
        let ghost e2 = events_model(done@);
        events.append(&mut done);
        proof {
            assert(events_model(events@) =~= e1 + e2);
        }
        events
    }

    /// The events that close the stream at the upstream's `[DONE]`: the
    /// parser is not flushed.
    pub fn done_marker_events(&mut self) -> (r: Vec<(&'static str, Json)>)
        requires
            old(self).wf(),
        ensures
            final(self).wf(),
            final(self)@.mode == old(self)@.mode,
            final(self)@.pending == old(self)@.pending,
            (events_model(r@), final(self)@.stream) == done_events_v(old(self)@.stream),
    {
        self.state.done_events()
    }

    /// `response.failed` for an upstream read error.
    pub fn failed_events(&mut self, message: &str) -> (r: Vec<(&'static str, Json)>)
        ensures
            final(self)@ == old(self)@,
            final(self).wf() == old(self).wf(),
            events_model(r@) == failed_events_v(old(self)@.stream, message@),
    {
        self.state.failed_events(message)
    }
}


/// The model that the streamed response reports: the request's `model`, or
/// `codex-toolkit-router` when it has none.
pub open spec fn stream_model_v(request: JsonV) -> Seq<char> {
    match v_opt_str(v_get(request, "model"@)) {
        Some(m) => m,
        None => "codex-toolkit-router"@,
    }
}

pub fn stream_model(request: &Json) -> (r: String)
    ensures
        r@ == stream_model_v(jv(*request)),
{
    match request.get("model") {
        Some(m) => match m.as_str() {
            Some(s) => s.clone(),
            None => owned("codex-toolkit-router"),
        },
        None => owned("codex-toolkit-router"),
    }
}

/// A line of the upstream event stream: the end marker, a data payload, or
/// anything else.
#[derive(Debug)]
pub enum SseLine {
    Done,
    Data(String),
    Skip,
}

/// The model of `SseLine`.
pub enum SseLineV {
    Done,
    Data(Seq<char>),
    Skip,
}

pub open spec fn sse_line_view(l: SseLine) -> SseLineV {
    match l {
        SseLine::Done => SseLineV::Done,
        SseLine::Data(d) => SseLineV::Data(d@),
        SseLine::Skip => SseLineV::Skip,
    }
}

/// What a trimmed line is: after `data:`, its trimmed payload, which is
/// `[DONE]` at the end of the stream.
pub open spec fn classify_line(line: Seq<char>) -> SseLineV {
    if starts_with(line, "data:"@) {
        let data = trim_seq(line.skip(5));
        if data == "[DONE]"@ {
            SseLineV::Done
        } else {
            SseLineV::Data(data)
        }
    } else {
        SseLineV::Skip
    }
}

/// The first complete line of `pending`, trimmed and classified, and what
/// follows its newline; `None` while no newline has arrived.
pub open spec fn next_line_v(pending: Seq<char>) -> Option<(SseLineV, Seq<char>)> {
    match find_first(pending, seq!['\n']) {
        Some(i) => Some((classify_line(trim_seq(pending.take(i))), pending.skip(i + 1))),
        None => None,
    }
}

/// Text received from the upstream that is not yet split into lines.
#[derive(Debug)]
pub struct SseLineBuffer {
    pending: Vec<char>,
}

impl SseLineBuffer {
    pub closed spec fn view(&self) -> Seq<char> {
        self.pending@
    }

    pub fn new() -> (r: Self)
        ensures
            r@ == Seq::<char>::empty(),
    {
        SseLineBuffer { pending: Vec::new() }
    }

    /// Appends received text.
    pub fn push_text(&mut self, text: &str)
        ensures
            final(self)@ == old(self)@ + text@,
    {
        push_str_chars(&mut self.pending, text);
    }

    /// Takes the next complete line; see `next_line_v`.
    pub fn next_line(&mut self) -> (r: Option<SseLine>)
        ensures
            match r {
                Some(l) => next_line_v(old(self)@) == Some((sse_line_view(l), final(self)@)),
                None => next_line_v(old(self)@) is None && final(self)@ == old(self)@,
            },
    {
        let nl = chars_of("\n");
        proof {
            reveal_strlit("\n");
            assert(nl@ =~= seq!['\n']);
        }
        let i = match find_chars(&self.pending, &nl) {
            Some(i) => i,
            None => return None,
        };
        proof {
            lemma_find_first(self.pending@, nl@);
            assert(occurs_at(self.pending@, nl@, i as int));
            assert(nl@.len() == 1);
            assert(i + 1 <= self.pending@.len());
        }
        let line_raw = slice_chars(&self.pending, 0, i);
        assert(i < self.pending.len());
        let after_nl: usize = i + 1;
        let rest = slice_chars(&self.pending, after_nl, self.pending.len());
        let line = trim_chars(&line_raw);
        proof {
            assert(line_raw@ =~= self.pending@.take(i as int));
            assert(rest@ =~= self.pending@.skip(i + 1));
        }
        self.pending = rest;
        let prefix = chars_of("data:");
        if !starts_with_exec(&line, &prefix) {
            return Some(SseLine::Skip);
        }
        proof {
            reveal_strlit("data:");
        }
        let after = slice_chars(&line, 5, line.len());
        let data = trim_chars(&after);
        proof {
            assert(after@ =~= line@.skip(5));
        }
        let done = chars_of("[DONE]");
        if crate::text::chars_eq(&data, &done) {
            Some(SseLine::Done)
        } else {
            Some(SseLine::Data(string_of(&data)))
        }
    }
}

/// All the complete lines of `pending`, in order, and the text left after
/// the last newline.
pub open spec fn drain_lines_v(pending: Seq<char>) -> (Seq<SseLineV>, Seq<char>)
    decreases pending.len(),
{
    match next_line_v(pending) {
        Some((line, rest)) => {
            proof {
                lemma_find_first(pending, seq!['\n']);
            }
            let (more, left) = drain_lines_v(rest);
            (seq![line] + more, left)
        },
        None => (Seq::empty(), pending),
    }
}

/// How the upstream's text is cut into pieces does not change the lines
/// taken from it: draining the lines of `a`, then of what was left with
/// `b` appended, gives the lines of `a + b` and leaves the same text.
pub proof fn law_lines_independent_of_chunks(a: Seq<char>, b: Seq<char>)
    ensures
        ({
            let (la, ra) = drain_lines_v(a);
            let (lb, rb) = drain_lines_v(ra + b);
            drain_lines_v(a + b) == (la + lb, rb)
        }),
    decreases a.len(),
{
    let nl = seq!['\n'];
    lemma_find_first(a, nl);
    match find_first(a, nl) {
        Some(i) => {
            lemma_find_first_append(a, nl, b);
            assert((a + b).take(i) =~= a.take(i));
            assert((a + b).skip(i + 1) =~= a.skip(i + 1) + b);
            law_lines_independent_of_chunks(a.skip(i + 1), b);
            let line = classify_line(trim_seq(a.take(i)));
            let (l1, r1) = drain_lines_v(a.skip(i + 1));
            let (l2, r2) = drain_lines_v(r1 + b);
            assert(drain_lines_v(a) == (seq![line] + l1, r1));
            assert(drain_lines_v(a + b) == (seq![line] + (l1 + l2), r2));
            assert(seq![line] + (l1 + l2) =~= (seq![line] + l1) + l2);
        },
        None => {
            assert(drain_lines_v(a) == (Seq::<SseLineV>::empty(), a));
            assert(Seq::<SseLineV>::empty() + drain_lines_v(a + b).0 =~= drain_lines_v(a + b).0);
        },
    }
}

} // verus!
