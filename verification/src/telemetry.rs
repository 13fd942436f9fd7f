//! Telemetry: the trace events the engine's host emits, the layer state
//! that assembles and forwards them over a channel, and the verified parsing
//! of execution-id annotations.

use vstd::prelude::*;
use crate::text::{
    str_to_chars, trim_chars, find_char, parse_usize_chars, char_slice, trim_spec,
    parse_usize_spec, first_index_of, lemma_first_index_of,
};

verus! {

#[verifier::external_type_specification]
#[verifier::external_body]
#[verifier::reject_recursive_types(T)]
pub struct ExSender<T>(std::sync::mpsc::Sender<T>);

#[verifier::external_type_specification]
#[verifier::external_body]
pub struct ExInstant(std::time::Instant);

/// One telemetry event, as sent from the engine's host to an observer.
#[derive(Debug, Clone, PartialEq, Eq, Hash)]
pub enum TraceEvents {
    NewSpan {
        id: String,
        weight: u128,
        name: String,
        target: String,
        location: String,
        line: String,
        execution_id: Option<(usize, usize)>,
    },
    Record,
    Event,
    Enter(String),
    Exit(String),
    Close(String, u128),
}

/// Relies on `Instant::now`: an instant of the monotonic clock.
#[verifier::external_body]
pub fn instant_now() -> (r: std::time::Instant) {
    std::time::Instant::now()
}

/// Relies on `Instant::saturating_duration_since`: the time elapsed from
/// `earlier` to `now`, or zero if `earlier` is the later of the two.
#[verifier::external_body]
pub fn saturating_since(now: &std::time::Instant, earlier: &std::time::Instant) -> (r:
    core::time::Duration) {
    now.saturating_duration_since(*earlier)
}

/// Relies on `Duration::as_micros`: the whole number of microseconds the
/// duration spans.
#[verifier::external_body]
pub fn duration_as_micros(d: &core::time::Duration) -> (r: u128) {
    d.as_micros()
}

/// Relies on `Sender::send`: hands the event to the channel; true when a
/// receiver was still connected to take it.
#[verifier::external_body]
pub fn send_trace_event(sender: &std::sync::mpsc::Sender<TraceEvents>, event: TraceEvents) -> (r:
    bool) {
    match sender.send(event) {
        Ok(()) => true,
        Err(_) => false,
    }
}

/// Whether `c` is a parenthesis, as the execution-id annotation wraps its
/// pair in them.
pub open spec fn is_paren_char(c: char) -> bool {
    c == '(' || c == ')'
}

/// The characters with leading parentheses dropped.
pub open spec fn trim_parens_start_spec(s: Seq<char>) -> Seq<char>
    decreases s.len(),
{
    if s.len() > 0 && is_paren_char(s[0]) {
        trim_parens_start_spec(s.drop_first())
    } else {
        s
    }
}

/// The characters with trailing parentheses dropped.
pub open spec fn trim_parens_end_spec(s: Seq<char>) -> Seq<char>
    decreases s.len(),
{
    if s.len() > 0 && is_paren_char(s.last()) {
        trim_parens_end_spec(s.drop_last())
    } else {
        s
    }
}

/// The characters with parentheses dropped at both ends, as
/// `str::trim_matches` leaves them.
pub open spec fn trim_parens_spec(s: Seq<char>) -> Seq<char> {
    trim_parens_end_spec(trim_parens_start_spec(s))
}

/// The characters of `v` with parentheses dropped at both ends.
#[verifier::loop_isolation(false)]
pub fn trim_parens(v: &Vec<char>) -> (r: Vec<char>)
    ensures
        r@ == trim_parens_spec(v@),
{
    let mut start: usize = 0;
    proof {
        assert(v@.skip(0) =~= v@);
    }
    while start < v.len() && (v[start] == '(' || v[start] == ')')
        invariant
            0 <= start <= v@.len(),
            trim_parens_start_spec(v@) == trim_parens_start_spec(v@.skip(start as int)),
        decreases v@.len() - start,
    {
        proof {
            assert(v@.skip(start as int).drop_first() =~= v@.skip(start as int + 1));
            assert(v@.skip(start as int)[0] == v@[start as int]);
        }
        start = start + 1;
    }
    proof {
        if start < v@.len() {
            assert(v@.skip(start as int)[0] == v@[start as int]);
        }
        assert(trim_parens_start_spec(v@) == v@.skip(start as int)) by {
            if v@.skip(start as int).len() == 0 {
                assert(v@.skip(start as int) =~= Seq::<char>::empty());
            }
        }
    }
    let mut end: usize = v.len();
    while end > start && (v[end - 1] == '(' || v[end - 1] == ')')
        invariant
            start <= end <= v@.len(),
            trim_parens_end_spec(v@.skip(start as int)) == trim_parens_end_spec(
                v@.subrange(start as int, end as int),
            ),
        decreases end,
    {
        proof {
            assert(v@.subrange(start as int, end as int).drop_last() =~= v@.subrange(
                start as int,
                end as int - 1,
            ));
            assert(v@.subrange(start as int, end as int).last() == v@[end as int - 1]);
        }
        end = end - 1;
    }
    proof {
        let sub = v@.subrange(start as int, end as int);
        if end > start {
            assert(sub.last() == v@[end as int - 1]);
        }
        assert(trim_parens_end_spec(v@.skip(start as int)) == sub);
    }
    char_slice(v, start, end)
}

/// What parsing an execution-id annotation yields: parentheses trimmed from
/// both ends, the text split at its first comma, the second piece running to
/// the next comma or the end, both pieces trimmed of white space and read as
/// decimal numbers. Any missing or malformed piece yields nothing.
pub open spec fn parse_execution_id_spec(s: Seq<char>) -> Option<(usize, usize)> {
    let t = trim_parens_spec(s);
    match first_index_of(t, ',') {
        None => None,
        Some(c1) => {
            let first = t.take(c1);
            let rest = t.skip(c1 + 1);
            let second = match first_index_of(rest, ',') {
                Some(c2) => rest.take(c2),
                None => rest,
            };
            match (parse_usize_spec(trim_spec(first)), parse_usize_spec(trim_spec(second))) {
                (Some(a), Some(b)) => Some((a, b)),
                _ => None,
            }
        },
    }
}

/// Parse an execution-id annotation such as `(3, 4)` into its two numbers.
pub fn parse_execution_id(s: &str) -> (r: Option<(usize, usize)>)
    ensures
        r == parse_execution_id_spec(s@),
{
    let chars = str_to_chars(s);
    let t = trim_parens(&chars);
    proof {
        lemma_first_index_of(t@, ',');
    }
    let c1 = match find_char(&t, 0, ',') {
        Some(i) => i,
        None => {
            return None;
        },
    };
    proof {
        assert(first_index_of(t@, ',') == Some(c1 as int));
    }
    let tlen = t.len();
    proof {
        assert(c1 < tlen);
    }
    let first = char_slice(&t, 0, c1);
    let rest = char_slice(&t, c1 + 1, tlen);
    proof {
        assert(first@ =~= t@.take(c1 as int));
        assert(rest@ =~= t@.skip(c1 as int + 1));
        lemma_first_index_of(rest@, ',');
    }
    let second = match find_char(&rest, 0, ',') {
        Some(c2) => {
            proof {
                assert(first_index_of(rest@, ',') == Some(c2 as int));
            }
            let w = char_slice(&rest, 0, c2);
            proof {
                assert(w@ =~= rest@.take(c2 as int));
            }
            w
        },
        None => {
            proof {
                assert(first_index_of(rest@, ',') is None);
            }
            char_slice(&rest, 0, rest.len())
        },
    };
    proof {
        assert(rest@.subrange(0, rest@.len() as int) =~= rest@);
    }
    let a = match parse_usize_chars(&trim_chars(&first)) {
        Some(a) => a,
        None => {
            return None;
        },
    };
    let b = match parse_usize_chars(&trim_chars(&second)) {
        Some(b) => b,
        None => {
            return None;
        },
    };
    Some((a, b))
}

/// Collects trace events and forwards each over a channel, stamping events
/// that carry a weight with the time elapsed since the layer was created.
pub struct CustomLayer {
    pub sender: std::sync::mpsc::Sender<TraceEvents>,
    pub started_at: std::time::Instant,
}

/// The event describing a newly created span, assembled from its rendered
/// pieces; the optional `prev_execution_id` annotation is parsed into a pair
/// of numbers, and yields nothing when absent or malformed.
pub fn make_new_span_event(
    id: String,
    weight: u128,
    name: String,
    target: String,
    location: String,
    line: String,
    prev_execution_id: Option<&str>,
) -> (r: TraceEvents)
    ensures
        (r matches TraceEvents::NewSpan {
            id: rid,
            weight: rweight,
            name: rname,
            target: rtarget,
            location: rlocation,
            line: rline,
            execution_id: rexec,
        } && rid == id && rweight == weight && rname == name && rtarget == target && rlocation
            == location && rline == line && rexec == (match prev_execution_id {
            Some(s) => parse_execution_id_spec(s@),
            None => None,
        })),
{
    let execution_id = match prev_execution_id {
        Some(s) => parse_execution_id(s),
        None => None,
    };
    TraceEvents::NewSpan { id, weight, name, target, location, line, execution_id }
}

impl CustomLayer {
    /// A layer forwarding its events to `sender`, with its clock started at
    /// the moment of creation.
    pub fn new(sender: std::sync::mpsc::Sender<TraceEvents>) -> (r: CustomLayer)
        ensures
            r.sender == sender,
    {
        CustomLayer { sender, started_at: instant_now() }
    }

    /// Microseconds elapsed since this layer was created.
    fn elapsed_micros(&self) -> u128 {
        let now = instant_now();
        let d = saturating_since(&now, &self.started_at);
        duration_as_micros(&d)
    }

    /// Record a newly created span: assemble its event, stamped with the
    /// elapsed time, and send it; true while a receiver listens.
    pub fn record_new_span(
        &self,
        id: String,
        name: String,
        target: String,
        location: String,
        line: String,
        prev_execution_id: Option<&str>,
    ) -> bool {
        let weight = self.elapsed_micros();
        let event = make_new_span_event(id, weight, name, target, location, line,
            prev_execution_id);
        send_trace_event(&self.sender, event)
    }

    /// Record that a span recorded values; true while a receiver listens.
    pub fn record_record(&self) -> bool {
        send_trace_event(&self.sender, TraceEvents::Record)
    }

    /// Record a free-standing event; true while a receiver listens.
    pub fn record_event(&self) -> bool {
        send_trace_event(&self.sender, TraceEvents::Event)
    }

    /// Record that the span with the rendered id was entered.
    pub fn record_enter(&self, id: String) -> bool {
        send_trace_event(&self.sender, TraceEvents::Enter(id))
    }

    /// Record that the span with the rendered id was exited.
    pub fn record_exit(&self, id: String) -> bool {
        send_trace_event(&self.sender, TraceEvents::Exit(id))
    }

    /// Record that the span with the rendered id closed, stamped with the
    /// elapsed time.
    pub fn record_close(&self, id: String) -> bool {
        let weight = self.elapsed_micros();
        send_trace_event(&self.sender, TraceEvents::Close(id, weight))
    }
}

/// Wraps another layer-like value and hands every notification on to it
/// unchanged.
pub struct ForwardingLayer<S> {
    pub inner: S,
}

impl<S> ForwardingLayer<S> {
    /// A layer forwarding to `inner`.
    pub fn new(inner: S) -> (r: ForwardingLayer<S>)
        ensures
            r.inner == inner,
    {
        ForwardingLayer { inner }
    }

    /// The wrapped value, to forward a notification to.
    pub fn inner_ref(&self) -> (r: &S)
        ensures
            *r == self.inner,
    {
        &self.inner
    }
}

} // verus!
