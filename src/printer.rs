//! The streaming printer: a small state machine fed one parse event at a time.
use vstd::prelude::*;
use crate::text::{
    blank, digits, escape_str, int_text, quoted, spaces, write_bytes,
    write_signed, write_unsigned,
};

verus! {

/// Columns added per nesting level.
pub const STEP: usize = 2;

/// The deepest nesting the printer accepts.
pub const MAX_DEPTH: usize = 4096;

/// One unit of parse progress, as delivered by an event source.
pub enum Event {
    Null,
    Bool(bool),
    I64(i64),
    U64(u64),
    /// A floating-point number, already in its decimal text form.
    Float(String),
    Str(String),
    ArrayStart,
    ArrayEnd,
    ObjectStart,
    ObjectEnd,
    /// A failure reported by the event source, with its detail.
    Error(String),
}

/// Why printing stopped.
#[derive(Debug, PartialEq, Eq)]
pub enum PrettyError {
    /// An `ArrayEnd` or `ObjectEnd` where a value was expected.
    UnexpectedClose,
    EofWhileParsingValue,
    EofWhileParsingArray,
    EofWhileParsingObject,
    /// An event after the top-level value was complete.
    TrailingContent,
    /// Nesting beyond `MAX_DEPTH`.
    TooDeep,
    /// The event source's own failure, passed on unchanged.
    Source(String),
}

/// The kind of an open composite.
#[derive(Debug, Clone, Copy, PartialEq, Eq, Structural)]
pub enum Frame {
    Array,
    Object,
}

/// The printer's state as a mathematical value.
pub struct PrinterState {
    /// Open composites, outermost first.
    pub stack: Seq<Frame>,
    /// The innermost composite was just opened and nothing of it is written yet.
    pub fresh: bool,
    /// The top-level value is complete.
    pub done: bool,
}

/// The state before any event.
pub open spec fn initial() -> PrinterState {
    PrinterState { stack: Seq::empty(), fresh: false, done: false }
}

pub open spec fn valid_state(s: PrinterState) -> bool {
    &&& s.stack.len() <= MAX_DEPTH
    &&& s.fresh ==> s.stack.len() > 0
    &&& s.done ==> s.stack.len() == 0 && !s.fresh
}

/// The bytes of a string's UTF-8 encoding.
pub open spec fn utf8(s: String) -> Seq<u8> {
    vstd::utf8::encode_utf8(s@)
}

/// The failure, if any, of taking `ev` as a value at nesting `depth`.
pub open spec fn value_error(ev: Event, depth: nat) -> Option<PrettyError> {
    match ev {
        Event::ArrayEnd => Some(PrettyError::UnexpectedClose),
        Event::ObjectEnd => Some(PrettyError::UnexpectedClose),
        Event::Error(e) => Some(PrettyError::Source(e)),
        Event::ArrayStart => if depth >= MAX_DEPTH { Some(PrettyError::TooDeep) } else { None },
        Event::ObjectStart => if depth >= MAX_DEPTH { Some(PrettyError::TooDeep) } else { None },
        _ => None,
    }
}

/// The literal text of a scalar event.
pub open spec fn scalar_text(ev: Event) -> Seq<u8> {
    match ev {
        Event::Null => seq![110u8, 117u8, 108u8, 108u8],
        Event::Bool(b) => if b {
            seq![116u8, 114u8, 117u8, 101u8]
        } else {
            seq![102u8, 97u8, 108u8, 115u8, 101u8]
        },
        Event::I64(n) => int_text(n as int),
        Event::U64(n) => digits(n as nat),
        Event::Float(t) => utf8(t),
        Event::Str(t) => quoted(utf8(t)),
        _ => Seq::empty(),
    }
}

/// The state once a value is complete at the current position.
pub open spec fn complete(s: PrinterState) -> PrinterState {
    PrinterState { done: s.stack.len() == 0, ..s }
}

/// Taking `ev` as a value (no failure, nothing fresh): a composite is opened,
/// a scalar is written.
pub open spec fn enter(s: PrinterState, ev: Event) -> (PrinterState, Seq<u8>) {
    match ev {
        Event::ArrayStart => (PrinterState { stack: s.stack.push(Frame::Array), fresh: true, done: false }, Seq::empty()),
        Event::ObjectStart => (PrinterState { stack: s.stack.push(Frame::Object), fresh: true, done: false }, Seq::empty()),
        _ => (complete(s), scalar_text(ev)),
    }
}

/// The state once the innermost composite is closed.
pub open spec fn leave(s: PrinterState) -> PrinterState {
    complete(PrinterState { stack: s.stack.drop_last(), fresh: false, done: false })
}

/// What closes the innermost composite, at nesting `depth` (at least one):
/// inline when empty, else on its own line at the enclosing indentation.
pub open spec fn closing(fresh: bool, depth: nat, open: u8, close: u8) -> Seq<u8> {
    if fresh {
        seq![open, close]
    } else {
        seq![10u8] + blank((STEP * (depth - 1)) as nat) + seq![close]
    }
}

/// What comes before an element or member at nesting `depth`: the opening
/// delimiter or a comma, then a new line indented for that depth.
pub open spec fn leading(fresh: bool, depth: nat, open: u8) -> Seq<u8> {
    (if fresh { seq![open] } else { seq![44u8] }) + seq![10u8] + blank((STEP * depth) as nat)
}

/// Whether an event taken in state `s` is the value of an object member, so
/// that the event source must report the member's key with it.
pub open spec fn needs_key(s: PrinterState, ev: Event) -> bool {
    &&& !s.done
    &&& s.stack.len() > 0
    &&& s.stack.last() == Frame::Object
    &&& !(ev is ObjectEnd)
    &&& !(ev is Error)
}

/// One event, with the key the event source reports for it, taken in state `s`:
/// the next state and the bytes written, or the failure. The key is read only
/// where `needs_key` holds, and callers then report one.
pub open spec fn step(s: PrinterState, ev: Event, key: Option<String>) -> Result<(PrinterState, Seq<u8>), PrettyError> {
    let d = s.stack.len();
    if s.done {
        match ev {
            Event::Error(e) => Err(PrettyError::Source(e)),
            _ => Err(PrettyError::TrailingContent),
        }
    } else if d == 0 {
        match value_error(ev, d) {
            Some(e) => Err(e),
            None => Ok(enter(s, ev)),
        }
    } else if s.stack.last() == Frame::Array {
        if ev is ArrayEnd {
            Ok((leave(s), closing(s.fresh, d, 91u8, 93u8)))
        } else {
            match value_error(ev, d) {
                Some(e) => Err(e),
                None => {
                    let (t, o) = enter(PrinterState { fresh: false, ..s }, ev);
                    Ok((t, leading(s.fresh, d, 91u8) + o))
                },
            }
        }
    } else {
        if ev is ObjectEnd {
            Ok((leave(s), closing(s.fresh, d, 123u8, 125u8)))
        } else {
            match value_error(ev, d) {
                Some(e) => Err(e),
                None => {
                    let (t, o) = enter(PrinterState { fresh: false, ..s }, ev);
                    Ok((t, leading(s.fresh, d, 123u8) + quoted(utf8(key->Some_0)) + seq![58u8, 32u8] + o))
                },
            }
        }
    }
}

/// The failure, if any, of the stream ending in state `s`.
pub open spec fn end_error(s: PrinterState) -> Option<PrettyError> {
    if s.done {
        None
    } else if s.stack.len() == 0 {
        Some(PrettyError::EofWhileParsingValue)
    } else if s.stack.last() == Frame::Array {
        Some(PrettyError::EofWhileParsingArray)
    } else {
        Some(PrettyError::EofWhileParsingObject)
    }
}

/// The events of `evs`, in order, from state `s`: the final state and all bytes
/// written, or the first failure.
pub open spec fn run(s: PrinterState, evs: Seq<(Event, Option<String>)>) -> Result<(PrinterState, Seq<u8>), PrettyError>
    decreases evs.len(),
{
    if evs.len() == 0 {
        Ok((s, Seq::empty()))
    } else {
        match run(s, evs.drop_last()) {
            Err(e) => Err(e),
            Ok((t, o)) => match step(t, evs.last().0, evs.last().1) {
                Err(e) => Err(e),
                Ok((u, p)) => Ok((u, o + p)),
            },
        }
    }
}

/// The whole text for a complete stream of events, or its failure.
pub open spec fn pretty(evs: Seq<(Event, Option<String>)>) -> Result<Seq<u8>, PrettyError> {
    match run(initial(), evs) {
        Err(e) => Err(e),
        Ok((t, o)) => match end_error(t) {
            Some(e) => Err(e),
            None => Ok(o),
        },
    }
}

/// The printer: the stack of open composites and where it stands in them.
pub struct Prettifier {
    stack: Vec<Frame>,
    fresh: bool,
    done: bool,
}

impl View for Prettifier {
    type V = PrinterState;

    closed spec fn view(&self) -> PrinterState {
        PrinterState { stack: self.stack@, fresh: self.fresh, done: self.done }
    }
}

/// The failure, if any, of taking `ev` as a value at nesting `depth`.
fn check_value(ev: &Event, depth: usize) -> (r: Option<PrettyError>)
    ensures
        r == value_error(*ev, depth as nat),
{
    match ev {
        Event::ArrayEnd => Some(PrettyError::UnexpectedClose),
        Event::ObjectEnd => Some(PrettyError::UnexpectedClose),
        Event::Error(e) => Some(PrettyError::Source(e.clone())),
        Event::ArrayStart => if depth >= MAX_DEPTH { Some(PrettyError::TooDeep) } else { None },
        Event::ObjectStart => if depth >= MAX_DEPTH { Some(PrettyError::TooDeep) } else { None },
        _ => None,
    }
}

impl Prettifier {
    /// A printer before any event.
    pub fn new() -> (r: Prettifier)
        ensures
            r@ == initial(),
            r.wf(),
    {
        Prettifier { stack: Vec::new(), fresh: false, done: false }
    }

    pub open spec fn wf(&self) -> bool {
        valid_state(self@)
    }

    /// Whether the top-level value is complete.
    pub fn is_done(&self) -> (r: bool)
        ensures
            r == self@.done,
    {
        self.done
    }

    /// Marks the value at the current position complete.
    fn complete(&mut self)
        requires
            old(self).wf(),
            !old(self)@.fresh,
            !old(self)@.done,
        ensures
            final(self)@ == complete(old(self)@),
            final(self).wf(),
    {
        if self.stack.len() == 0 {
            self.done = true;
        }
    }

    /// Takes `ev` as a value at the current position, writing a scalar or
    /// opening a composite.
    fn build_value(&mut self, ev: &Event, out: &mut Vec<u8>)
        requires
            old(self).wf(),
            !old(self)@.fresh,
            !old(self)@.done,
            value_error(*ev, old(self)@.stack.len()) is None,
        ensures
            final(self).wf(),
            final(self)@ == enter(old(self)@, *ev).0,
            final(out)@ == old(out)@ + enter(old(self)@, *ev).1,
    {
        match ev {
            Event::ArrayStart => {
                self.stack.push(Frame::Array);
                self.fresh = true;
                return;
            },
            Event::ObjectStart => {
                self.stack.push(Frame::Object);
                self.fresh = true;
                return;
            },
            Event::Null => {
                out.push(110u8);
                out.push(117u8);
                out.push(108u8);
                out.push(108u8);
            },
            Event::Bool(b) => {
                if *b {
                    out.push(116u8);
                    out.push(114u8);
                    out.push(117u8);
                    out.push(101u8);
                } else {
                    out.push(102u8);
                    out.push(97u8);
                    out.push(108u8);
                    out.push(115u8);
                    out.push(101u8);
                }
            },
            Event::I64(n) => write_signed(out, *n),
            Event::U64(n) => write_unsigned(out, *n),
            Event::Float(t) => write_bytes(out, t.as_str().as_bytes()),
            Event::Str(t) => escape_str(out, t.as_str()),
            _ => {},
        }
        assert(out@ =~= old(out)@ + scalar_text(*ev));
        self.complete();
    }

    /// Closes the innermost composite, which `open` / `close` delimit.
    fn close(&mut self, open: u8, close: u8, out: &mut Vec<u8>)
        requires
            old(self).wf(),
            old(self)@.stack.len() > 0,
            !old(self)@.done,
        ensures
            final(self).wf(),
            final(self)@ == leave(old(self)@),
            final(out)@ == old(out)@ + closing(old(self)@.fresh, old(self)@.stack.len(), open, close),
    {
        let d = self.stack.len();
        if self.fresh {
            out.push(open);
            out.push(close);
        } else {
            out.push(10u8);
            spaces(out, STEP * (d - 1));
            out.push(close);
        }
        assert(out@ =~= old(out)@ + closing(old(self)@.fresh, d as nat, open, close));
        self.stack.pop();
        self.fresh = false;
        if self.stack.len() == 0 {
            self.done = true;
        }
        assert(self@ =~= leave(old(self)@));
    }

    /// Starts a new element or member line inside the innermost composite.
    fn lead(&mut self, open: u8, out: &mut Vec<u8>)
        requires
            old(self).wf(),
            old(self)@.stack.len() > 0,
            !old(self)@.done,
        ensures
            final(self).wf(),
            final(self)@ == (PrinterState { fresh: false, ..old(self)@ }),
            final(out)@ == old(out)@ + leading(old(self)@.fresh, old(self)@.stack.len(), open),
    {
        if self.fresh {
            out.push(open);
        } else {
            out.push(44u8);
        }
        out.push(10u8);
        spaces(out, STEP * self.stack.len());
        assert(out@ =~= old(out)@ + leading(old(self)@.fresh, old(self)@.stack.len(), open));
        self.fresh = false;
    }

    /// Takes `ev` inside an array: its end, or its next element.
    fn build_array(&mut self, ev: &Event, out: &mut Vec<u8>) -> (r: Result<(), PrettyError>)
        requires
            old(self).wf(),
            old(self)@.stack.len() > 0,
            old(self)@.stack.last() == Frame::Array,
            !old(self)@.done,
        ensures
            final(self).wf(),
            outcome(r, old(self)@, final(self)@, old(out)@, final(out)@, step(old(self)@, *ev, None)),
    {
        if let Event::ArrayEnd = ev {
            self.close(91u8, 93u8, out);
            return Ok(());
        }
        match check_value(ev, self.stack.len()) {
            Some(e) => Err(e),
            None => {
                let ghost s0 = old(self)@;
                self.lead(91u8, out);
                self.build_value(ev, out);
                proof {
                    let (t, o) = enter(PrinterState { fresh: false, ..s0 }, *ev);
                    assert(out@ =~= old(out)@ + (leading(s0.fresh, s0.stack.len(), 91u8) + o));
                }
                Ok(())
            },
        }
    }

    /// Takes `ev` inside an object: its end, or the value of its next member,
    /// whose key is `key`.
    fn build_object(&mut self, ev: &Event, key: &Option<String>, out: &mut Vec<u8>) -> (r: Result<(), PrettyError>)
        requires
            old(self).wf(),
            old(self)@.stack.len() > 0,
            old(self)@.stack.last() == Frame::Object,
            !old(self)@.done,
            needs_key(old(self)@, *ev) ==> key is Some,
        ensures
            final(self).wf(),
            outcome(r, old(self)@, final(self)@, old(out)@, final(out)@, step(old(self)@, *ev, *key)),
    {
        if let Event::ObjectEnd = ev {
            self.close(123u8, 125u8, out);
            return Ok(());
        }
        if let Some(e) = check_value(ev, self.stack.len()) {
            return Err(e);
        }
        match key {
            None => vstd::pervasive::unreached(),
            Some(k) => {
                let ghost s0 = old(self)@;
                self.lead(123u8, out);
                escape_str(out, k.as_str());
                out.push(58u8);
                out.push(32u8);
                self.build_value(ev, out);
                proof {
                    let (t, o) = enter(PrinterState { fresh: false, ..s0 }, *ev);
                    assert(out@ =~= old(out)@ + (leading(s0.fresh, s0.stack.len(), 123u8) + quoted(utf8(*k)) + seq![58u8, 32u8] + o));
                }
                Ok(())
            },
        }
    }

    /// Takes the next event `ev`, with the key that the event source reports
    /// for it (`None` where it reports none), and appends what it settles to
    /// `out`. On failure neither the printer nor `out` changes. The value of an
    /// object member must come with its key (see `expects_key`).
    pub fn push(&mut self, ev: &Event, key: &Option<String>, out: &mut Vec<u8>) -> (r: Result<(), PrettyError>)
        requires
            old(self).wf(),
            needs_key(old(self)@, *ev) ==> key is Some,
        ensures
            final(self).wf(),
            outcome(r, old(self)@, final(self)@, old(out)@, final(out)@, step(old(self)@, *ev, *key)),
    {
        if self.done {
            return match ev {
                Event::Error(e) => Err(PrettyError::Source(e.clone())),
                _ => Err(PrettyError::TrailingContent),
            };
        }
        let d = self.stack.len();
        if d == 0 {
            return match check_value(ev, 0) {
                Some(e) => Err(e),
                None => {
                    self.build_value(ev, out);
                    Ok(())
                },
            };
        }
        match self.stack[d - 1] {
            Frame::Array => self.build_array(ev, out),
            Frame::Object => self.build_object(ev, key, out),
        }
    }

    /// Whether `ev`, taken next, is the value of an object member and so must
    /// come with its key.
    pub fn expects_key(&self, ev: &Event) -> (r: bool)
        requires
            self.wf(),
        ensures
            r == needs_key(self@, *ev),
    {
        if self.done || self.stack.len() == 0 {
            return false;
        }
        match self.stack[self.stack.len() - 1] {
            Frame::Array => false,
            Frame::Object => match ev {
                Event::ObjectEnd => false,
                Event::Error(_) => false,
                _ => true,
            },
        }
    }

    /// The end of the stream: `Ok` exactly when the top-level value is complete.
    pub fn finish(&self) -> (r: Result<(), PrettyError>)
        ensures
            r == match end_error(self@) {
                Some(e) => Err(e),
                None => Ok(()),
            },
    {
        if self.done {
            Ok(())
        } else if self.stack.len() == 0 {
            Err(PrettyError::EofWhileParsingValue)
        } else {
            match self.stack[self.stack.len() - 1] {
                Frame::Array => Err(PrettyError::EofWhileParsingArray),
                Frame::Object => Err(PrettyError::EofWhileParsingObject),
            }
        }
    }

    /// Prints one document: starts afresh, takes all of `events` in order,
    /// then the end of the stream, appending to `out` the text of every event
    /// before the first failure.
    pub fn stream(&mut self, events: &Vec<(Event, Option<String>)>, out: &mut Vec<u8>) -> (r: Result<(), PrettyError>)
        requires
            keys_reported(events@),
        ensures
            final(self).wf(),
            final(out)@ == old(out)@ + written(events@),
            match run(initial(), events@) {
                Err(e) => r == Err::<(), PrettyError>(e),
                Ok((t, o)) => final(self)@ == t && match end_error(t) {
                    Some(e) => r == Err::<(), PrettyError>(e),
                    None => r is Ok,
                },
            },
    {
        self.stack = Vec::new();
        self.fresh = false;
        self.done = false;
        let ghost s0 = self@;
        let ghost out0 = out@;
        let mut i: usize = 0;
        assert(events@.subrange(0, 0) =~= Seq::<(Event, Option<String>)>::empty());
        assert(s0 =~= initial());
        while i < events.len()
            invariant
                self.wf(),
                i <= events@.len(),
                s0 == initial(),
                out0 == old(out)@,
                keys_reported(events@),
                run(s0, events@.subrange(0, i as int)) matches Ok((t, o)) && self@ == t && out@ == out0 + o
                    && written(events@.subrange(0, i as int)) == o,
            decreases events@.len() - i,
        {
            let ghost before = out@;
            let item = &events[i];
            proof {
                assert(key_reported(run(initial(), events@.subrange(0, i as int)), events@[i as int]));
            }
            let res = self.push(&item.0, &item.1, out);
            proof {
                let pre = events@.subrange(0, i as int + 1);
                assert(pre.drop_last() =~= events@.subrange(0, i as int));
                assert(pre.last() == events@[i as int]);
            }
            if let Err(e) = res {
                proof {
                    lemma_run_fails_later(s0, events@, i as int + 1);
                    lemma_written_after_failure(events@, i as int + 1);
                }
                return Err(e);
            }
            i = i + 1;
            proof {
                let o = run(s0, events@.subrange(0, i as int - 1))->Ok_0.1;
                let p = out@.subrange(before.len() as int, out@.len() as int);
                assert(out@ =~= out0 + (o + p));
            }
        }
        assert(events@.subrange(0, i as int) =~= events@);
        self.finish()
    }
}

/// Whether the event source reported a key with event `x`, where the state
/// `r` it was taken in needs one.
pub open spec fn key_reported(r: Result<(PrinterState, Seq<u8>), PrettyError>, x: (Event, Option<String>)) -> bool {
    r matches Ok((t, _)) ==> (needs_key(t, x.0) ==> x.1 is Some)
}

/// Every member value in `evs`, printed from the start, comes with its key.
pub open spec fn keys_reported(evs: Seq<(Event, Option<String>)>) -> bool {
    forall|i: int| 0 <= i < evs.len() ==> key_reported(run(initial(), #[trigger] evs.subrange(0, i)), evs[i])
}

/// The text written for `evs` from the start, up to the first failure.
pub open spec fn written(evs: Seq<(Event, Option<String>)>) -> Seq<u8>
    decreases evs.len(),
{
    if evs.len() == 0 {
        Seq::empty()
    } else {
        match run(initial(), evs.drop_last()) {
            Err(_) => written(evs.drop_last()),
            Ok((t, o)) => match step(t, evs.last().0, evs.last().1) {
                Ok((_, p)) => o + p,
                Err(_) => o,
            },
        }
    }
}

/// Once a prefix of the events fails, nothing after it is written.
proof fn lemma_written_after_failure(evs: Seq<(Event, Option<String>)>, n: int)
    requires
        0 <= n <= evs.len(),
        run(initial(), evs.subrange(0, n)) is Err,
    ensures
        written(evs) == written(evs.subrange(0, n)),
    decreases evs.len(),
{
    if n == evs.len() {
        assert(evs.subrange(0, n) =~= evs);
    } else {
        let pre = evs.drop_last();
        assert(pre.subrange(0, n) =~= evs.subrange(0, n));
        lemma_run_fails_later(initial(), pre, n);
        lemma_written_after_failure(pre, n);
    }
}

/// What a step outcome `res` says of a call that returned `r`, moving the
/// printer from `s0` to `s1` and the output from `o0` to `o1`.
pub open spec fn outcome(
    r: Result<(), PrettyError>,
    s0: PrinterState,
    s1: PrinterState,
    o0: Seq<u8>,
    o1: Seq<u8>,
    res: Result<(PrinterState, Seq<u8>), PrettyError>,
) -> bool {
    match res {
        Ok((s, o)) => r is Ok && s1 == s && o1 == o0 + o,
        Err(e) => r == Err::<(), PrettyError>(e) && s1 == s0 && o1 == o0,
    }
}

/// Once a prefix of the events fails, every longer prefix fails the same way.
proof fn lemma_run_fails_later(s: PrinterState, evs: Seq<(Event, Option<String>)>, n: int)
    requires
        0 <= n <= evs.len(),
        run(s, evs.subrange(0, n)) is Err,
    ensures
        run(s, evs) == run(s, evs.subrange(0, n)),
    decreases evs.len() - n,
{
    if n < evs.len() {
        let pre = evs.subrange(0, n + 1);
        assert(pre.drop_last() =~= evs.subrange(0, n));
        lemma_run_fails_later(s, evs, n + 1);
    } else {
        assert(evs.subrange(0, n) =~= evs);
    }
}

/// The text of a whole stream of events, each with the key its source
/// reported, or the first failure.
pub fn prettify(events: &Vec<(Event, Option<String>)>) -> (r: Result<Vec<u8>, PrettyError>)
    requires
        keys_reported(events@),
    ensures
        match pretty(events@) {
            Ok(o) => r matches Ok(v) && v@ == o,
            Err(e) => r == Err::<Vec<u8>, PrettyError>(e),
        },
{
    let mut out: Vec<u8> = Vec::new();
    let mut p = Prettifier::new();
    match p.stream(events, &mut out) {
        Ok(()) => {
            assert(out@ =~= Seq::empty() + out@);
            Ok(out)
        },
        Err(e) => Err(e),
    }
}

} // verus!
