//! Properties of the printer as a whole, stated over `step` and `pretty`.
use vstd::prelude::*;
use crate::text::{blank, quoted};
use crate::printer::{
    Event, Frame, MAX_DEPTH, PrettyError, PrinterState, STEP, closing, complete,
    initial, leave, leading, pretty, run, scalar_text, step, utf8, valid_state,
};

verus! {

/// A leaf value: one event that is a whole value by itself.
pub open spec fn is_scalar(ev: Event) -> bool {
    match ev {
        Event::Null | Event::Bool(_) | Event::I64(_) | Event::U64(_) | Event::Float(_) | Event::Str(_) => true,
        _ => false,
    }
}

/// The delimiters of a composite kind.
pub open spec fn delimiters(f: Frame) -> (u8, u8) {
    match f {
        Frame::Array => (91u8, 93u8),
        Frame::Object => (123u8, 125u8),
    }
}

/// The end event of a composite kind.
pub open spec fn end_event(f: Frame) -> Event {
    match f {
        Frame::Array => Event::ArrayEnd,
        Frame::Object => Event::ObjectEnd,
    }
}

/// A composite closed right after it opened is written inline as its two
/// delimiters, with no new line and no indentation.
pub proof fn empty_composite_is_inline(s: PrinterState, key: Option<String>)
    requires
        valid_state(s),
        s.fresh,
    ensures
        step(s, end_event(s.stack.last()), key) == Ok::<(PrinterState, Seq<u8>), PrettyError>(
            (leave(s), seq![delimiters(s.stack.last()).0, delimiters(s.stack.last()).1]),
        ),
{
}

/// A composite that holds something is closed on a line of its own, indented
/// exactly as the context it was opened in, which is where the printer stands
/// once it is closed.
pub proof fn indentation_is_balanced(s: PrinterState, key: Option<String>)
    requires
        valid_state(s),
        s.stack.len() > 0,
        !s.fresh,
        !s.done,
    ensures
        step(s, end_event(s.stack.last()), key) matches Ok((t, o)) && t.stack == s.stack.drop_last()
            && o == seq![10u8] + blank((STEP * t.stack.len()) as nat) + seq![delimiters(s.stack.last()).1],
{
    let t = leave(s);
    assert(t.stack.len() == s.stack.len() - 1);
    assert(closing(false, s.stack.len(), delimiters(s.stack.last()).0, delimiters(s.stack.last()).1)
        == seq![10u8] + blank((STEP * t.stack.len()) as nat) + seq![delimiters(s.stack.last()).1]);
}

/// Two top-level scalars in a row fail: only one top-level value is allowed.
pub proof fn second_top_level_value_is_rejected(a: Event, ka: Option<String>, b: Event, kb: Option<String>)
    requires
        is_scalar(a),
        is_scalar(b),
    ensures
        pretty(seq![(a, ka), (b, kb)]) == Err::<Seq<u8>, PrettyError>(PrettyError::TrailingContent),
{
    let evs = seq![(a, ka), (b, kb)];
    assert(evs.drop_last() =~= seq![(a, ka)]);
    assert(seq![(a, ka)].drop_last() =~= Seq::<(Event, Option<String>)>::empty());
    reveal_with_fuel(run, 3);
    assert(run(initial(), Seq::<(Event, Option<String>)>::empty()) == Ok::<(PrinterState, Seq<u8>), PrettyError>((initial(), Seq::empty())));
    let r1 = run(initial(), seq![(a, ka)]);
    assert(r1 matches Ok((t, _)) && t.done);
}

/// A stream that opens a composite and ends there fails with the end-of-input
/// error of that composite's kind.
pub proof fn truncated_composite_is_detected(key: Option<String>)
    ensures
        pretty(seq![(Event::ArrayStart, key)]) == Err::<Seq<u8>, PrettyError>(PrettyError::EofWhileParsingArray),
        pretty(seq![(Event::ObjectStart, key)]) == Err::<Seq<u8>, PrettyError>(PrettyError::EofWhileParsingObject),
{
    reveal_with_fuel(run, 2);
    assert(seq![(Event::ArrayStart, key)].drop_last() =~= Seq::<(Event, Option<String>)>::empty());
    assert(seq![(Event::ObjectStart, key)].drop_last() =~= Seq::<(Event, Option<String>)>::empty());
}

/// A whole value: a scalar, or an array of values, or an object of keyed
/// values, members in the order given.
pub enum Tree {
    Leaf(Event),
    List(Seq<Tree>),
    Record(Seq<(String, Tree)>),
}

/// Every leaf of `v` is a scalar event, and `v` nests at most `MAX_DEPTH`
/// levels below depth `d`.
pub open spec fn fits(v: Tree, d: nat) -> bool
    decreases v,
{
    match v {
        Tree::Leaf(e) => is_scalar(e),
        Tree::List(items) => d < MAX_DEPTH && forall|i: int| 0 <= i < items.len() ==> fits(#[trigger] items[i], d + 1),
        Tree::Record(ms) => d < MAX_DEPTH && forall|i: int| 0 <= i < ms.len() ==> fits(#[trigger] ms[i].1, d + 1),
    }
}

/// The events an event source delivers for `v`, reporting key `k` with the
/// first one.
pub open spec fn events_of(v: Tree, k: Option<String>) -> Seq<(Event, Option<String>)>
    decreases v,
{
    match v {
        Tree::Leaf(e) => seq![(e, k)],
        Tree::List(items) => seq![(Event::ArrayStart, k)] + list_events(items) + seq![(Event::ArrayEnd, None::<String>)],
        Tree::Record(ms) => seq![(Event::ObjectStart, k)] + record_events(ms) + seq![(Event::ObjectEnd, None::<String>)],
    }
}

/// The events of the elements of an array, in order.
pub open spec fn list_events(items: Seq<Tree>) -> Seq<(Event, Option<String>)>
    decreases items,
{
    if items.len() == 0 {
        Seq::empty()
    } else {
        list_events(items.drop_last()) + events_of(items.last(), None)
    }
}

/// The events of the members of an object, in order, each value's first
/// event reported with its key.
pub open spec fn record_events(ms: Seq<(String, Tree)>) -> Seq<(Event, Option<String>)>
    decreases ms,
{
    if ms.len() == 0 {
        Seq::empty()
    } else {
        record_events(ms.drop_last()) + events_of(ms.last().1, Some(ms.last().0))
    }
}

/// The indented layout of `v` standing at nesting depth `d`: a non-empty
/// composite has one element or member per line, indented one step deeper,
/// and its closing delimiter on a line indented as `d`.
pub open spec fn layout(v: Tree, d: nat) -> Seq<u8>
    decreases v,
{
    match v {
        Tree::Leaf(e) => scalar_text(e),
        Tree::List(items) => if items.len() == 0 {
            seq![91u8, 93u8]
        } else {
            list_lines(items, d + 1) + seq![10u8] + blank((STEP * d) as nat) + seq![93u8]
        },
        Tree::Record(ms) => if ms.len() == 0 {
            seq![123u8, 125u8]
        } else {
            record_lines(ms, d + 1) + seq![10u8] + blank((STEP * d) as nat) + seq![125u8]
        },
    }
}

/// The opening bracket and the element lines of an array at depth `d`.
pub open spec fn list_lines(items: Seq<Tree>, d: nat) -> Seq<u8>
    decreases items,
{
    if items.len() == 0 {
        Seq::empty()
    } else {
        list_lines(items.drop_last(), d) + leading(items.len() == 1, d, 91u8) + layout(items.last(), d)
    }
}

/// The opening brace and the member lines of an object at depth `d`.
pub open spec fn record_lines(ms: Seq<(String, Tree)>, d: nat) -> Seq<u8>
    decreases ms,
{
    if ms.len() == 0 {
        Seq::empty()
    } else {
        record_lines(ms.drop_last(), d) + leading(ms.len() == 1, d, 123u8) + quoted(utf8(ms.last().0))
            + seq![58u8, 32u8] + layout(ms.last().1, d)
    }
}

/// Running `a` then `b` is running `a + b`.
proof fn lemma_run_concat(s: PrinterState, a: Seq<(Event, Option<String>)>, b: Seq<(Event, Option<String>)>)
    ensures
        run(s, a + b) == match run(s, a) {
            Err(e) => Err(e),
            Ok((t, o)) => match run(t, b) {
                Err(e) => Err(e),
                Ok((u, p)) => Ok((u, o + p)),
            },
        },
    decreases b.len(),
{
    if b.len() == 0 {
        assert(a + b =~= a);
        if let Ok((t, o)) = run(s, a) {
            assert(o + Seq::<u8>::empty() =~= o);
        }
    } else {
        assert((a + b).drop_last() =~= a + b.drop_last());
        assert((a + b).last() == b.last());
        lemma_run_concat(s, a, b.drop_last());
        if let Ok((t, o)) = run(s, a) {
            if let Ok((u, p)) = run(t, b.drop_last()) {
                if let Ok((w, q)) = step(u, b.last().0, b.last().1) {
                    assert(o + p + q =~= o + (p + q));
                }
            }
        }
    }
}

/// One event from `s` is one step.
proof fn lemma_run_single(s: PrinterState, x: (Event, Option<String>))
    ensures
        run(s, seq![x]) == match step(s, x.0, x.1) {
            Err(e) => Err(e),
            Ok((t, o)) => Ok::<(PrinterState, Seq<u8>), PrettyError>((t, o)),
        },
{
    reveal_with_fuel(run, 2);
    assert(seq![x].drop_last() =~= Seq::<(Event, Option<String>)>::empty());
    if let Ok((t, o)) = step(s, x.0, x.1) {
        assert(Seq::<u8>::empty() + o =~= o);
    }
}

/// What is written before a value at the position `s` stands in: nothing at
/// the top level, else the element or member lead, with the member's key.
pub open spec fn position_lead(s: PrinterState, k: Option<String>) -> Seq<u8> {
    let d = s.stack.len();
    if d == 0 {
        Seq::empty()
    } else if s.stack.last() == Frame::Array {
        leading(s.fresh, d, 91u8)
    } else {
        leading(s.fresh, d, 123u8) + quoted(utf8(k->Some_0)) + seq![58u8, 32u8]
    }
}

/// The state once a value is complete at the position `s` stands in.
pub open spec fn after_value(s: PrinterState) -> PrinterState {
    complete(PrinterState { fresh: false, ..s })
}

/// The events of a fitting tree, at a position that expects a value, write
/// the position's lead and the tree's layout.
proof fn lemma_value(s: PrinterState, v: Tree, k: Option<String>)
    requires
        valid_state(s),
        !s.done,
        fits(v, s.stack.len()),
        s.stack.len() > 0 && s.stack.last() == Frame::Object ==> k is Some,
    ensures
        run(s, events_of(v, k)) == Ok::<(PrinterState, Seq<u8>), PrettyError>(
            (after_value(s), position_lead(s, k) + layout(v, s.stack.len())),
        ),
    decreases v, 0nat,
{
    match v {
        Tree::Leaf(e) => {
            lemma_run_single(s, (e, k));
        },
        Tree::List(items) => {
            lemma_list(s, items, k);
        },
        Tree::Record(ms) => {
            lemma_record(s, ms, k);
        },
    }
}

/// `lemma_value` for an array.
proof fn lemma_list(s: PrinterState, items: Seq<Tree>, k: Option<String>)
    requires
        valid_state(s),
        !s.done,
        fits(Tree::List(items), s.stack.len()),
        s.stack.len() > 0 && s.stack.last() == Frame::Object ==> k is Some,
    ensures
        run(s, events_of(Tree::List(items), k)) == Ok::<(PrinterState, Seq<u8>), PrettyError>(
            (after_value(s), position_lead(s, k) + layout(Tree::List(items), s.stack.len())),
        ),
    decreases items, 2nat,
{
    let v = Tree::List(items);
    let d = s.stack.len();
    let lead = position_lead(s, k);
    let open = seq![(Event::ArrayStart, k)];
    let body = list_events(items);
    let close = seq![(Event::ArrayEnd, None::<String>)];
    let s1 = PrinterState { stack: s.stack.push(Frame::Array), fresh: true, done: false };
    lemma_run_single(s, (Event::ArrayStart, k));
    assert(run(s, open) == Ok::<(PrinterState, Seq<u8>), PrettyError>((s1, lead)));
    lemma_items(s1, items);
    let s2 = PrinterState { fresh: items.len() == 0, ..s1 };
    lemma_run_concat(s, open, body);
    lemma_run_single(s2, (Event::ArrayEnd, None));
    assert(s2.stack.drop_last() =~= s.stack);
    assert(leave(s2) == after_value(s));
    lemma_run_concat(s, open + body, close);
    assert(events_of(v, k) == open + body + close);
    let text = lead + list_lines(items, d + 1) + closing(items.len() == 0, d + 1, 91u8, 93u8);
    if items.len() == 0 {
        assert(list_lines(items, d + 1) =~= Seq::<u8>::empty());
    }
    assert(text =~= lead + layout(v, d));
}

/// `lemma_value` for an object.
proof fn lemma_record(s: PrinterState, ms: Seq<(String, Tree)>, k: Option<String>)
    requires
        valid_state(s),
        !s.done,
        fits(Tree::Record(ms), s.stack.len()),
        s.stack.len() > 0 && s.stack.last() == Frame::Object ==> k is Some,
    ensures
        run(s, events_of(Tree::Record(ms), k)) == Ok::<(PrinterState, Seq<u8>), PrettyError>(
            (after_value(s), position_lead(s, k) + layout(Tree::Record(ms), s.stack.len())),
        ),
    decreases ms, 2nat,
{
    let v = Tree::Record(ms);
    let d = s.stack.len();
    let lead = position_lead(s, k);
    let open = seq![(Event::ObjectStart, k)];
    let body = record_events(ms);
    let close = seq![(Event::ObjectEnd, None::<String>)];
    let s1 = PrinterState { stack: s.stack.push(Frame::Object), fresh: true, done: false };
    lemma_run_single(s, (Event::ObjectStart, k));
    assert(run(s, open) == Ok::<(PrinterState, Seq<u8>), PrettyError>((s1, lead)));
    lemma_members(s1, ms);
    let s2 = PrinterState { fresh: ms.len() == 0, ..s1 };
    lemma_run_concat(s, open, body);
    lemma_run_single(s2, (Event::ObjectEnd, None));
    assert(s2.stack.drop_last() =~= s.stack);
    assert(leave(s2) == after_value(s));
    lemma_run_concat(s, open + body, close);
    assert(events_of(v, k) == open + body + close);
    let text = lead + record_lines(ms, d + 1) + closing(ms.len() == 0, d + 1, 123u8, 125u8);
    if ms.len() == 0 {
        assert(record_lines(ms, d + 1) =~= Seq::<u8>::empty());
    }
    assert(text =~= lead + layout(v, d));
}

/// The elements of an array just opened in `t` write their lines.
proof fn lemma_items(t: PrinterState, items: Seq<Tree>)
    requires
        valid_state(t),
        t.stack.len() > 0,
        t.stack.last() == Frame::Array,
        t.fresh,
        forall|i: int| 0 <= i < items.len() ==> fits(#[trigger] items[i], t.stack.len()),
    ensures
        run(t, list_events(items)) == Ok::<(PrinterState, Seq<u8>), PrettyError>(
            (PrinterState { fresh: items.len() == 0, ..t }, list_lines(items, t.stack.len())),
        ),
    decreases items, 1nat,
{
    if items.len() == 0 {
        reveal_with_fuel(run, 1);
        assert(PrinterState { fresh: true, ..t } == t);
    } else {
        let pre = items.drop_last();
        assert forall|i: int| 0 <= i < pre.len() implies fits(#[trigger] pre[i], t.stack.len()) by {
            assert(pre[i] == items[i]);
        }
        lemma_items(t, pre);
        let tp = PrinterState { fresh: pre.len() == 0, ..t };
        assert(fits(items[items.len() - 1], t.stack.len()));
        lemma_value(tp, items.last(), None);
        lemma_run_concat(t, list_events(pre), events_of(items.last(), None));
        assert(after_value(tp) == PrinterState { fresh: false, ..t });
        let lead = position_lead(tp, None);
        assert(list_lines(pre, t.stack.len()) + (lead + layout(items.last(), t.stack.len()))
            =~= list_lines(items, t.stack.len()));
    }
}

/// The members of an object just opened in `t` write their lines.
proof fn lemma_members(t: PrinterState, ms: Seq<(String, Tree)>)
    requires
        valid_state(t),
        t.stack.len() > 0,
        t.stack.last() == Frame::Object,
        t.fresh,
        forall|i: int| 0 <= i < ms.len() ==> fits(#[trigger] ms[i].1, t.stack.len()),
    ensures
        run(t, record_events(ms)) == Ok::<(PrinterState, Seq<u8>), PrettyError>(
            (PrinterState { fresh: ms.len() == 0, ..t }, record_lines(ms, t.stack.len())),
        ),
    decreases ms, 1nat,
{
    if ms.len() == 0 {
        reveal_with_fuel(run, 1);
        assert(PrinterState { fresh: true, ..t } == t);
    } else {
        let pre = ms.drop_last();
        assert forall|i: int| 0 <= i < pre.len() implies fits(#[trigger] pre[i].1, t.stack.len()) by {
            assert(pre[i] == ms[i]);
        }
        lemma_members(t, pre);
        let tp = PrinterState { fresh: pre.len() == 0, ..t };
        assert(fits(ms[ms.len() - 1].1, t.stack.len()));
        lemma_value(tp, ms.last().1, Some(ms.last().0));
        lemma_run_concat(t, record_events(pre), events_of(ms.last().1, Some(ms.last().0)));
        assert(after_value(tp) == PrinterState { fresh: false, ..t });
        let lead = position_lead(tp, Some(ms.last().0));
        assert(record_lines(pre, t.stack.len()) + (lead + layout(ms.last().1, t.stack.len()))
            =~= record_lines(ms, t.stack.len()));
    }
}

/// The text printed for the events of a value tree is the tree's indented
/// layout: the same scalars and keys, in the order delivered, nested as in
/// the tree, with every composite closed at the indentation it was opened in.
pub proof fn printed_text_is_layout_of_tree(v: Tree, k: Option<String>)
    requires
        fits(v, 0),
    ensures
        pretty(events_of(v, k)) == Ok::<Seq<u8>, PrettyError>(layout(v, 0)),
{
    lemma_value(initial(), v, k);
    assert(position_lead(initial(), k) + layout(v, 0) =~= layout(v, 0));
}

} // verus!
