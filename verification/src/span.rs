//! Spans: what lies between the start of a container and the end that matches it, found
//! with a depth counter and without building a tree.

use crate::ir_markup::{Event, EventView};
use vstd::prelude::*;

verus! {

/// What an event does to the nesting depth.
#[derive(Clone, Copy, Debug, PartialEq, Eq, Structural)]
pub enum Nesting {
    /// The start of a container.
    Opens,
    /// The end of a container.
    Closes,
    /// An event that stands for itself.
    Leaf,
}

/// The position of the end that closes the span: scanning from position `i` at the given
/// depth, a start adds one to the depth, an end takes one off, and the scan stops at the
/// end that brings the depth to zero. Where no such end follows, the span runs to the end
/// of the sequence.
pub open spec fn span_end(kinds: Seq<Nesting>, i: int, depth: int) -> int
    decreases kinds.len() - i,
{
    if i < 0 || i >= kinds.len() {
        kinds.len() as int
    } else {
        match kinds[i] {
            Nesting::Opens => span_end(kinds, i + 1, depth + 1),
            Nesting::Closes => if depth <= 1 {
                i
            } else {
                span_end(kinds, i + 1, depth - 1)
            },
            Nesting::Leaf => span_end(kinds, i + 1, depth),
        }
    }
}

/// The end of the span of a container whose start stands just before position `i`.
pub open spec fn span_end_inside(kinds: Seq<Nesting>, i: int) -> int {
    span_end(kinds, i, 1)
}

/// The end of the span of the container that starts at position `i`. Where no start
/// stands there the span is empty and ends at `i`.
pub open spec fn span_end_at(kinds: Seq<Nesting>, i: int) -> int {
    if 0 <= i < kinds.len() && kinds[i] is Opens {
        span_end(kinds, i + 1, 1)
    } else {
        i
    }
}

/// The span never ends before the position at which the scan starts, nor behind the
/// sequence, and where it ends inside the sequence it ends at an end of a container.
pub proof fn lemma_span_end_bounds(kinds: Seq<Nesting>, i: int, depth: int)
    requires
        0 <= i <= kinds.len(),
    ensures
        i <= span_end(kinds, i, depth) <= kinds.len(),
        span_end(kinds, i, depth) < kinds.len() ==> kinds[span_end(kinds, i, depth)] is Closes,
    decreases kinds.len() - i,
{
    if i < kinds.len() {
        match kinds[i] {
            Nesting::Opens => lemma_span_end_bounds(kinds, i + 1, depth + 1),
            Nesting::Closes => if depth > 1 {
                lemma_span_end_bounds(kinds, i + 1, depth - 1)
            },
            Nesting::Leaf => lemma_span_end_bounds(kinds, i + 1, depth),
        }
    }
}

/// What an event adds to the nesting depth.
pub open spec fn depth_step(kind: Nesting) -> int {
    match kind {
        Nesting::Opens => 1,
        Nesting::Closes => -1,
        Nesting::Leaf => 0,
    }
}

/// By how much the nesting depth changes over the events from position `from` up to
/// position `to`: the starts among them less the ends.
pub open spec fn depth_change(kinds: Seq<Nesting>, from: int, to: int) -> int
    decreases to - from,
{
    if from >= to || to > kinds.len() || from < 0 {
        0
    } else {
        depth_change(kinds, from, to - 1) + depth_step(kinds[to - 1])
    }
}

proof fn lemma_depth_change_from_front(kinds: Seq<Nesting>, from: int, to: int)
    requires
        0 <= from < to <= kinds.len(),
    ensures
        depth_change(kinds, from, to) == depth_step(kinds[from]) + depth_change(
            kinds,
            from + 1,
            to,
        ),
    decreases to - from,
{
    assert(depth_change(kinds, from, to) == depth_change(kinds, from, to - 1) + depth_step(
        kinds[to - 1],
    ));
    if from + 1 < to {
        lemma_depth_change_from_front(kinds, from, to - 1);
        assert(depth_change(kinds, from + 1, to) == depth_change(kinds, from + 1, to - 1)
            + depth_step(kinds[to - 1]));
    } else {
        assert(depth_change(kinds, from, from) == 0);
        assert(depth_change(kinds, from + 1, to) == 0);
    }
}

/// The end of a span is the end that matches: up to it the depth never falls to zero,
/// and where the span ends inside the sequence, the event at its end is the end of a
/// container that stands at depth one and so brings the depth to zero.
pub proof fn lemma_span_end_matches(kinds: Seq<Nesting>, i: int, depth: int)
    requires
        0 <= i <= kinds.len(),
        depth >= 1,
    ensures
        forall|q: int|
            i <= q <= span_end(kinds, i, depth) ==> depth + #[trigger] depth_change(kinds, i, q)
                >= 1,
        span_end(kinds, i, depth) < kinds.len() ==> kinds[span_end(kinds, i, depth)] is Closes
            && depth + depth_change(kinds, i, span_end(kinds, i, depth)) == 1,
    decreases kinds.len() - i,
{
    lemma_span_end_bounds(kinds, i, depth);
    if i < kinds.len() {
        let next = if kinds[i] is Closes && depth <= 1 {
            depth
        } else {
            depth + depth_step(kinds[i])
        };
        if !(kinds[i] is Closes && depth <= 1) {
            lemma_span_end_matches(kinds, i + 1, next);
            lemma_span_end_bounds(kinds, i + 1, next);
            let p = span_end(kinds, i, depth);
            assert(p == span_end(kinds, i + 1, next));
            assert forall|q: int| i <= q <= p implies depth + #[trigger] depth_change(kinds, i, q)
                >= 1 by {
                if q > i {
                    lemma_depth_change_from_front(kinds, i, q);
                    assert(next + depth_change(kinds, i + 1, q) >= 1);
                }
            }
            if p < kinds.len() {
                lemma_depth_change_from_front(kinds, i, p);
            }
        }
    }
}

/// What an event of the intermediate representation does to the nesting depth.
pub open spec fn nesting_of(e: EventView) -> Nesting {
    match e {
        EventView::Start { container, attributes } => Nesting::Opens,
        EventView::End { container } => Nesting::Closes,
        _ => Nesting::Leaf,
    }
}

/// The nesting of each event of a sequence.
pub open spec fn nestings(events: Seq<EventView>) -> Seq<Nesting> {
    events.map_values(|e: EventView| nesting_of(e))
}

impl Event {
    pub fn nesting(&self) -> (r: Nesting)
        ensures
            r == nesting_of(self@),
    {
        match self {
            Event::Start { container, attributes } => Nesting::Opens,
            Event::End { container } => Nesting::Closes,
            _ => Nesting::Leaf,
        }
    }
}

/// Finds the end of the span of a container whose start stands just before position
/// `from`: the position of the matching end, or the length of the sequence if the
/// container is not closed.
pub fn container_end_inside(events: &Vec<Event>, from: usize) -> (end: usize)
    requires
        from <= events@.len(),
    ensures
        end == span_end_inside(nestings(crate::ir_markup::events_view(events@)), from as int),
        from <= end <= events@.len(),
{
    let ghost kinds = nestings(crate::ir_markup::events_view(events@));
    let n = events.len();
    let mut i = from;
    let mut depth: u128 = 1;
    proof {
        lemma_span_end_bounds(kinds, from as int, 1);
    }
    while i < n
        invariant
            from <= i <= n,
            n == events@.len(),
            kinds == nestings(crate::ir_markup::events_view(events@)),
            1 <= depth <= 1 + (i - from),
            span_end(kinds, from as int, 1) == span_end(kinds, i as int, depth as int),
        decreases n - i,
    {
        assert(kinds[i as int] == nesting_of(events@[i as int]@));
        match events[i].nesting() {
            Nesting::Opens => {
                depth += 1;
            },
            Nesting::Closes => {
                if depth <= 1 {
                    return i;
                }
                depth -= 1;
            },
            Nesting::Leaf => {},
        }
        i += 1;
    }
    n
}

/// Finds the end of the span of the container that starts at position `at`. Where no
/// start stands there the span is empty and ends at `at`.
pub fn container_end_at(events: &Vec<Event>, at: usize) -> (end: usize)
    requires
        at <= events@.len(),
    ensures
        end == span_end_at(nestings(crate::ir_markup::events_view(events@)), at as int),
        at <= end <= events@.len(),
{
    let ghost kinds = nestings(crate::ir_markup::events_view(events@));
    if at < events.len() {
        assert(kinds[at as int] == nesting_of(events@[at as int]@));
        match events[at].nesting() {
            Nesting::Opens => container_end_inside(events, at + 1),
            _ => at,
        }
    } else {
        at
    }
}

} // verus!
