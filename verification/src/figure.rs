//! The figure pass: a block of the class `figure` becomes a `figure` element, and a
//! caption at its end becomes the caption of the figure.

use crate::attributes::{attrs_get, AttributeSeq, Attributes};
use crate::ir_markup::{
    events_view, push_event, Container, ContainerEnd, ContainerEndView, ContainerView, Event,
    EventView,
};
use crate::order::same_text;
use crate::span::{
    container_end_at, container_end_inside, lemma_span_end_bounds, nestings, span_end,
    span_end_at, Nesting,
};
use vstd::prelude::*;
use vstd::string::*;

verus! {

/// Whether the event opens a block whose class is `figure` and nothing else.
pub open spec fn is_figure_start(e: EventView) -> bool {
    e matches EventView::Start { container: ContainerView::Div, attributes } && (attrs_get(
        attributes,
        "class"@,
    ) matches Some(class) && class.text() == "figure"@)
}

/// Whether the event opens a caption.
pub open spec fn is_caption_start(e: EventView) -> bool {
    e matches EventView::Start { container: ContainerView::Other { tag }, attributes } && tag
        == "caption"@
}

/// The attributes that an event carries; none for an event without attributes.
pub open spec fn attributes_of(e: EventView) -> AttributeSeq {
    match e {
        EventView::Start { container, attributes } => attributes,
        _ => Seq::empty(),
    }
}

/// The position of the last child among the children that stand between `p` and `end`;
/// `last` where there is none. A child is a single event or a container with all that it
/// holds.
pub open spec fn last_child(kinds: Seq<Nesting>, p: int, end: int, last: int) -> int
    decreases end - p,
{
    if p < 0 || p >= end || end > kinds.len() {
        last
    } else if span_end_at(kinds, p) < p || span_end_at(kinds, p) >= end {
        p
    } else {
        last_child(kinds, span_end_at(kinds, p) + 1, end, p)
    }
}

/// The position of the caption of a figure whose content stands between `from` and
/// `end`: the start of the last child, where that child is a caption that is closed
/// just before `end`.
pub open spec fn caption_at(events: Seq<EventView>, from: int, end: int) -> Option<int> {
    let c = last_child(nestings(events), from, end, -1);
    if from <= c && c + 1 <= end - 1 && end <= events.len() && is_caption_start(events[c])
        && span_end_at(nestings(events), c) == end - 1 {
        Some(c)
    } else {
        None
    }
}

pub open spec fn figure_start(attributes: AttributeSeq) -> EventView {
    EventView::Start { container: ContainerView::Other { tag: "figure"@ }, attributes }
}

pub open spec fn figure_end() -> EventView {
    EventView::End { container: ContainerEndView::Other { tag: "figure"@ } }
}

pub open spec fn figcaption_start(attributes: AttributeSeq) -> EventView {
    EventView::Start { container: ContainerView::Other { tag: "figcaption"@ }, attributes }
}

pub open spec fn figcaption_end() -> EventView {
    EventView::End { container: ContainerEndView::Other { tag: "figcaption"@ } }
}

/// The position at which the block that starts at `from` ends, no further than `to`.
pub open spec fn block_end(events: Seq<EventView>, from: int, to: int) -> int {
    let end = span_end(nestings(events), from + 1, 1);
    if end < to {
        end
    } else {
        to
    }
}

/// What the figure pass makes of the events between `from` and `to`.
///
/// A block of the class `figure` becomes a `figure`; where the last thing in it is a
/// caption, that caption becomes the `figcaption` of the figure. Every other event
/// stays. A figure that is not closed takes in the rest.
pub open spec fn figured(events: Seq<EventView>, from: int, to: int) -> Seq<EventView>
    decreases to - from,
{
    if from < 0 || from >= to || to > events.len() {
        Seq::empty()
    } else if is_figure_start(events[from]) {
        let end = block_end(events, from, to);
        if end <= from {
            Seq::empty()
        } else {
            seq![figure_start(attributes_of(events[from]))] + (match caption_at(
                events,
                from + 1,
                end,
            ) {
                Some(c) => if from < c && c + 1 <= end - 1 {
                    figured(events, from + 1, c) + seq![
                        figcaption_start(attributes_of(events[c])),
                    ] + figured(events, c + 1, end - 1) + seq![figcaption_end()]
                } else {
                    Seq::empty()
                },
                None => figured(events, from + 1, end),
            }) + (if end < to {
                seq![figure_end()] + figured(events, end + 1, to)
            } else {
                Seq::empty()
            })
        }
    } else {
        seq![events[from]] + figured(events, from + 1, to)
    }
}

/// The events after the figure pass.
pub open spec fn figure_pass_events(events: Seq<EventView>) -> Seq<EventView> {
    figured(events, 0, events.len() as int)
}

/// Whether the event opens a block whose class is `figure`.
fn figure_attributes(e: &Event) -> (r: Option<&Attributes>)
    ensures
        match r {
            Some(attributes) => is_figure_start(e@) && attributes@ == attributes_of(e@),
            None => !is_figure_start(e@),
        },
{
    match e {
        Event::Start { container: Container::Div, attributes } => {
            match attributes.get("class") {
                Some(class) => if same_text(class.as_str(), "figure") {
                    Some(attributes)
                } else {
                    None
                },
                None => None,
            }
        },
        _ => None,
    }
}

fn caption_attributes(e: &Event) -> (r: Option<&Attributes>)
    ensures
        match r {
            Some(attributes) => is_caption_start(e@) && attributes@ == attributes_of(e@),
            None => !is_caption_start(e@),
        },
{
    match e {
        Event::Start { container: Container::Other { tag }, attributes } => {
            if same_text(tag.as_str(), "caption") {
                Some(attributes)
            } else {
                None
            }
        },
        _ => None,
    }
}

/// Finds the caption of a figure whose content stands between `from` and `end`.
fn find_caption(events: &Vec<Event>, from: usize, end: usize) -> (r: Option<usize>)
    requires
        from <= end <= events@.len(),
    ensures
        match r {
            Some(c) => caption_at(events_view(events@), from as int, end as int) == Some(c as int),
            None => caption_at(events_view(events@), from as int, end as int) is None,
        },
{
    let ghost evs = events_view(events@);
    let ghost kinds = nestings(evs);
    let mut p = from;
    let mut last: Option<usize> = None;
    while p < end
        invariant
            from <= p,
            end <= events@.len(),
            evs == events_view(events@),
            kinds == nestings(evs),
            match last {
                Some(l) => from <= l < p && l < end,
                None => p == from,
            },
            last_child(kinds, from as int, end as int, -1) == last_child(
                kinds,
                p as int,
                end as int,
                match last {
                    Some(l) => l as int,
                    None => -1,
                },
            ),
        decreases end - p,
    {
        let child_end = container_end_at(events, p);
        last = Some(p);
        if child_end >= end {
            p = end;
        } else {
            p = child_end + 1;
        }
    }
    let c = match last {
        Some(c) => c,
        None => {
            return None;
        },
    };
    if c + 1 >= end {
        return None;
    }
    assert(evs[c as int] == events@[c as int]@);
    if caption_attributes(&events[c]).is_none() {
        return None;
    }
    if container_end_at(events, c) != end - 1 {
        return None;
    }
    Some(c)
}

/// What the figure pass makes of the content of a figure that stands between `from`
/// and `end`.
pub open spec fn figure_content(events: Seq<EventView>, from: int, end: int) -> Seq<EventView>
    recommends
        from <= end <= events.len(),
{
    match caption_at(events, from, end) {
        Some(c) => figured(events, from, c) + seq![figcaption_start(attributes_of(events[c]))]
            + figured(events, c + 1, end - 1) + seq![figcaption_end()],
        None => figured(events, from, end),
    }
}

/// What follows the content of a figure that ends at `end`.
pub open spec fn figure_rest(events: Seq<EventView>, end: int, to: int) -> Seq<EventView> {
    if end < to {
        seq![figure_end()] + figured(events, end + 1, to)
    } else {
        Seq::empty()
    }
}

proof fn lemma_figured_figure(events: Seq<EventView>, from: int, to: int)
    requires
        0 <= from < to <= events.len(),
        is_figure_start(events[from]),
    ensures
        from < block_end(events, from, to) <= to,
        figured(events, from, to) == seq![figure_start(attributes_of(events[from]))]
            + figure_content(events, from + 1, block_end(events, from, to)) + figure_rest(
            events,
            block_end(events, from, to),
            to,
        ),
{
    lemma_span_end_bounds(nestings(events), from + 1, 1);
}

proof fn lemma_figured_other(events: Seq<EventView>, from: int, to: int)
    requires
        0 <= from < to <= events.len(),
        !is_figure_start(events[from]),
    ensures
        figured(events, from, to) == seq![events[from]] + figured(events, from + 1, to),
{
}

proof fn lemma_figured_empty(events: Seq<EventView>, from: int, to: int)
    requires
        from >= to,
    ensures
        figured(events, from, to) == Seq::<EventView>::empty(),
{
}

/// Appends to `out` what the figure pass makes of the content of a figure.
fn figure_inside(events: &Vec<Event>, from: usize, end: usize, out: &mut Vec<Event>)
    requires
        from <= end <= events@.len(),
    ensures
        events_view(final(out)@) == events_view(old(out)@) + figure_content(
            events_view(events@),
            from as int,
            end as int,
        ),
    decreases end - from, 1nat,
{
    let ghost evs = events_view(events@);
    let ghost start = events_view(out@);
    match find_caption(events, from, end) {
        Some(c) => {
            assert(evs[c as int] == events@[c as int]@);
            figure_range(events, from, c, out);
            let ghost first = events_view(out@);
            let caption = match caption_attributes(&events[c]) {
                Some(attributes) => attributes.duplicate(),
                None => Attributes::new(),
            };
            push_event(
                out,
                Event::Start { container: Container::other("figcaption"), attributes: caption },
            );
            let ghost second = events_view(out@);
            figure_range(events, c + 1, end - 1, out);
            let ghost third = events_view(out@);
            push_event(
                out,
                Event::End { container: ContainerEnd::Other { tag: "figcaption".to_owned() } },
            );
            proof {
                let a = figured(evs, from as int, c as int);
                let b = figcaption_start(attributes_of(evs[c as int]));
                let d = figured(evs, c + 1, end - 1);
                assert(first == start + a);
                assert(second == first.push(b));
                assert(third == second + d);
                assert(events_view(out@) == third.push(figcaption_end()));
                assert(third.push(figcaption_end()) =~= start + (a + seq![b] + d + seq![
                    figcaption_end(),
                ]));
            }
        },
        None => {
            figure_range(events, from, end, out);
        },
    }
}

/// Appends to `out` what the figure pass makes of the events between `from` and `to`.
fn figure_range(events: &Vec<Event>, from: usize, to: usize, out: &mut Vec<Event>)
    requires
        from <= to <= events@.len(),
    ensures
        events_view(final(out)@) == events_view(old(out)@) + figured(
            events_view(events@),
            from as int,
            to as int,
        ),
    decreases to - from, 0nat,
{
    let ghost evs = events_view(events@);
    let ghost start = events_view(out@);
    let ghost whole = figured(evs, from as int, to as int);
    let mut i = from;
    assert(start + whole =~= events_view(out@) + figured(evs, i as int, to as int));
    while i < to
        invariant
            from <= i <= to,
            to <= events@.len(),
            evs == events_view(events@),
            whole == figured(evs, from as int, to as int),
            start + whole == events_view(out@) + figured(evs, i as int, to as int),
        decreases to - i,
    {
        assert(evs[i as int] == events@[i as int]@);
        let ghost before = events_view(out@);
        match figure_attributes(&events[i]) {
            Some(attributes) => {
                proof {
                    lemma_figured_figure(evs, i as int, to as int);
                }
                let span_end = container_end_inside(events, i + 1);
                let end = if span_end < to {
                    span_end
                } else {
                    to
                };
                assert(end == block_end(evs, i as int, to as int));
                push_event(
                    out,
                    Event::Start {
                        container: Container::other("figure"),
                        attributes: attributes.duplicate(),
                    },
                );
                figure_inside(events, i + 1, end, out);
                let ghost filled = events_view(out@);
                let ghost head = figure_start(attributes_of(evs[i as int]));
                let ghost content = figure_content(evs, i + 1, end as int);
                assert(filled == before.push(head) + content);
                if end < to {
                    push_event(
                        out,
                        Event::End { container: ContainerEnd::Other { tag: "figure".to_owned() } },
                    );
                    proof {
                        let rest = figured(evs, end + 1, to as int);
                        assert(events_view(out@) + rest =~= before + (seq![head] + content + (seq![
                            figure_end(),
                        ] + rest)));
                    }
                    i = end + 1;
                } else {
                    proof {
                        lemma_figured_empty(evs, to as int, to as int);
                        assert(events_view(out@) + figured(evs, to as int, to as int) =~= before
                            + (seq![head] + content + Seq::<EventView>::empty()));
                    }
                    i = to;
                }
            },
            None => {
                proof {
                    lemma_figured_other(evs, i as int, to as int);
                }
                push_event(out, events[i].duplicate());
                proof {
                    let rest = figured(evs, i + 1, to as int);
                    assert(events_view(out@) + rest =~= before + (seq![evs[i as int]] + rest));
                }
                i += 1;
            },
        }
    }
    proof {
        lemma_figured_empty(evs, to as int, to as int);
        assert(events_view(out@) + Seq::<EventView>::empty() =~= events_view(out@));
    }
}

/// The figure pass: every block of the class `figure` becomes a `figure` element, and a
/// caption that ends it becomes its `figcaption`.
pub fn figure_pass(events: &Vec<Event>) -> (out: Vec<Event>)
    ensures
        events_view(out@) == figure_pass_events(events_view(events@)),
{
    let mut out: Vec<Event> = Vec::new();
    assert(events_view(out@) =~= Seq::empty());
    figure_range(events, 0, events.len(), &mut out);
    assert(events_view(out@) =~= figure_pass_events(events_view(events@)));
    out
}

} // verus!
