//! What the writer is known to do: on well-nested documents, with lists and with
//! footnotes.

use crate::attributes::AttributeSeq;
use crate::ir_markup::{end_of, ContainerEndView, ContainerView, EventView, ListKind};
use crate::markup::end_text;
use crate::writer::{
    apply, apply_all, end_tag, footnote_number, footnote_position, in_tight_list, initial,
    on_new_line, registered, start_tag, writer_ok, FootnoteView, WriterView,
};
use vstd::prelude::*;

verus! {

/// Whether `end` closes a container that was opened as `open`. The end of a list need
/// not repeat how the list is numbered, only whether it is.
pub open spec fn closes(open: ContainerView, end: ContainerEndView) -> bool {
    match (open, end) {
        (ContainerView::List { kind, tight }, ContainerEndView::List { kind: closed }) => (kind is Ordered)
            == (closed is Ordered),
        _ => end_of(open) == end,
    }
}

/// The containers that are open after the events, outermost first; nothing where an end
/// stands that does not close the container opened last.
pub open spec fn open_containers(events: Seq<EventView>) -> Option<Seq<ContainerView>>
    decreases events.len(),
{
    if events.len() == 0 {
        Some(Seq::empty())
    } else {
        match open_containers(events.drop_last()) {
            None => None,
            Some(open) => match events.last() {
                EventView::Start { container, attributes } => Some(open.push(container)),
                EventView::End { container } => if open.len() > 0 && closes(
                    open.last(),
                    container,
                ) {
                    Some(open.drop_last())
                } else {
                    None
                },
                _ => Some(open),
            },
        }
    }
}

/// Every end closes the container opened last.
pub open spec fn well_nested(events: Seq<EventView>) -> bool {
    open_containers(events) is Some
}

/// Every end closes the container opened last, and nothing stays open.
pub open spec fn balanced(events: Seq<EventView>) -> bool {
    open_containers(events) == Some(Seq::<ContainerView>::empty())
}

/// For each list among the containers, outermost first, whether it is tight.
pub open spec fn tight_flags(open: Seq<ContainerView>) -> Seq<bool>
    decreases open.len(),
{
    if open.len() == 0 {
        Seq::empty()
    } else {
        match open.last() {
            ContainerView::List { kind, tight } => tight_flags(open.drop_last()).push(tight),
            _ => tight_flags(open.drop_last()),
        }
    }
}

/// A prefix of a well-nested document is well nested.
pub proof fn lemma_prefix_well_nested(events: Seq<EventView>, k: int)
    requires
        well_nested(events),
        0 <= k <= events.len(),
    ensures
        well_nested(events.take(k)),
    decreases events.len() - k,
{
    if k < events.len() {
        lemma_prefix_well_nested(events, k + 1);
        assert(events.take(k + 1).drop_last() =~= events.take(k));
    } else {
        assert(events.take(k) =~= events);
    }
}

/// Writing text leaves the stack of lists as it is.
proof fn lemma_step_tightness(w: WriterView, e: EventView)
    ensures
        apply(w, e).tightness == match e {
            EventView::Start { container: ContainerView::List { kind, tight }, attributes } => w.tightness.push(
                tight,
            ),
            EventView::End { container: ContainerEndView::List { kind } } => if w.tightness.len()
                > 0 {
                w.tightness.drop_last()
            } else {
                w.tightness
            },
            _ => w.tightness,
        },
{
}

/// On a well-nested document the stack of the writer mirrors the lists that are open:
/// after the events it holds what it held before, followed by one entry for each list
/// that is open, with the tightness that the list was opened with.
pub proof fn lemma_tightness_mirrors_lists(w: WriterView, events: Seq<EventView>)
    requires
        well_nested(events),
    ensures
        apply_all(w, events).tightness == w.tightness + tight_flags(open_containers(events)->0),
    decreases events.len(),
{
    if events.len() == 0 {
        assert(w.tightness + Seq::<bool>::empty() =~= w.tightness);
    } else {
        let before = events.drop_last();
        let open = open_containers(before)->0;
        lemma_tightness_mirrors_lists(w, before);
        let s = apply_all(w, before);
        lemma_step_tightness(s, events.last());
        match events.last() {
            EventView::Start { container, attributes } => {
                assert(open.push(container).drop_last() =~= open);
                match container {
                    ContainerView::List { kind, tight } => {
                        assert((w.tightness + tight_flags(open)).push(tight) =~= w.tightness
                            + tight_flags(open).push(tight));
                    },
                    _ => {},
                }
            },
            EventView::End { container } => {
                match open.last() {
                    ContainerView::List { kind, tight } => {
                        assert((w.tightness + tight_flags(open.drop_last()).push(tight)).drop_last()
                            =~= w.tightness + tight_flags(open.drop_last()));
                    },
                    _ => {},
                }
            },
            _ => {},
        }
    }
}

/// On a well-nested document the lists that are open decide whether the tags of a
/// paragraph are written: they are left out where the innermost open list is tight, and
/// only there.
pub proof fn lemma_open_lists_decide(buf: Seq<char>, events: Seq<EventView>)
    requires
        well_nested(events),
    ensures
        in_tight_list(apply_all(initial(buf), events)) == (tight_flags(
            open_containers(events)->0,
        ).len() > 0 && tight_flags(open_containers(events)->0).last()),
{
    lemma_tightness_mirrors_lists(initial(buf), events);
    assert(Seq::<bool>::empty() + tight_flags(open_containers(events)->0) =~= tight_flags(
        open_containers(events)->0,
    ));
}

/// The writer never takes from an empty stack on a well-nested document: wherever the
/// end of a list stands, the stack holds an entry for that list.
pub proof fn lemma_no_underflow(buf: Seq<char>, events: Seq<EventView>, k: int)
    requires
        well_nested(events),
        0 <= k < events.len(),
        events[k] matches EventView::End { container: ContainerEndView::List { kind } },
    ensures
        apply_all(initial(buf), events.take(k)).tightness.len() > 0,
{
    lemma_prefix_well_nested(events, k + 1);
    lemma_prefix_well_nested(events, k);
    assert(events.take(k + 1).drop_last() =~= events.take(k));
    let open = open_containers(events.take(k))->0;
    lemma_tightness_mirrors_lists(initial(buf), events.take(k));
    assert(open.len() > 0 && open.last() is List);
    assert(Seq::<bool>::empty() + tight_flags(open) =~= tight_flags(open));
}

/// On a well-nested document every end writes the closing tag of the container that was
/// opened last and is still open.
pub proof fn lemma_closes_most_recent(events: Seq<EventView>, k: int)
    requires
        well_nested(events),
        0 <= k < events.len(),
        events[k] is End,
    ensures
        open_containers(events.take(k)) is Some,
        open_containers(events.take(k))->0.len() > 0,
        end_text(events[k]->End_container) == end_text(
            end_of(open_containers(events.take(k))->0.last()),
        ),
{
    lemma_prefix_well_nested(events, k + 1);
    lemma_prefix_well_nested(events, k);
    assert(events.take(k + 1).drop_last() =~= events.take(k));
}

/// After a balanced document the stack of lists is as it was before.
pub proof fn lemma_balanced_restores_stack(w: WriterView, events: Seq<EventView>)
    requires
        balanced(events),
    ensures
        apply_all(w, events).tightness == w.tightness,
{
    lemma_tightness_mirrors_lists(w, events);
    assert(w.tightness + Seq::<bool>::empty() =~= w.tightness);
}

/// Inside a list, whether paragraphs are written with their tags is decided by the list
/// opened last: a tight list suppresses them, any other list does not.
pub proof fn lemma_list_decides_paragraph_tags(
    w: WriterView,
    kind: ListKind,
    tight: bool,
    attributes: AttributeSeq,
    paragraph: AttributeSeq,
)
    ensures
        ({
            let inside = start_tag(w, ContainerView::List { kind, tight }, attributes);
            &&& in_tight_list(inside) == tight
            &&& tight ==> start_tag(inside, ContainerView::Paragraph, paragraph) == inside
                && end_tag(inside, ContainerEndView::Paragraph) == inside
            &&& !tight ==> start_tag(inside, ContainerView::Paragraph, paragraph) == crate::writer::write(
                on_new_line(inside),
                crate::markup::start_text(ContainerView::Paragraph, paragraph, 0),
            ) && end_tag(inside, ContainerEndView::Paragraph) == crate::writer::write(inside, "</p>\n"@)
        }),
{
}

/// Whether `after` holds every footnote of `before` at its place, under its label.
pub open spec fn keeps_labels(before: Seq<FootnoteView>, after: Seq<FootnoteView>) -> bool {
    &&& before.len() <= after.len()
    &&& forall|i: int| 0 <= i < before.len() ==> (#[trigger] after[i]).label == before[i].label
}

/// A label that is found in a registry is found at the same place in every registry
/// that keeps its labels.
pub proof fn lemma_position_is_kept(
    before: Seq<FootnoteView>,
    after: Seq<FootnoteView>,
    label: Seq<char>,
    i: int,
)
    requires
        keeps_labels(before, after),
        0 <= i,
        footnote_position(before, label, i) < before.len(),
    ensures
        footnote_position(after, label, i) == footnote_position(before, label, i),
    decreases before.len() - i,
{
    if i < before.len() {
        assert(after[i].label == before[i].label);
        if before[i].label != label {
            lemma_position_is_kept(before, after, label, i + 1);
        }
    }
}

/// A label that has not been seen gets the number that follows the numbers given out.
pub proof fn lemma_new_label_gets_next_number(fs: Seq<FootnoteView>, label: Seq<char>)
    requires
        footnote_position(fs, label, 0) >= fs.len(),
    ensures
        footnote_number(fs, label) == fs.len() + 1,
        registered(fs, label).len() == fs.len() + 1,
        footnote_position(registered(fs, label), label, 0) == fs.len(),
{
    lemma_position_bounds(fs, label, 0);
    lemma_position_of_last(fs, label, 0);
}

proof fn lemma_position_bounds(fs: Seq<FootnoteView>, label: Seq<char>, i: int)
    requires
        0 <= i <= fs.len(),
    ensures
        i <= footnote_position(fs, label, i) <= fs.len(),
        footnote_position(fs, label, i) < fs.len() ==> fs[footnote_position(fs, label, i)].label
            == label,
        forall|j: int| i <= j < footnote_position(fs, label, i) ==> fs[j].label != label,
    decreases fs.len() - i,
{
    if i < fs.len() && fs[i].label != label {
        lemma_position_bounds(fs, label, i + 1);
    }
}

proof fn lemma_position_of_last(fs: Seq<FootnoteView>, label: Seq<char>, i: int)
    requires
        0 <= i <= fs.len(),
        footnote_position(fs, label, i) >= fs.len(),
    ensures
        footnote_position(
            fs.push(FootnoteView { label, buf: Seq::empty(), defined: false }),
            label,
            i,
        ) == fs.len(),
    decreases fs.len() - i,
{
    let gs = fs.push(FootnoteView { label, buf: Seq::empty(), defined: false });
    if i < fs.len() {
        assert(gs[i] == fs[i]);
        lemma_position_of_last(fs, label, i + 1);
    }
}

/// No event takes a footnote out of the registry or gives it another label.
pub proof fn lemma_event_keeps_labels(w: WriterView, e: crate::ir_markup::EventView)
    requires
        writer_ok(w),
    ensures
        keeps_labels(w.footnotes, apply(w, e).footnotes),
{
    match e {
        crate::ir_markup::EventView::Start { container, attributes } => {
            match container {
                ContainerView::Footnote { label } => {
                    lemma_position_bounds(w.footnotes, label, 0);
                },
                _ => {},
            }
        },
        _ => {},
    }
}

/// The order in which labels are first seen decides their numbers: once a label has its
/// number, no later event changes it, be it a reference or a definition, of this label
/// or of another.
pub proof fn lemma_number_is_kept(
    w: WriterView,
    events: Seq<crate::ir_markup::EventView>,
    label: Seq<char>,
)
    requires
        writer_ok(w),
        footnote_position(w.footnotes, label, 0) < w.footnotes.len(),
    ensures
        footnote_number(apply_all(w, events).footnotes, label) == footnote_number(
            w.footnotes,
            label,
        ),
        keeps_labels(w.footnotes, apply_all(w, events).footnotes),
        writer_ok(apply_all(w, events)),
    decreases events.len(),
{
    if events.len() > 0 {
        lemma_number_is_kept(w, events.drop_last(), label);
        let s = apply_all(w, events.drop_last());
        lemma_event_keeps_labels(s, events.last());
        lemma_event_keeps_state_ok(s, events.last());
        let t = apply(s, events.last());
        lemma_position_is_kept(w.footnotes, s.footnotes, label, 0);
        lemma_position_is_kept(s.footnotes, t.footnotes, label, 0);
    }
}

/// Every event leaves the writer in a state in which its target is a footnote of the
/// registry.
pub proof fn lemma_event_keeps_state_ok(w: WriterView, e: crate::ir_markup::EventView)
    requires
        writer_ok(w),
    ensures
        writer_ok(apply(w, e)),
{
    match e {
        crate::ir_markup::EventView::Start { container, attributes } => {
            match container {
                ContainerView::Footnote { label } => {
                    lemma_position_bounds(w.footnotes, label, 0);
                },
                _ => {},
            }
        },
        _ => {},
    }
}

/// Whether a footnote definition is among the containers.
pub open spec fn holds_footnote(open: Seq<ContainerView>) -> bool {
    exists|i: int| 0 <= i < open.len() && #[trigger] open[i] is Footnote
}

/// No event takes back what has been written to the main output.
pub proof fn lemma_output_grows(w: WriterView, e: crate::ir_markup::EventView)
    requires
        writer_ok(w),
    ensures
        apply(w, e).buf.len() >= w.buf.len(),
{
    match e {
        crate::ir_markup::EventView::Start { container, attributes } => {
            match container {
                ContainerView::Footnote { label } => {
                    lemma_position_bounds(w.footnotes, label, 0);
                },
                _ => {},
            }
        },
        _ => {},
    }
}

/// No sequence of events takes back what has been written to the main output.
pub proof fn lemma_output_grows_all(w: WriterView, events: Seq<crate::ir_markup::EventView>)
    requires
        writer_ok(w),
    ensures
        apply_all(w, events).buf.len() >= w.buf.len(),
        writer_ok(apply_all(w, events)),
    decreases events.len(),
{
    if events.len() > 0 {
        lemma_output_grows_all(w, events.drop_last());
        lemma_event_keeps_state_ok(apply_all(w, events.drop_last()), events.last());
        lemma_output_grows(apply_all(w, events.drop_last()), events.last());
    }
}

/// The start of a paragraph outside of tight lists and of footnote definitions adds its
/// tag to the main output.
pub proof fn lemma_paragraph_is_written(w: WriterView, attributes: AttributeSeq)
    requires
        w.target is None,
        !in_tight_list(w),
    ensures
        start_tag(w, ContainerView::Paragraph, attributes).buf.len() > w.buf.len(),
        start_tag(w, ContainerView::Paragraph, attributes).target is None,
{
    reveal_strlit("<");
}

/// Outside of footnote definitions the writer writes to the main output: after a
/// well-nested sequence of events in which no footnote definition stays open, a writer
/// that wrote to the main output does so again.
pub proof fn lemma_target_is_main(w: WriterView, events: Seq<crate::ir_markup::EventView>)
    requires
        writer_ok(w),
        w.target is None,
        well_nested(events),
        !holds_footnote(open_containers(events)->0),
    ensures
        apply_all(w, events).target is None,
    decreases events.len(),
{
    if events.len() > 0 {
        let before = events.drop_last();
        let open = open_containers(before)->0;
        let after = open_containers(events)->0;
        lemma_output_grows_all(w, before);
        let s = apply_all(w, before);
        match events.last() {
            crate::ir_markup::EventView::Start { container, attributes } => {
                assert(after == open.push(container));
                assert(after[after.len() - 1] == container);
                assert(!(container is Footnote));
                if holds_footnote(open) {
                    let i = choose|i: int| 0 <= i < open.len() && #[trigger] open[i] is Footnote;
                    assert(after[i] is Footnote);
                }
                lemma_target_is_main(w, before);
            },
            crate::ir_markup::EventView::End { container } => {
                if !(container is Footnote) {
                    assert(!(open.last() is Footnote));
                    if holds_footnote(open) {
                        let i = choose|i: int|
                            0 <= i < open.len() && #[trigger] open[i] is Footnote;
                        assert(i < open.len() - 1);
                        assert(after[i] is Footnote);
                    }
                    lemma_target_is_main(w, before);
                }
            },
            _ => {
                lemma_target_is_main(w, before);
            },
        }
    }
}

} // verus!
