use crate::bits::MAX_BITS;
use crate::ctx::{absolute_url, Ctx};
use crate::figure::{figure_pass, figure_pass_events};
use crate::highlight::Highlighter;
use crate::ir_markup::{
    events_view, warnings_view, Container, ContainerEnd, ContainerEndView, ContainerView, Error,
    ErrorView, Event, EventView, Warning, WarningView,
};
use crate::math::MathBackend;
use crate::order::same_text;
use crate::passes::{
    code_pass, code_pass_events, code_result_view, image_pass, image_pass_events,
    image_pass_warnings, is_code_pass_of, math_pass, math_pass_events, OutcomeView,
};
use crate::table::Table;
use crate::types::Images;
use crate::utils::parts_view;
use crate::writer::{
    apply_all, finished_text, finished_warnings, initial, Writer, WriterView,
};
use vstd::prelude::*;
use vstd::string::*;

verus! {

/// Walks through the pages that a list of items is divided into.
#[derive(Clone, Debug)]
pub struct Paginator {
    item_count: usize,
    per_page: u32,
    current_page: u32,
    last_page: u32,
    page_permalinks: Vec<String>,
}

/// The number of the last page, the first one being page zero.
pub open spec fn last_page_of(item_count: nat, per_page: nat) -> nat
    recommends
        per_page > 0,
{
    item_count / per_page
}

/// Whether `link` is the absolute URL of a path that `page_path` gives for `page`.
pub open spec fn is_page_link<F: Fn(u32) -> Vec<String>>(
    page_path: F,
    ctx: &Ctx,
    page: u32,
    link: Seq<char>,
) -> bool {
    exists|path: Vec<String>| #[trigger]
        page_path.ensures((page,), path) && link == absolute_url(
            ctx.base(),
            ctx.trims_index_html(),
            parts_view(path@),
        )
}

impl Paginator {
    pub closed spec fn items(&self) -> nat {
        self.item_count as nat
    }

    pub closed spec fn page_size(&self) -> nat {
        self.per_page as nat
    }

    pub closed spec fn current(&self) -> nat {
        self.current_page as nat
    }

    pub closed spec fn last(&self) -> nat {
        self.last_page as nat
    }

    pub closed spec fn permalinks(&self) -> Seq<Seq<char>> {
        self.page_permalinks@.map_values(|link: String| link@)
    }

    /// A paginator that stands on the first page. `page_path` gives the path of each
    /// page, by its parts; the paginator keeps the absolute URL of every page.
    pub fn new<F: Fn(u32) -> Vec<String>>(ctx: &Ctx, per_page: u32, item_count: usize, page_path: F) -> (p:
        Paginator)
        requires
            per_page > 0,
            last_page_of(item_count as nat, per_page as nat) <= u32::MAX,
            forall|page: u32| page_path.requires((page,)),
        ensures
            p.items() == item_count,
            p.page_size() == per_page,
            p.current() == 0,
            p.last() == last_page_of(item_count as nat, per_page as nat),
            p.permalinks().len() == p.last() + 1,
            p.on_a_page(),
            forall|page: int|
                0 <= page <= p.last() ==> is_page_link(
                    page_path,
                    ctx,
                    page as u32,
                    #[trigger] p.permalinks()[page],
                ),
    {
        let last_page = (item_count / (per_page as usize)) as u32;
        let mut page_permalinks: Vec<String> = Vec::new();
        let mut page: u32 = 0;
        loop
            invariant_except_break
                page <= last_page,
                page_permalinks@.len() == page,
            invariant
                forall|q: u32| page_path.requires((q,)),
                forall|q: int|
                    0 <= q < page_permalinks@.len() ==> is_page_link(
                        page_path,
                        ctx,
                        q as u32,
                        (#[trigger] page_permalinks@[q])@,
                    ),
            ensures
                page_permalinks@.len() == last_page + 1,
            decreases last_page - page,
        {
            let path = page_path(page);
            let link = ctx.path_to_absolute_url(&path);
            assert(is_page_link(page_path, ctx, page, link@));
            page_permalinks.push(link);
            if page == last_page {
                break ;
            }
            page += 1;
        }
        let p = Paginator { item_count, per_page, current_page: 0, last_page, page_permalinks };
        assert forall|q: int| 0 <= q <= p.last() implies is_page_link(
            page_path,
            ctx,
            q as u32,
            #[trigger] p.permalinks()[q],
        ) by {
            assert(p.permalinks()[q] == p.page_permalinks@[q]@);
        }
        p
    }

    /// The number of the page at hand, the first one being page zero.
    pub fn current_page(&self) -> (page: u32)
        ensures
            page == self.current(),
    {
        self.current_page
    }

    /// The number of the last page.
    pub fn last_page(&self) -> (page: u32)
        ensures
            page == self.last(),
    {
        self.last_page
    }

    /// The addresses of the pages, the first page first.
    pub fn page_permalinks(&self) -> (links: &Vec<String>)
        ensures
            links@.map_values(|link: String| link@) == self.permalinks(),
    {
        &self.page_permalinks
    }

    /// Goes on to the next page. Returns whether there is such a page.
    pub fn paginate(&mut self) -> (more: bool)
        requires
            old(self).current() < u32::MAX,
        ensures
            final(self).current() == old(self).current() + 1,
            final(self).items() == old(self).items(),
            final(self).page_size() == old(self).page_size(),
            final(self).last() == old(self).last(),
            final(self).permalinks() == old(self).permalinks(),
            more == (final(self).current() <= final(self).last()),
            old(self).on_a_page() && more ==> final(self).on_a_page(),
    {
        self.current_page += 1;
        self.current_page <= self.last_page
    }
}

/// The part of a list of items that a page shows.
#[derive(Clone, Debug, PartialEq, Eq)]
pub struct PageWindow {
    pub item_count: usize,
    /// The number of pages.
    pub page_count: u64,
    pub current_page: u32,
    /// The position of the first item of the page.
    pub page_start: usize,
    /// The position behind the last item of the page.
    pub page_end: usize,
    pub is_first_page: bool,
    pub is_last_page: bool,
    /// The address of the page before this one.
    pub previous: Option<String>,
    /// The address of the page after this one.
    pub next: Option<String>,
}

impl Paginator {
    /// The paginator holds an address for every page and stands on one of them.
    pub closed spec fn on_a_page(&self) -> bool {
        &&& self.per_page > 0
        &&& self.last_page == self.item_count / (self.per_page as usize)
        &&& self.page_permalinks@.len() == self.last_page + 1
        &&& self.current_page <= self.last_page
    }

    /// What the page at hand shows: the items from `page_start` up to `page_end`, and
    /// the addresses of the pages next to it.
    pub fn window(&self) -> (w: PageWindow)
        requires
            self.on_a_page(),
        ensures
            w.item_count == self.items(),
            w.page_count == self.last() + 1,
            w.current_page == self.current(),
            w.page_start == self.current() * self.page_size(),
            w.page_end == if w.page_start + self.page_size() < self.items() {
                w.page_start + self.page_size()
            } else {
                self.items() as int
            },
            w.is_first_page == (self.current() == 0),
            w.is_last_page == (self.current() == self.last()),
            match w.previous {
                Some(link) => !w.is_first_page && link@ == self.permalinks()[self.current() - 1],
                None => w.is_first_page,
            },
            match w.next {
                Some(link) => !w.is_last_page && link@ == self.permalinks()[(self.current() + 1) as int],
                None => w.is_last_page,
            },
    {
        let per_page = self.per_page as usize;
        let current = self.current_page as usize;
        assert(current * per_page <= self.item_count) by (nonlinear_arith)
            requires
                current <= self.item_count / per_page,
                per_page > 0,
        {}
        let page_start = current * per_page;
        let page_end = if self.item_count - page_start > per_page {
            page_start + per_page
        } else {
            self.item_count
        };
        let is_first_page = self.current_page == 0;
        let is_last_page = self.current_page == self.last_page;
        let previous = if is_first_page {
            None
        } else {
            Some(self.page_permalinks[current - 1].clone())
        };
        let next = if is_last_page {
            None
        } else {
            Some(self.page_permalinks[current + 1].clone())
        };
        PageWindow {
            item_count: self.item_count,
            page_count: self.last_page as u64 + 1,
            current_page: self.current_page,
            page_start,
            page_end,
            is_first_page,
            is_last_page,
            previous,
            next,
        }
    }
}

/// A number with zeros in front of it where it has fewer digits than asked for.
pub open spec fn zero_padded(number: nat, digits: nat) -> Seq<char> {
    let written = crate::text::decimal(number);
    if written.len() < digits {
        Seq::new((digits - written.len()) as nat, |i: int| '0') + written
    } else {
        written
    }
}

/// Writes a number with at least `digits` digits, with zeros in front where it has
/// fewer.
pub fn leading_zeros(number: u64, digits: u8) -> (s: String)
    ensures
        s@ == zero_padded(number as nat, digits as nat),
{
    let mut written = String::new();
    crate::text::push_decimal(&mut written, number);
    assert(written@ =~= crate::text::decimal(number as nat));
    let length = written.unicode_len();
    let mut s = String::new();
    let mut zeros: usize = 0;
    let missing: usize = if length < digits as usize {
        digits as usize - length
    } else {
        0
    };
    assert(s@ =~= Seq::new(0, |i: int| '0'));
    while zeros < missing
        invariant
            zeros <= missing,
            s@ == Seq::new(zeros as nat, |i: int| '0'),
        decreases missing - zeros,
    {
        crate::text::push_char(&mut s, '0');
        assert(s@ =~= Seq::new((zeros + 1) as nat, |i: int| '0'));
        zeros += 1;
    }
    s.append(written.as_str());
    proof {
        if length >= digits {
            assert(s@ =~= written@);
        }
    }
    s
}

/// Whether the three events from position `i` on are a paragraph that holds the marker
/// `-more-` and nothing else.
pub open spec fn is_more_marker(events: Seq<EventView>, i: int) -> bool {
    &&& 0 <= i
    &&& i + 2 < events.len()
    &&& events[i] matches EventView::Start { container: ContainerView::Paragraph, attributes }
    &&& events[i + 1] == EventView::Str("-more-"@)
    &&& events[i + 2] == (EventView::End { container: ContainerEndView::Paragraph })
}

/// The position of the first marker from `i` on; the length of the document where
/// there is none.
pub open spec fn marker_position(events: Seq<EventView>, i: int) -> int
    decreases events.len() - i,
{
    if i < 0 || i >= events.len() {
        events.len() as int
    } else if is_more_marker(events, i) {
        i
    } else {
        marker_position(events, i + 1)
    }
}

/// The state of the writer at the end of a document. At the marker the writer goes on
/// with an empty output and keeps everything else that it remembers.
pub open spec fn split_state(events: Seq<EventView>) -> WriterView {
    let m = marker_position(events, 0);
    if m < events.len() {
        apply_all(
            WriterView { buf: Seq::empty(), ..apply_all(initial(Seq::empty()), events.take(m)) },
            events.skip(m + 3),
        )
    } else {
        apply_all(initial(Seq::empty()), events)
    }
}

/// The summary of a document: what stands before the marker. A document without marker
/// is all summary.
pub open spec fn summary_text(events: Seq<EventView>) -> Seq<char> {
    let m = marker_position(events, 0);
    if m < events.len() {
        apply_all(initial(Seq::empty()), events.take(m)).buf
    } else {
        finished_text(split_state(events))
    }
}

/// The rest of a document: what stands behind the marker, with the footnotes of the
/// whole document. Empty for a document without marker.
pub open spec fn rest_text(events: Seq<EventView>) -> Seq<char> {
    if marker_position(events, 0) < events.len() {
        finished_text(split_state(events))
    } else {
        Seq::empty()
    }
}

/// A document without marker is all summary: the summary is the whole document as the
/// writer renders it, and the rest is empty.
pub proof fn lemma_no_marker_no_rest(events: Seq<EventView>)
    requires
        forall|i: int| !is_more_marker(events, i),
    ensures
        summary_text(events) == crate::writer::rendered(Seq::empty(), events),
        rest_text(events) == Seq::<char>::empty(),
{
    lemma_marker_position_without_marker(events, 0);
}

proof fn lemma_marker_position_without_marker(events: Seq<EventView>, i: int)
    requires
        0 <= i <= events.len(),
        forall|j: int| !is_more_marker(events, j),
    ensures
        marker_position(events, i) == events.len(),
    decreases events.len() - i,
{
    if i < events.len() {
        lemma_marker_position_without_marker(events, i + 1);
    }
}

/// Whether the event adds text to the output whatever the writer has written before,
/// as long as it stands outside of footnote definitions and of tight lists. The start
/// of a footnote definition does not: it is written among the footnotes. Text does so
/// unless it is empty.
pub open spec fn adds_text(e: EventView) -> bool {
    match e {
        EventView::Start { container, attributes } => !(container is Footnote),
        EventView::Str(s) => s.len() > 0,
        EventView::HtmlInline { content, attributes } => content.len() > 0 || attributes.len()
            > 0,
        _ => true,
    }
}

/// Whether the innermost list among the containers is tight.
pub open spec fn in_tight(open: Seq<ContainerView>) -> bool {
    crate::laws::tight_flags(open).len() > 0 && crate::laws::tight_flags(open).last()
}

/// Whether the document has the marker at a place where it can be split: it starts
/// with an event that adds text and has such an event behind the marker, and the marker
/// stands where every end so far closed the container opened last, outside of footnote
/// definitions and of tight lists.
pub open spec fn has_two_parts(events: Seq<EventView>) -> bool {
    let m = marker_position(events, 0);
    &&& 0 < m
    &&& m + 3 < events.len()
    &&& adds_text(events[0])
    &&& adds_text(events[m + 3])
    &&& crate::laws::well_nested(events.take(m))
    &&& !crate::laws::holds_footnote(crate::laws::open_containers(events.take(m))->0)
    &&& !in_tight(crate::laws::open_containers(events.take(m))->0)
}

/// Whether the document has no marker and starts with an event that adds text.
pub open spec fn has_one_part(events: Seq<EventView>) -> bool {
    &&& forall|i: int| !is_more_marker(events, i)
    &&& events.len() > 0
    &&& adds_text(events[0])
}

/// A document with the marker at a place where it can be split has a summary and a rest
/// of which neither is empty.
pub proof fn lemma_split_parts_are_not_empty(events: Seq<EventView>)
    requires
        has_two_parts(events),
    ensures
        summary_text(events).len() > 0,
        rest_text(events).len() > 0,
{
    let m = marker_position(events, 0);
    let before = events.take(m);
    let after = events.skip(m + 3);
    let start = initial(Seq::empty());
    lemma_first_event_adds_text(start, before);
    let s = apply_all(start, before);
    crate::laws::lemma_output_grows_all(start, before);
    crate::laws::lemma_open_lists_decide(Seq::empty(), before);
    crate::laws::lemma_target_is_main(start, before);
    let t = WriterView { buf: Seq::empty(), ..s };
    lemma_first_event_adds_text(t, after);
    lemma_finish_keeps_output(apply_all(t, after));
}

/// A document without marker that starts with an event that adds text has a summary
/// that is not empty, and its rest is empty.
pub proof fn lemma_summary_is_not_empty(events: Seq<EventView>)
    requires
        has_one_part(events),
    ensures
        summary_text(events).len() > 0,
        rest_text(events).len() == 0,
{
    lemma_no_marker_no_rest(events);
    let start = initial(Seq::empty());
    lemma_first_event_adds_text(start, events);
    lemma_finish_keeps_output(apply_all(start, events));
}

/// Escaped text is at least as long as the text.
proof fn lemma_escaped_is_not_shorter(s: Seq<char>)
    ensures
        crate::text::escape_body(s).len() >= s.len(),
    decreases s.len(),
{
    reveal_strlit("&lt;");
    reveal_strlit("&gt;");
    reveal_strlit("&amp;");
    reveal_strlit("&quot;");
    reveal_strlit("&#x27;");
    if s.len() > 0 {
        lemma_escaped_is_not_shorter(s.drop_last());
    }
}

/// Outside of tight lists and of footnote definitions an event that adds text makes the
/// main output longer.
proof fn lemma_event_adds_text(w: WriterView, e: EventView)
    requires
        crate::writer::writer_ok(w),
        w.target is None,
        !crate::writer::in_tight_list(w),
        adds_text(e),
    ensures
        crate::writer::apply(w, e).buf.len() > w.buf.len(),
{
    reveal_strlit("<");
    reveal_strlit("</");
    reveal_strlit("\n");
    reveal_strlit("<sup class=\"footnote-reference\">");
    match e {
        EventView::Start { container, attributes } => {
            match container {
                ContainerView::List { kind, tight } => {
                    match kind {
                        crate::ir_markup::ListKind::Ordered { numbering, start } => {},
                        _ => {},
                    }
                },
                _ => {},
            }
        },
        EventView::End { container } => {
            lemma_end_text_is_not_empty(container);
        },
        EventView::Str(s) => {
            lemma_escaped_is_not_shorter(s);
        },
        _ => {},
    }
}

/// What closes a container is not empty.
proof fn lemma_end_text_is_not_empty(c: ContainerEndView)
    ensures
        crate::markup::end_text(c).len() > 0,
{
    reveal_strlit("</blockquote>");
    reveal_strlit("</dl>\n");
    reveal_strlit("</dt>");
    reveal_strlit("</dd>");
    reveal_strlit("</a></");
    reveal_strlit("</section>\n");
    reveal_strlit("</div>\n");
    reveal_strlit("</p>\n");
    reveal_strlit("</a>");
    reveal_strlit("</ol>\n");
    reveal_strlit("</ul>\n");
    reveal_strlit("</li>\n");
    reveal_strlit("</table>\n");
    reveal_strlit("</thead>\n");
    reveal_strlit("</tbody>\n");
    reveal_strlit("</tr>\n");
    reveal_strlit("</th>\n");
    reveal_strlit("</td>\n");
    reveal_strlit("</");
}

/// A writer that stands outside of tight lists and footnote definitions and takes a
/// sequence of events that starts with one that adds text has written something
/// afterwards.
proof fn lemma_first_event_adds_text(w: WriterView, events: Seq<EventView>)
    requires
        crate::writer::writer_ok(w),
        w.target is None,
        !crate::writer::in_tight_list(w),
        events.len() > 0,
        adds_text(events[0]),
    ensures
        apply_all(w, events).buf.len() > w.buf.len(),
    decreases events.len(),
{
    if events.len() == 1 {
        assert(events.drop_last() =~= Seq::<EventView>::empty());
        assert(apply_all(w, events.drop_last()) == w);
        lemma_event_adds_text(w, events[0]);
    } else {
        let before = events.drop_last();
        assert(before[0] == events[0]);
        lemma_first_event_adds_text(w, before);
        crate::laws::lemma_output_grows_all(w, before);
        crate::laws::lemma_output_grows(apply_all(w, before), events.last());
    }
}

/// What is written at the end of a document is added to the main output.
proof fn lemma_finish_keeps_output(w: WriterView)
    ensures
        finished_text(w).len() >= w.buf.len(),
{
    if w.footnotes.len() > 0 {
        lemma_footnotes_keep_output(
            w.buf + "<hr><aside class=\"footnotes\" role=\"doc-endnotes\"><ol>"@,
            w.footnotes,
        );
    }
}

proof fn lemma_footnotes_keep_output(buf: Seq<char>, fs: Seq<crate::writer::FootnoteView>)
    ensures
        crate::writer::footnotes_text(buf, fs).len() >= buf.len(),
    decreases fs.len(),
{
    if fs.len() > 0 {
        lemma_footnotes_keep_output(buf, fs.drop_last());
    }
}

/// A document as HTML.
#[derive(Clone, Debug, PartialEq, Eq)]
pub struct Rendered {
    pub summary: String,
    pub rest: String,
    pub warnings: Vec<Warning>,
}

fn is_marker_at(events: &Vec<Event>, i: usize) -> (r: bool)
    requires
        i < events@.len(),
    ensures
        r == is_more_marker(events_view(events@), i as int),
{
    let ghost evs = events_view(events@);
    if events.len() - i < 3 {
        return false;
    }
    assert(evs[i as int] == events@[i as int]@);
    assert(evs[i + 1] == events@[i + 1]@);
    assert(evs[i + 2] == events@[i + 2]@);
    let opens = match &events[i] {
        Event::Start { container: Container::Paragraph, attributes } => true,
        _ => false,
    };
    let marks = match &events[i + 1] {
        Event::Str(s) => same_text(s.as_str(), "-more-"),
        _ => false,
    };
    let closes = match &events[i + 2] {
        Event::End { container: ContainerEnd::Paragraph } => true,
        _ => false,
    };
    opens && marks && closes
}

/// The position of the first marker of a document; its length where there is none.
pub fn find_marker(events: &Vec<Event>) -> (m: usize)
    ensures
        m == marker_position(events_view(events@), 0),
        m <= events@.len(),
        m < events@.len() ==> m + 3 <= events@.len(),
{
    let mut i: usize = 0;
    while i < events.len()
        invariant
            i <= events@.len(),
            marker_position(events_view(events@), 0) == marker_position(
                events_view(events@),
                i as int,
            ),
        decreases events@.len() - i,
    {
        if is_marker_at(events, i) {
            return i;
        }
        i += 1;
    }
    i
}

/// Renders a document in two parts, split at the first paragraph that holds the marker
/// `-more-` and nothing else. Without such a paragraph the second part is empty. Where
/// text stands before the marker and behind it, neither part is empty.
pub fn render_events(events: &Vec<Event>) -> (r: Rendered)
    requires
        events@.len() <= MAX_BITS,
    ensures
        r.summary@ == summary_text(events_view(events@)),
        r.rest@ == rest_text(events_view(events@)),
        warnings_view(r.warnings@) == finished_warnings(split_state(events_view(events@))),
        has_two_parts(events_view(events@)) ==> r.summary@.len() > 0 && r.rest@.len() > 0,
        has_one_part(events_view(events@)) ==> r.summary@.len() > 0 && r.rest@.len() == 0,
{
    let ghost evs = events_view(events@);
    proof {
        if has_two_parts(evs) {
            lemma_split_parts_are_not_empty(evs);
        }
        if has_one_part(evs) {
            lemma_summary_is_not_empty(evs);
        }
    }
    let n = events.len();
    let m = find_marker(events);
    let mut writer = Writer::new(String::new());
    if m < n {
        writer.apply_range(events, 0, m);
        assert(evs.subrange(0, m as int) =~= evs.take(m as int));
        let summary = writer.take_output();
        writer.apply_range(events, m + 3, n);
        assert(evs.subrange(m + 3, n as int) =~= evs.skip(m + 3));
        let (rest, warnings) = writer.finish();
        Rendered { summary, rest, warnings }
    } else {
        writer.apply_all(events);
        let (summary, warnings) = writer.finish();
        Rendered { summary, rest: String::new(), warnings }
    }
}

/// Whether `r` is what the rewrite passes make of a document when the highlighter
/// answers with `outcomes`. The passes run in this order: figures, images, formulas,
/// code. The first error ends the run; the warnings of the image pass come before those
/// of the code pass.
pub open spec fn is_rewrite_of(
    highlighter: Highlighter,
    events: Seq<EventView>,
    images: Map<Seq<char>, Images>,
    backend: MathBackend,
    outcomes: Seq<OutcomeView>,
    r: Result<(Seq<EventView>, Seq<WarningView>), ErrorView>,
) -> bool {
    let figured = figure_pass_events(events);
    let imaged = image_pass_events(figured, images);
    match math_pass_events(imaged, backend) {
        Err(e) => r == Err::<(Seq<EventView>, Seq<WarningView>), ErrorView>(e),
        Ok(mathed) => is_code_pass_of(
            highlighter,
            mathed,
            outcomes,
            code_pass_events(mathed, outcomes),
        )
            && match code_pass_events(mathed, outcomes) {
            Err(e) => r == Err::<(Seq<EventView>, Seq<WarningView>), ErrorView>(e),
            Ok(coded) => r == Ok::<(Seq<EventView>, Seq<WarningView>), ErrorView>(
                (coded.0, image_pass_warnings(figured, images) + coded.1),
            ),
        },
    }
}

/// Runs the rewrite passes on a document: figures, images, formulas, code.
pub fn rewrite(
    events: &Vec<Event>,
    images: &Table<Images>,
    highlighter: &Highlighter,
    backend: MathBackend,
) -> (r: Result<(Vec<Event>, Vec<Warning>), Error>)
    ensures
        exists|outcomes: Seq<OutcomeView>| #[trigger]
            is_rewrite_of(
                *highlighter,
                events_view(events@),
                images@,
                backend,
                outcomes,
                code_result_view(r),
            ),
{
    let figured = figure_pass(events);
    let (imaged, mut warnings) = image_pass(&figured, images);
    let mathed = match math_pass(&imaged, backend) {
        Ok(mathed) => mathed,
        Err(e) => {
            let r = Err(e);
            assert(is_rewrite_of(
                *highlighter,
                events_view(events@),
                images@,
                backend,
                Seq::empty(),
                code_result_view(r),
            ));
            return r;
        },
    };
    let coded = code_pass(&mathed, highlighter);
    let ghost outcomes = choose|outcomes: Seq<OutcomeView>| #[trigger]
        is_code_pass_of(*highlighter, events_view(mathed@), outcomes, code_result_view(coded));
    let r = match coded {
        Ok((coded, mut more)) => {
            let ghost first = warnings_view(warnings@);
            let ghost second = warnings_view(more@);
            warnings.append(&mut more);
            assert(warnings_view(warnings@) =~= first + second);
            Ok((coded, warnings))
        },
        Err(e) => Err(e),
    };
    assert(is_rewrite_of(
        *highlighter,
        events_view(events@),
        images@,
        backend,
        outcomes,
        code_result_view(r),
    ));
    r
}

/// What rendering makes of the events that the rewrite passes produced, with the
/// warnings that they gave.
pub open spec fn render_result(rewritten: Result<(Seq<EventView>, Seq<WarningView>), ErrorView>) -> Result<
    (Seq<char>, Seq<char>, Seq<WarningView>),
    ErrorView,
> {
    match rewritten {
        Err(e) => Err(e),
        Ok(out) => if out.0.len() > MAX_BITS {
            Err(ErrorView::TooLong)
        } else {
            Ok(
                (
                    summary_text(out.0),
                    rest_text(out.0),
                    out.1 + finished_warnings(split_state(out.0)),
                ),
            )
        },
    }
}

/// A rendered document, or the error that ended the rendering, as a mathematical value.
pub open spec fn rendered_view(r: Result<Rendered, Error>) -> Result<
    (Seq<char>, Seq<char>, Seq<WarningView>),
    ErrorView,
> {
    match r {
        Ok(rendered) => Ok((rendered.summary@, rendered.rest@, warnings_view(rendered.warnings@))),
        Err(e) => Err(e@),
    }
}

/// Whether `r` is what rendering makes of a document when the highlighter answers with
/// `outcomes`.
pub open spec fn is_render_of(
    highlighter: Highlighter,
    events: Seq<EventView>,
    images: Map<Seq<char>, Images>,
    backend: MathBackend,
    outcomes: Seq<OutcomeView>,
    r: Result<(Seq<char>, Seq<char>, Seq<WarningView>), ErrorView>,
) -> bool {
    exists|rewritten: Result<(Seq<EventView>, Seq<WarningView>), ErrorView>|
        #[trigger] is_rewrite_of(highlighter, events, images, backend, outcomes, rewritten) && r
            == render_result(rewritten)
}

/// Renders a document: runs the rewrite passes and writes out what they produce, split
/// at the marker `-more-`.
pub fn render(
    events: &Vec<Event>,
    images: &Table<Images>,
    highlighter: &Highlighter,
    backend: MathBackend,
) -> (r: Result<Rendered, Error>)
    ensures
        exists|outcomes: Seq<OutcomeView>| #[trigger]
            is_render_of(
                *highlighter,
                events_view(events@),
                images@,
                backend,
                outcomes,
                rendered_view(r),
            ),
{
    let rewritten = rewrite(events, images, highlighter, backend);
    let ghost outcomes = choose|outcomes: Seq<OutcomeView>| #[trigger]
        is_rewrite_of(
            *highlighter,
            events_view(events@),
            images@,
            backend,
            outcomes,
            code_result_view(rewritten),
        );
    let ghost rw = code_result_view(rewritten);
    let r = match rewritten {
        Err(e) => Err(e),
        Ok((events, mut warnings)) => {
            if events.len() > MAX_BITS {
                Err(Error::TooLong)
            } else {
                let Rendered { summary, rest, warnings: mut more } = render_events(&events);
                let ghost first = warnings_view(warnings@);
                let ghost second = warnings_view(more@);
                warnings.append(&mut more);
                assert(warnings_view(warnings@) =~= first + second);
                Ok(Rendered { summary, rest, warnings })
            }
        },
    };
    assert(rendered_view(r) == render_result(rw));
    assert(is_render_of(
        *highlighter,
        events_view(events@),
        images@,
        backend,
        outcomes,
        rendered_view(r),
    ));
    r
}

} // verus!
