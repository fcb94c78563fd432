//! The CommonMark adapter: turns the events of a CommonMark parser into the intermediate
//! representation.

use crate::attributes::{
    attrs_insert, AttributeSeq, AttributeValue, AttributeValueView, Attributes,
};
use crate::ir_markup::{
    end_of, events_view, push_event, Alignment, Container, ContainerEnd, ContainerEndView,
    ContainerView, Event, EventView, ListKind, OrderedListNumbering,
};
use crate::laws::{balanced, open_containers};
use crate::span::Nesting;
use vstd::prelude::*;
use vstd::string::*;

verus! {

/// The start of an element of a CommonMark document, with what the adapter reads of it.
#[derive(Clone, Debug)]
pub enum MarkdownTag {
    Paragraph,
    /// A heading of level one to six, with the identifier that its attributes give.
    Heading { level: u16, id: Option<String> },
    BlockQuote,
    /// A block of code. An indented block has no language.
    CodeBlock { language: String },
    HtmlBlock,
    /// A list; an ordered one gives the number of its first item.
    List { start: Option<u64> },
    Item,
    FootnoteDefinition { label: String },
    /// A table with the alignment of each column.
    Table { alignments: Vec<Alignment> },
    TableHead,
    TableRow,
    TableCell,
    Emphasis,
    Strong,
    Strikethrough,
    Link { dest_url: String, title: String },
    Image { dest_url: String, title: String },
    MetadataBlock,
}

/// The end of an element of a CommonMark document.
#[derive(Clone, Copy, Debug, PartialEq, Eq, Structural)]
pub enum MarkdownTagEnd {
    Paragraph,
    Heading { level: u16 },
    BlockQuote,
    CodeBlock,
    HtmlBlock,
    List { ordered: bool },
    Item,
    FootnoteDefinition,
    Table,
    TableHead,
    TableRow,
    TableCell,
    Emphasis,
    Strong,
    Strikethrough,
    Link,
    Image,
    MetadataBlock,
}

/// An event of a CommonMark document.
#[derive(Clone, Debug)]
pub enum MarkdownEvent {
    Start(MarkdownTag),
    End(MarkdownTagEnd),
    Text(String),
    Code(String),
    Html(String),
    InlineHtml(String),
    FootnoteReference(String),
    SoftBreak,
    HardBreak,
    Rule,
    TaskListMarker(bool),
}

/// What a CommonMark event does to the nesting depth.
pub open spec fn markdown_nesting(e: MarkdownEvent) -> Nesting {
    match e {
        MarkdownEvent::Start(tag) => Nesting::Opens,
        MarkdownEvent::End(tag) => Nesting::Closes,
        _ => Nesting::Leaf,
    }
}

/// Whether the content of an element is taken as one text, not as events.
pub open spec fn absorbs(tag: MarkdownTag) -> bool {
    tag is CodeBlock || tag is Image
}

/// What an event inside an absorbed element adds to its text: only text counts.
pub open spec fn raw_piece(e: MarkdownEvent) -> Seq<char> {
    match e {
        MarkdownEvent::Text(s) => s@,
        _ => Seq::empty(),
    }
}

/// The attributes of a link or an image with the given title: an empty title is left out.
pub open spec fn title_attrs(title: Seq<char>) -> AttributeSeq {
    if title.len() == 0 {
        Seq::empty()
    } else {
        attrs_insert(Seq::empty(), "title"@, AttributeValueView::Raw(title))
    }
}

/// The event that an absorbed element becomes once its text is complete.
pub open spec fn absorbed(tag: MarkdownTag, text: Seq<char>) -> Seq<EventView> {
    match tag {
        MarkdownTag::CodeBlock { language } => seq![
            EventView::CodeBlock { language: language@, code: text, attributes: Seq::empty() },
        ],
        MarkdownTag::Image { dest_url, title } => seq![
            EventView::Image { destination: dest_url@, alt: text, attributes: title_attrs(title@) },
        ],
        _ => Seq::empty(),
    }
}

/// An absorbed element becomes one event at most, and never the start or the end of a
/// container: what it held is text of that one event.
pub proof fn lemma_absorbed_is_leaf(tag: MarkdownTag, text: Seq<char>)
    ensures
        absorbed(tag, text).len() <= 1,
        forall|i: int|
            0 <= i < absorbed(tag, text).len() ==> crate::span::nesting_of(
                #[trigger] absorbed(tag, text)[i],
            ) is Leaf,
{
}

/// Every section that stays open was opened by a heading of a lesser level than the
/// heading that starts, and those sections are the outermost ones.
pub proof fn lemma_sections_kept(sections: Seq<u16>, level: u16)
    ensures
        sections_kept(sections, level).len() <= sections.len(),
        sections_kept(sections, level) == sections.take(sections_kept(sections, level).len() as int),
        sections_kept(sections, level).len() > 0 ==> sections_kept(sections, level).last() < level,
        forall|i: int|
            sections_kept(sections, level).len() <= i < sections.len() ==> sections[i] >= level,
    decreases sections.len(),
{
    if sections.len() > 0 && sections.last() >= level {
        lemma_sections_kept(sections.drop_last(), level);
        let kept = sections_kept(sections.drop_last(), level);
        assert(sections.drop_last().take(kept.len() as int) =~= sections.take(kept.len() as int));
        assert forall|i: int| kept.len() <= i < sections.len() implies sections[i] >= level by {
            if i < sections.len() - 1 {
                assert(sections.drop_last()[i] == sections[i]);
            }
        }
    } else {
        assert(sections.take(sections.len() as int) =~= sections);
    }
}

/// The levels of the sections that stay open when a heading of the given level starts:
/// every section opened by a heading of that level or a deeper one is closed.
pub open spec fn sections_kept(sections: Seq<u16>, level: u16) -> Seq<u16>
    decreases sections.len(),
{
    if sections.len() > 0 && sections.last() >= level {
        sections_kept(sections.drop_last(), level)
    } else {
        sections
    }
}

pub open spec fn start_of(container: ContainerView) -> EventView {
    EventView::Start { container, attributes: Seq::empty() }
}

pub open spec fn end_with(container: ContainerEndView) -> EventView {
    EventView::End { container }
}

pub open spec fn raw_html(content: Seq<char>) -> EventView {
    EventView::HtmlInline { content, attributes: Seq::empty() }
}

/// The ends of `n` sections.
pub open spec fn section_ends(n: nat) -> Seq<EventView> {
    Seq::new(n, |i: int| end_with(ContainerEndView::Section))
}

/// The identifier of a heading: empty where none is given.
pub open spec fn heading_id(id: Option<String>) -> Seq<char> {
    match id {
        Some(id) => id@,
        None => Seq::empty(),
    }
}

/// The alignment of the column with the given number: unspecified where the table says
/// nothing of it.
pub open spec fn column_alignment(alignments: Seq<Alignment>, cell: nat) -> Alignment {
    if cell < alignments.len() {
        alignments[cell as int]
    } else {
        Alignment::Unspecified
    }
}

/// The checkbox that marks a task as done or not done.
pub open spec fn task_marker(checked: bool) -> Seq<char> {
    if checked {
        "\n<input type=\"checkbox\" disabled=\"\" checked=\"\">\n"@
    } else {
        "\n<input type=\"checkbox\" disabled=\"\">\n"@
    }
}

/// What the adapter remembers of an element that is open.
pub enum FrameView {
    /// A table: the alignment of each of its columns, and whether its body has been
    /// opened.
    Table { alignments: Seq<Alignment>, body_open: bool },
    /// The head of a table or a row: whether it is the head, and how many of its cells
    /// have ended.
    Row { head: bool, cells: usize },
    /// A cell, and whether it was opened as a cell of a head.
    Cell { head: bool },
    /// Any other element.
    Other,
}

/// What the adapter remembers between two events.
pub struct ContextView {
    /// What is remembered of the elements that are open, outermost first.
    pub frames: Seq<FrameView>,
    /// The levels of the headings whose sections are open, outermost first.
    pub sections: Seq<u16>,
}

/// Whether the innermost open element is a table.
pub open spec fn table_above(frames: Seq<FrameView>) -> bool {
    frames.len() > 0 && frames.last() is Table
}

/// Whether the innermost open element is a table whose body has been opened.
pub open spec fn body_above(frames: Seq<FrameView>) -> bool {
    frames.len() > 0 && has_body(frames.last())
}

/// Whether the innermost open element is the head of a table.
pub open spec fn head_above(frames: Seq<FrameView>) -> bool {
    frames.len() > 0 && match frames.last() {
        FrameView::Row { head, cells } => head,
        _ => false,
    }
}

/// Whether the frame is of a table whose body has been opened.
pub open spec fn has_body(frame: FrameView) -> bool {
    match frame {
        FrameView::Table { alignments, body_open } => body_open,
        _ => false,
    }
}

/// Whether the frame is of a cell that was opened as a cell of a head.
pub open spec fn is_head_cell(frame: FrameView) -> bool {
    match frame {
        FrameView::Cell { head } => head,
        _ => false,
    }
}

/// The alignment of the cell that starts: that of its column, where the cell stands in a
/// row that stands in a table.
pub open spec fn cell_alignment(frames: Seq<FrameView>) -> Alignment {
    if frames.len() >= 2 {
        match (frames[frames.len() - 2], frames.last()) {
            (FrameView::Table { alignments, body_open }, FrameView::Row { head, cells }) => column_alignment(
                alignments,
                cells as nat,
            ),
            _ => Alignment::Unspecified,
        }
    } else {
        Alignment::Unspecified
    }
}

/// Whether the innermost open element is a cell that was opened as a cell of a head.
pub open spec fn head_cell_above(frames: Seq<FrameView>) -> bool {
    frames.len() > 0 && is_head_cell(frames.last())
}

/// One more, as far as the machine counts.
pub open spec fn one_more(cells: usize) -> usize {
    if cells < usize::MAX {
        (cells + 1) as usize
    } else {
        cells
    }
}

/// What the start of an element becomes. The head of a table ends the body of the
/// table, should that be open; a row that stands in a table opens the body of the table
/// unless it is open.
pub open spec fn start_events(tag: MarkdownTag, ctx: ContextView) -> Seq<EventView> {
    match tag {
        MarkdownTag::Paragraph => seq![start_of(ContainerView::Paragraph)],
        MarkdownTag::Heading { level, id } => section_ends(
            (ctx.sections.len() - sections_kept(ctx.sections, level).len()) as nat,
        ) + seq![
            start_of(ContainerView::Section { id: heading_id(id) }),
            start_of(ContainerView::Heading { level, id: heading_id(id) }),
        ],
        MarkdownTag::BlockQuote => seq![start_of(ContainerView::Blockquote)],
        MarkdownTag::List { start } => seq![
            start_of(
                ContainerView::List {
                    kind: match start {
                        Some(start) => ListKind::Ordered {
                            numbering: OrderedListNumbering::Decimal,
                            start,
                        },
                        None => ListKind::Unordered,
                    },
                    tight: true,
                },
            ),
        ],
        MarkdownTag::Item => seq![start_of(ContainerView::ListItem)],
        MarkdownTag::FootnoteDefinition { label } => seq![
            start_of(ContainerView::Footnote { label: label@ }),
        ],
        MarkdownTag::Table { alignments } => seq![start_of(ContainerView::Table)],
        MarkdownTag::TableHead => (if body_above(ctx.frames) {
            seq![end_with(ContainerEndView::TableBody)]
        } else {
            Seq::empty()
        }) + seq![start_of(ContainerView::TableHead), start_of(ContainerView::TableRow)],
        MarkdownTag::TableRow => (if table_above(ctx.frames) && !body_above(ctx.frames) {
            seq![start_of(ContainerView::TableBody)]
        } else {
            Seq::empty()
        }).push(start_of(ContainerView::TableRow)),
        MarkdownTag::TableCell => seq![
            start_of(
                ContainerView::TableCell {
                    alignment: cell_alignment(ctx.frames),
                    head: head_above(ctx.frames),
                },
            ),
        ],
        MarkdownTag::Emphasis => seq![start_of(ContainerView::Other { tag: "em"@ })],
        MarkdownTag::Strong => seq![start_of(ContainerView::Other { tag: "strong"@ })],
        MarkdownTag::Strikethrough => seq![start_of(ContainerView::Other { tag: "s"@ })],
        MarkdownTag::Link { dest_url, title } => seq![
            EventView::Start {
                container: ContainerView::Link { destination: dest_url@ },
                attributes: title_attrs(title@),
            },
        ],
        _ => Seq::empty(),
    }
}

/// What the end of an element becomes. The end of the head of a table opens the body of
/// the table; the end of a table closes its body, which it opens first if nothing has
/// done so.
pub open spec fn end_events(tag: MarkdownTagEnd, ctx: ContextView) -> Seq<EventView> {
    match tag {
        MarkdownTagEnd::Paragraph => seq![end_with(ContainerEndView::Paragraph)],
        MarkdownTagEnd::Heading { level } => seq![end_with(ContainerEndView::Heading { level })],
        MarkdownTagEnd::BlockQuote => seq![end_with(ContainerEndView::Blockquote)],
        MarkdownTagEnd::List { ordered } => seq![
            end_with(
                ContainerEndView::List {
                    kind: if ordered {
                        ListKind::Ordered { numbering: OrderedListNumbering::Decimal, start: 0 }
                    } else {
                        ListKind::Unordered
                    },
                },
            ),
        ],
        MarkdownTagEnd::Item => seq![end_with(ContainerEndView::ListItem)],
        MarkdownTagEnd::FootnoteDefinition => seq![end_with(ContainerEndView::Footnote)],
        MarkdownTagEnd::Table => if body_above(ctx.frames) {
            seq![end_with(ContainerEndView::TableBody), end_with(ContainerEndView::Table)]
        } else {
            seq![
                start_of(ContainerView::TableBody),
                end_with(ContainerEndView::TableBody),
                end_with(ContainerEndView::Table),
            ]
        },
        MarkdownTagEnd::TableHead => if ctx.frames.len() > 0 && table_above(
            ctx.frames.drop_last(),
        ) {
            seq![
                end_with(ContainerEndView::TableRow),
                end_with(ContainerEndView::TableHead),
                start_of(ContainerView::TableBody),
            ]
        } else {
            seq![end_with(ContainerEndView::TableRow), end_with(ContainerEndView::TableHead)]
        },
        MarkdownTagEnd::TableRow => seq![end_with(ContainerEndView::TableRow)],
        MarkdownTagEnd::TableCell => seq![
            end_with(ContainerEndView::TableCell { head: head_cell_above(ctx.frames) }),
        ],
        MarkdownTagEnd::Emphasis => seq![end_with(ContainerEndView::Other { tag: "em"@ })],
        MarkdownTagEnd::Strong => seq![end_with(ContainerEndView::Other { tag: "strong"@ })],
        MarkdownTagEnd::Strikethrough => seq![end_with(ContainerEndView::Other { tag: "s"@ })],
        MarkdownTagEnd::Link => seq![end_with(ContainerEndView::Link)],
        _ => Seq::empty(),
    }
}

/// What an event outside of absorbed elements becomes.
pub open spec fn adapted(e: MarkdownEvent, ctx: ContextView) -> Seq<EventView> {
    match e {
        MarkdownEvent::Start(tag) => start_events(tag, ctx),
        MarkdownEvent::End(tag) => end_events(tag, ctx),
        MarkdownEvent::Text(s) => seq![EventView::Str(s@)],
        MarkdownEvent::Code(s) => seq![
            start_of(ContainerView::Other { tag: "code"@ }),
            EventView::Str(s@),
            end_with(ContainerEndView::Other { tag: "code"@ }),
        ],
        MarkdownEvent::Html(s) => seq![raw_html(s@)],
        MarkdownEvent::InlineHtml(s) => seq![raw_html(s@)],
        MarkdownEvent::FootnoteReference(reference) => seq![
            EventView::FootnoteReference { reference: reference@ },
        ],
        MarkdownEvent::SoftBreak => seq![EventView::Str("\n"@)],
        MarkdownEvent::HardBreak => seq![raw_html("<br />"@)],
        MarkdownEvent::Rule => seq![raw_html("<hr />"@)],
        MarkdownEvent::TaskListMarker(checked) => seq![raw_html(task_marker(checked))],
    }
}

/// What is remembered of an element that starts.
pub open spec fn frame_of(tag: MarkdownTag, frames: Seq<FrameView>) -> FrameView {
    match tag {
        MarkdownTag::Table { alignments } => FrameView::Table {
            alignments: alignments@,
            body_open: false,
        },
        MarkdownTag::TableHead => FrameView::Row { head: true, cells: 0 },
        MarkdownTag::TableRow => FrameView::Row { head: false, cells: 0 },
        MarkdownTag::TableCell => FrameView::Cell { head: head_above(frames) },
        _ => FrameView::Other,
    }
}

/// The table with its body open or not.
pub open spec fn with_body(table: FrameView, open: bool) -> FrameView {
    match table {
        FrameView::Table { alignments, body_open } => FrameView::Table {
            alignments,
            body_open: open,
        },
        _ => table,
    }
}

/// The row after one more of its cells has ended.
pub open spec fn with_cell(row: FrameView) -> FrameView {
    match row {
        FrameView::Row { head, cells } => FrameView::Row { head, cells: one_more(cells) },
        _ => row,
    }
}

/// What the adapter remembers of the open elements after an event. The start of an
/// element adds a frame and the end of one takes the innermost frame away. A head or a
/// row that starts in a table, and a head that ends in one, note in the frame of the
/// table whether its body is open; a cell that ends is counted in the frame around it.
pub open spec fn frames_after(e: MarkdownEvent, frames: Seq<FrameView>) -> Seq<FrameView> {
    match e {
        MarkdownEvent::Start(tag) => (if table_above(frames) && (tag is TableHead
            || tag is TableRow) {
            frames.drop_last().push(with_body(frames.last(), tag is TableRow))
        } else {
            frames
        }).push(frame_of(tag, frames)),
        MarkdownEvent::End(end) => if frames.len() == 0 {
            frames
        } else {
            let below = frames.drop_last();
            if below.len() == 0 {
                below
            } else if end is TableHead && below.last() is Table {
                below.drop_last().push(with_body(below.last(), true))
            } else if end is TableCell && below.last() is Row {
                below.drop_last().push(with_cell(below.last()))
            } else {
                below
            }
        },
        _ => frames,
    }
}

/// What the adapter remembers after an event outside of absorbed elements.
pub open spec fn context_after(e: MarkdownEvent, ctx: ContextView) -> ContextView {
    ContextView {
        frames: frames_after(e, ctx.frames),
        sections: match e {
            MarkdownEvent::Start(MarkdownTag::Heading { level, id }) => sections_kept(
                ctx.sections,
                level,
            ).push(level),
            _ => ctx.sections,
        },
    }
}

/// An element that is being absorbed.
pub struct Absorbing {
    pub tag: MarkdownTag,
    /// How many elements are open, the absorbed one included.
    pub depth: nat,
    pub text: Seq<char>,
}

/// Where the adapter stands between two events.
pub struct MarkdownState {
    pub out: Seq<EventView>,
    pub absorbing: Option<Absorbing>,
    pub ctx: ContextView,
}

pub open spec fn markdown_start() -> MarkdownState {
    MarkdownState {
        out: Seq::empty(),
        absorbing: None,
        ctx: ContextView { frames: Seq::empty(), sections: Seq::empty() },
    }
}

/// The state after one more event.
pub open spec fn markdown_step(s: MarkdownState, e: MarkdownEvent) -> MarkdownState {
    match s.absorbing {
        Some(a) => match markdown_nesting(e) {
            Nesting::Opens => MarkdownState {
                absorbing: Some(Absorbing { depth: a.depth + 1, ..a }),
                ..s
            },
            Nesting::Closes => if a.depth <= 1 {
                MarkdownState { out: s.out + absorbed(a.tag, a.text), absorbing: None, ..s }
            } else {
                MarkdownState {
                    absorbing: Some(Absorbing { depth: (a.depth - 1) as nat, ..a }),
                    ..s
                }
            },
            Nesting::Leaf => MarkdownState {
                absorbing: Some(Absorbing { text: a.text + raw_piece(e), ..a }),
                ..s
            },
        },
        None => match e {
            MarkdownEvent::Start(tag) if absorbs(tag) => MarkdownState {
                absorbing: Some(Absorbing { tag, depth: 1, text: Seq::empty() }),
                ..s
            },
            _ => MarkdownState {
                out: s.out + adapted(e, s.ctx),
                ctx: context_after(e, s.ctx),
                ..s
            },
        },
    }
}

/// The state after a sequence of events.
pub open spec fn markdown_run(events: Seq<MarkdownEvent>) -> MarkdownState
    decreases events.len(),
{
    if events.len() == 0 {
        markdown_start()
    } else {
        markdown_step(markdown_run(events.drop_last()), events.last())
    }
}

/// What a CommonMark document becomes. An element that is absorbed and never closed
/// takes in the rest of the document; the sections that are open at the end are closed.
pub open spec fn markdown_ir(events: Seq<MarkdownEvent>) -> Seq<EventView> {
    let s = markdown_run(events);
    (match s.absorbing {
        Some(a) => s.out + absorbed(a.tag, a.text),
        None => s.out,
    }) + section_ends(s.ctx.sections.len())
}

/// What the adapter remembers of an element that is open.
pub enum Frame {
    Table { alignments: Vec<Alignment>, body_open: bool },
    Row { head: bool, cells: usize },
    Cell { head: bool },
    Other,
}

impl View for Frame {
    type V = FrameView;

    open spec fn view(&self) -> FrameView {
        match self {
            Frame::Table { alignments, body_open } => FrameView::Table {
                alignments: alignments@,
                body_open: *body_open,
            },
            Frame::Row { head, cells } => FrameView::Row { head: *head, cells: *cells },
            Frame::Cell { head } => FrameView::Cell { head: *head },
            Frame::Other => FrameView::Other,
        }
    }
}

pub open spec fn frames_view(frames: Seq<Frame>) -> Seq<FrameView> {
    frames.map_values(|f: Frame| f@)
}

/// What the adapter remembers between two events.
pub struct Context {
    pub frames: Vec<Frame>,
    pub section_stack: Vec<u16>,
}

impl View for Context {
    type V = ContextView;

    open spec fn view(&self) -> ContextView {
        ContextView { frames: frames_view(self.frames@), sections: self.section_stack@ }
    }
}

impl Context {
    pub fn new() -> (ctx: Context)
        ensures
            ctx@ == markdown_start().ctx,
    {
        let ctx = Context { frames: Vec::new(), section_stack: Vec::new() };
        assert(frames_view(ctx.frames@) =~= Seq::<FrameView>::empty());
        ctx
    }
}

fn push_frame(frames: &mut Vec<Frame>, frame: Frame)
    ensures
        frames_view(final(frames)@) == frames_view(old(frames)@).push(frame@),
{
    frames.push(frame);
    assert(frames_view(frames@) =~= frames_view(old(frames)@).push(frame@));
}

/// Takes the innermost frame away, if there is one.
fn pop_frame(frames: &mut Vec<Frame>) -> (r: Option<Frame>)
    ensures
        match r {
            Some(frame) => old(frames)@.len() > 0 && frame@ == frames_view(old(frames)@).last()
                && frames_view(final(frames)@) == frames_view(old(frames)@).drop_last(),
            None => old(frames)@.len() == 0 && final(frames)@ == old(frames)@,
        },
{
    let r = frames.pop();
    assert(frames_view(frames@) =~= frames_view(old(frames)@).drop_last() || old(frames)@.len()
        == 0);
    r
}

fn is_table_above(frames: &Vec<Frame>) -> (r: bool)
    ensures
        r == table_above(frames_view(frames@)),
{
    let n = frames.len();
    if n == 0 {
        return false;
    }
    match &frames[n - 1] {
        Frame::Table { alignments, body_open } => true,
        _ => false,
    }
}

fn is_body_above(frames: &Vec<Frame>) -> (r: bool)
    ensures
        r == body_above(frames_view(frames@)),
{
    let n = frames.len();
    if n == 0 {
        return false;
    }
    match &frames[n - 1] {
        Frame::Table { alignments, body_open } => *body_open,
        _ => false,
    }
}

fn is_row_above(frames: &Vec<Frame>) -> (r: bool)
    ensures
        r == (frames@.len() > 0 && frames_view(frames@).last() is Row),
{
    let n = frames.len();
    if n == 0 {
        return false;
    }
    match &frames[n - 1] {
        Frame::Row { head, cells } => true,
        _ => false,
    }
}

fn is_head_above(frames: &Vec<Frame>) -> (r: bool)
    ensures
        r == head_above(frames_view(frames@)),
{
    let n = frames.len();
    if n == 0 {
        return false;
    }
    match &frames[n - 1] {
        Frame::Row { head, cells } => *head,
        _ => false,
    }
}

fn is_head_cell_above(frames: &Vec<Frame>) -> (r: bool)
    ensures
        r == head_cell_above(frames_view(frames@)),
{
    let n = frames.len();
    if n == 0 {
        return false;
    }
    match &frames[n - 1] {
        Frame::Cell { head } => *head,
        _ => false,
    }
}

fn alignment_of_cell(frames: &Vec<Frame>) -> (r: Alignment)
    ensures
        r == cell_alignment(frames_view(frames@)),
{
    let n = frames.len();
    if n < 2 {
        return Alignment::Unspecified;
    }
    assert(frames_view(frames@)[n - 2] == frames@[n - 2]@);
    assert(frames_view(frames@).last() == frames@[n - 1]@);
    match (&frames[n - 2], &frames[n - 1]) {
        (Frame::Table { alignments, body_open }, Frame::Row { head, cells }) => {
            if *cells < alignments.len() {
                alignments[*cells]
            } else {
                Alignment::Unspecified
            }
        },
        _ => Alignment::Unspecified,
    }
}

/// Notes in the frame of the innermost element, if it is a table, whether its body is
/// open.
fn set_body(frames: &mut Vec<Frame>, open: bool)
    requires
        old(frames)@.len() > 0,
    ensures
        frames_view(final(frames)@) == frames_view(old(frames)@).drop_last().push(
            with_body(frames_view(old(frames)@).last(), open),
        ),
{
    match pop_frame(frames) {
        Some(Frame::Table { alignments, body_open }) => {
            push_frame(frames, Frame::Table { alignments, body_open: open });
        },
        Some(frame) => {
            push_frame(frames, frame);
        },
        None => {},
    }
}

/// Counts one more cell in the frame of the innermost element, if it is a row.
fn count_cell(frames: &mut Vec<Frame>)
    requires
        old(frames)@.len() > 0,
    ensures
        frames_view(final(frames)@) == frames_view(old(frames)@).drop_last().push(
            with_cell(frames_view(old(frames)@).last()),
        ),
{
    match pop_frame(frames) {
        Some(Frame::Row { head, cells }) => {
            let counted = if cells < usize::MAX {
                cells + 1
            } else {
                cells
            };
            push_frame(frames, Frame::Row { head, cells: counted });
        },
        Some(frame) => {
            push_frame(frames, frame);
        },
        None => {},
    }
}

fn is_table_below(frames: &Vec<Frame>) -> (r: bool)
    ensures
        r == (frames@.len() > 0 && table_above(frames_view(frames@).drop_last())),
{
    let n = frames.len();
    if n < 2 {
        return false;
    }
    assert(frames_view(frames@).drop_last().last() == frames@[n - 2]@);
    match &frames[n - 2] {
        Frame::Table { alignments, body_open } => true,
        _ => false,
    }
}

/// Notes the start of an element in the frames.
fn note_start(frames: &mut Vec<Frame>, tag: &MarkdownTag)
    ensures
        frames_view(final(frames)@) == frames_after(
            MarkdownEvent::Start(*tag),
            frames_view(old(frames)@),
        ),
{
    let frame = match tag {
        MarkdownTag::Table { alignments } => Frame::Table {
            alignments: alignments.clone(),
            body_open: false,
        },
        MarkdownTag::TableHead => Frame::Row { head: true, cells: 0 },
        MarkdownTag::TableRow => Frame::Row { head: false, cells: 0 },
        MarkdownTag::TableCell => Frame::Cell { head: is_head_above(frames) },
        _ => Frame::Other,
    };
    assert(frame@ == frame_of(*tag, frames_view(frames@)));
    if is_table_above(frames) {
        match tag {
            MarkdownTag::TableHead => set_body(frames, false),
            MarkdownTag::TableRow => set_body(frames, true),
            _ => {},
        }
    }
    push_frame(frames, frame);
}

/// Notes the end of an element in the frames.
fn note_end(frames: &mut Vec<Frame>, end: MarkdownTagEnd)
    ensures
        frames_view(final(frames)@) == frames_after(
            MarkdownEvent::End(end),
            frames_view(old(frames)@),
        ),
{
    match pop_frame(frames) {
        Some(frame) => {
            match end {
                MarkdownTagEnd::TableHead => {
                    if is_table_above(frames) {
                        set_body(frames, true);
                    }
                },
                MarkdownTagEnd::TableCell => {
                    if is_row_above(frames) {
                        count_cell(frames);
                    }
                },
                _ => {},
            }
        },
        None => {
            assert(frames_view(frames@) =~= frames_view(old(frames)@));
        },
    }
}

impl MarkdownEvent {
    pub fn nesting(&self) -> (r: Nesting)
        ensures
            r == markdown_nesting(*self),
    {
        match self {
            MarkdownEvent::Start(tag) => Nesting::Opens,
            MarkdownEvent::End(tag) => Nesting::Closes,
            _ => Nesting::Leaf,
        }
    }
}

/// The attributes of a link or an image with the given title.
pub fn title_attributes(title: &str) -> (r: Attributes)
    ensures
        r@ == title_attrs(title@),
{
    let mut r = Attributes::new();
    if title.unicode_len() != 0 {
        r.push("title", AttributeValue::Raw(title.to_owned()));
    }
    r
}

fn push_absorbed(out: &mut Vec<Event>, tag: &MarkdownTag, text: String)
    ensures
        events_view(final(out)@) == events_view(old(out)@) + absorbed(*tag, text@),
{
    let ghost target = events_view(out@) + absorbed(*tag, text@);
    match tag {
        MarkdownTag::CodeBlock { language } => {
            push_event(
                out,
                Event::CodeBlock {
                    language: language.clone(),
                    code: text,
                    attributes: Attributes::new(),
                },
            );
        },
        MarkdownTag::Image { dest_url, title } => {
            push_event(
                out,
                Event::Image {
                    destination: dest_url.clone(),
                    alt: text,
                    attributes: title_attributes(title.as_str()),
                },
            );
        },
        _ => {},
    }
    assert(events_view(out@) =~= target);
}

/// Closes the sections that a heading of the given level ends and notes the section
/// that it opens.
fn close_sections(out: &mut Vec<Event>, ctx: &mut Context, level: u16)
    ensures
        events_view(final(out)@) == events_view(old(out)@) + section_ends(
            (old(ctx)@.sections.len() - sections_kept(old(ctx)@.sections, level).len()) as nat,
        ),
        final(ctx)@ == (ContextView {
            sections: sections_kept(old(ctx)@.sections, level).push(level),
            ..old(ctx)@
        }),
{
    let ghost before = events_view(out@);
    let ghost open = ctx@.sections;
    let ghost mut closed: nat = 0;
    assert(before + section_ends(0) =~= before);
    loop
        invariant_except_break
            ctx.section_stack@.len() + closed == open.len(),
            sections_kept(open, level) == sections_kept(ctx.section_stack@, level),
            events_view(out@) == before + section_ends(closed),
            ctx.frames == old(ctx).frames,
        ensures
            ctx.section_stack@ == sections_kept(open, level),
            ctx.section_stack@.len() + closed == open.len(),
            events_view(out@) == before + section_ends(closed),
            ctx.frames == old(ctx).frames,
        decreases ctx.section_stack@.len(),
    {
        let n = ctx.section_stack.len();
        if n == 0 || ctx.section_stack[n - 1] < level {
            break ;
        }
        let ghost stack = ctx.section_stack@;
        ctx.section_stack.pop();
        assert(ctx.section_stack@ =~= stack.drop_last());
        push_event(out, Event::end(ContainerEnd::Section));
        proof {
            assert(section_ends(closed).push(end_with(ContainerEndView::Section)) =~= section_ends(
                closed + 1,
            ));
            closed = closed + 1;
        }
    }
    ctx.section_stack.push(level);
}

fn push_start(out: &mut Vec<Event>, tag: &MarkdownTag, ctx: &mut Context)
    requires
        !absorbs(*tag),
    ensures
        events_view(final(out)@) == events_view(old(out)@) + start_events(*tag, old(ctx)@),
        final(ctx)@ == context_after(MarkdownEvent::Start(*tag), old(ctx)@),
{
    let ghost target = events_view(out@) + start_events(*tag, ctx@);
    let ghost frames = ctx@.frames;
    match tag {
        MarkdownTag::Paragraph => push_event(out, Event::start(Container::Paragraph)),
        MarkdownTag::Heading { level, id } => {
            close_sections(out, ctx, *level);
            let id = match id {
                Some(id) => id.clone(),
                None => String::new(),
            };
            push_event(out, Event::start(Container::Section { id: id.clone() }));
            push_event(out, Event::start(Container::Heading { level: *level, id }));
        },
        MarkdownTag::BlockQuote => push_event(out, Event::start(Container::Blockquote)),
        MarkdownTag::List { start } => {
            let kind = match start {
                Some(start) => ListKind::Ordered {
                    numbering: OrderedListNumbering::Decimal,
                    start: *start,
                },
                None => ListKind::Unordered,
            };
            push_event(out, Event::start(Container::List { kind, tight: true }));
        },
        MarkdownTag::Item => push_event(out, Event::start(Container::ListItem)),
        MarkdownTag::FootnoteDefinition { label } => push_event(
            out,
            Event::start(Container::Footnote { label: label.clone() }),
        ),
        MarkdownTag::Table { alignments } => {
            push_event(out, Event::start(Container::Table));
        },
        MarkdownTag::TableHead => {
            if is_body_above(&ctx.frames) {
                push_event(out, Event::end(ContainerEnd::TableBody));
            }
            push_event(out, Event::start(Container::TableHead));
            push_event(out, Event::start(Container::TableRow));
        },
        MarkdownTag::TableRow => {
            if is_table_above(&ctx.frames) && !is_body_above(&ctx.frames) {
                push_event(out, Event::start(Container::TableBody));
            }
            push_event(out, Event::start(Container::TableRow));
        },
        MarkdownTag::TableCell => {
            let alignment = alignment_of_cell(&ctx.frames);
            let head = is_head_above(&ctx.frames);
            push_event(out, Event::start(Container::TableCell { alignment, head }));
        },
        MarkdownTag::Emphasis => push_event(out, Event::start(Container::other("em"))),
        MarkdownTag::Strong => push_event(out, Event::start(Container::other("strong"))),
        MarkdownTag::Strikethrough => push_event(out, Event::start(Container::other("s"))),
        MarkdownTag::Link { dest_url, title } => push_event(
            out,
            Event::Start {
                container: Container::Link { destination: dest_url.clone() },
                attributes: title_attributes(title.as_str()),
            },
        ),
        _ => {},
    }
    assert(events_view(out@) =~= target);
    assert(frames_view(ctx.frames@) == frames);
    note_start(&mut ctx.frames, tag);
}

fn push_end(out: &mut Vec<Event>, tag: MarkdownTagEnd, ctx: &mut Context)
    ensures
        events_view(final(out)@) == events_view(old(out)@) + end_events(tag, old(ctx)@),
        final(ctx)@ == context_after(MarkdownEvent::End(tag), old(ctx)@),
{
    let ghost target = events_view(out@) + end_events(tag, ctx@);
    match tag {
        MarkdownTagEnd::Paragraph => push_event(out, Event::end(ContainerEnd::Paragraph)),
        MarkdownTagEnd::Heading { level } => push_event(
            out,
            Event::end(ContainerEnd::Heading { level }),
        ),
        MarkdownTagEnd::BlockQuote => push_event(out, Event::end(ContainerEnd::Blockquote)),
        MarkdownTagEnd::List { ordered } => {
            let kind = if ordered {
                ListKind::Ordered { numbering: OrderedListNumbering::Decimal, start: 0 }
            } else {
                ListKind::Unordered
            };
            push_event(out, Event::end(ContainerEnd::List { kind }));
        },
        MarkdownTagEnd::Item => push_event(out, Event::end(ContainerEnd::ListItem)),
        MarkdownTagEnd::FootnoteDefinition => push_event(out, Event::end(ContainerEnd::Footnote)),
        MarkdownTagEnd::Table => {
            if !is_body_above(&ctx.frames) {
                push_event(out, Event::start(Container::TableBody));
            }
            push_event(out, Event::end(ContainerEnd::TableBody));
            push_event(out, Event::end(ContainerEnd::Table));
        },
        MarkdownTagEnd::TableHead => {
            push_event(out, Event::end(ContainerEnd::TableRow));
            push_event(out, Event::end(ContainerEnd::TableHead));
            if is_table_below(&ctx.frames) {
                push_event(out, Event::start(Container::TableBody));
            }
        },
        MarkdownTagEnd::TableRow => push_event(out, Event::end(ContainerEnd::TableRow)),
        MarkdownTagEnd::TableCell => {
            let head = is_head_cell_above(&ctx.frames);
            push_event(out, Event::end(ContainerEnd::TableCell { head }));
        },
        MarkdownTagEnd::Emphasis => push_event(
            out,
            Event::end(ContainerEnd::Other { tag: "em".to_owned() }),
        ),
        MarkdownTagEnd::Strong => push_event(
            out,
            Event::end(ContainerEnd::Other { tag: "strong".to_owned() }),
        ),
        MarkdownTagEnd::Strikethrough => push_event(
            out,
            Event::end(ContainerEnd::Other { tag: "s".to_owned() }),
        ),
        MarkdownTagEnd::Link => push_event(out, Event::end(ContainerEnd::Link)),
        _ => {},
    }
    assert(events_view(out@) =~= target);
    note_end(&mut ctx.frames, tag);
}

fn push_adapted(out: &mut Vec<Event>, e: &MarkdownEvent, ctx: &mut Context)
    requires
        *e matches MarkdownEvent::Start(tag) ==> !absorbs(tag),
    ensures
        events_view(final(out)@) == events_view(old(out)@) + adapted(*e, old(ctx)@),
        final(ctx)@ == context_after(*e, old(ctx)@),
{
    let ghost target = events_view(out@) + adapted(*e, ctx@);
    match e {
        MarkdownEvent::Start(tag) => push_start(out, tag, ctx),
        MarkdownEvent::End(tag) => push_end(out, *tag, ctx),
        MarkdownEvent::Text(s) => push_event(out, Event::text(s.as_str())),
        MarkdownEvent::Code(s) => {
            push_event(out, Event::start(Container::other("code")));
            push_event(out, Event::text(s.as_str()));
            push_event(out, Event::end(ContainerEnd::Other { tag: "code".to_owned() }));
        },
        MarkdownEvent::Html(s) => push_event(out, Event::raw_html(s.as_str())),
        MarkdownEvent::InlineHtml(s) => push_event(out, Event::raw_html(s.as_str())),
        MarkdownEvent::FootnoteReference(reference) => push_event(
            out,
            Event::FootnoteReference { reference: reference.clone() },
        ),
        MarkdownEvent::SoftBreak => push_event(out, Event::text("\n")),
        MarkdownEvent::HardBreak => push_event(out, Event::raw_html("<br />")),
        MarkdownEvent::Rule => push_event(out, Event::raw_html("<hr />")),
        MarkdownEvent::TaskListMarker(checked) => {
            if *checked {
                push_event(
                    out,
                    Event::raw_html("\n<input type=\"checkbox\" disabled=\"\" checked=\"\">\n"),
                );
            } else {
                push_event(out, Event::raw_html("\n<input type=\"checkbox\" disabled=\"\">\n"));
            }
        },
    }
    assert(events_view(out@) =~= target);
}

/// The adapter between two events: it takes the events of a CommonMark document one at a
/// time and hands out the events of the intermediate representation as soon as they
/// are complete.
pub struct MarkdownAdapter {
    /// The element that is being absorbed.
    absorbing: Option<MarkdownTag>,
    /// How many elements are open inside the absorbed element, itself included.
    depth: u128,
    /// The text of the absorbed element so far.
    text: String,
    ctx: Context,
}

impl MarkdownAdapter {
    /// Where the adapter stands, given what it has handed out.
    pub closed spec fn state(&self, out: Seq<EventView>) -> MarkdownState {
        MarkdownState {
            out,
            absorbing: match self.absorbing {
                Some(tag) => Some(Absorbing { tag, depth: self.depth as nat, text: self.text@ }),
                None => None,
            },
            ctx: self.ctx@,
        }
    }

    /// How deep the adapter stands inside an absorbed element.
    pub closed spec fn depth(&self) -> nat {
        self.depth as nat
    }

    /// An adapter at the start of a document.
    pub fn new() -> (adapter: MarkdownAdapter)
        ensures
            adapter.state(Seq::empty()) == markdown_start(),
            adapter.depth() == 0,
    {
        MarkdownAdapter { absorbing: None, depth: 0, text: String::new(), ctx: Context::new() }
    }

    /// Takes one event and appends to `out` what is complete with it.
    pub fn feed(&mut self, e: &MarkdownEvent, out: &mut Vec<Event>)
        requires
            old(self).depth() < u128::MAX,
        ensures
            final(self).state(events_view(final(out)@)) == markdown_step(
                old(self).state(events_view(old(out)@)),
                *e,
            ),
            final(self).depth() <= old(self).depth() + 1,
    {
        if self.absorbing.is_some() {
            match e.nesting() {
                Nesting::Opens => {
                    self.depth += 1;
                },
                Nesting::Closes => {
                    if self.depth <= 1 {
                        let mut taken = String::new();
                        core::mem::swap(&mut self.text, &mut taken);
                        let mut pending = None;
                        core::mem::swap(&mut self.absorbing, &mut pending);
                        match pending {
                            Some(tag) => {
                                push_absorbed(out, &tag, taken);
                            },
                            None => {},
                        }
                        self.depth = 0;
                    } else {
                        self.depth -= 1;
                    }
                },
                Nesting::Leaf => {
                    match e {
                        MarkdownEvent::Text(s) => self.text.append(s.as_str()),
                        _ => {
                            assert(self.text@ =~= self.text@ + raw_piece(*e));
                        },
                    }
                },
            }
        } else {
            match e {
                MarkdownEvent::Start(MarkdownTag::CodeBlock { language }) => {
                    self.absorbing = Some(MarkdownTag::CodeBlock { language: language.clone() });
                    self.depth = 1;
                    self.text = String::new();
                },
                MarkdownEvent::Start(MarkdownTag::Image { dest_url, title }) => {
                    self.absorbing = Some(
                        MarkdownTag::Image { dest_url: dest_url.clone(), title: title.clone() },
                    );
                    self.depth = 1;
                    self.text = String::new();
                },
                _ => {
                    push_adapted(out, e, &mut self.ctx);
                },
            }
        }
    }

    /// Ends the document: an absorbed element that was not closed is handed out with the
    /// text that it has taken in, and the sections that are open are closed.
    pub fn finish(self, out: &mut Vec<Event>)
        ensures
            events_view(final(out)@) == (match self.state(events_view(old(out)@)).absorbing {
                Some(a) => events_view(old(out)@) + absorbed(a.tag, a.text),
                None => events_view(old(out)@),
            }) + section_ends(self.state(events_view(old(out)@)).ctx.sections.len()),
    {
        let MarkdownAdapter { absorbing, depth, text, ctx } = self;
        match absorbing {
            Some(tag) => {
                push_absorbed(out, &tag, text);
            },
            None => {},
        }
        let ghost before = events_view(out@);
        let open = ctx.section_stack.len();
        let mut k: usize = 0;
        assert(before + section_ends(0) =~= before);
        while k < open
            invariant
                k <= open,
                events_view(out@) == before + section_ends(k as nat),
            decreases open - k,
        {
            push_event(out, Event::end(ContainerEnd::Section));
            assert(section_ends(k as nat).push(end_with(ContainerEndView::Section))
                =~= section_ends((k + 1) as nat));
            k += 1;
        }
    }
}

/// Turns the events of a CommonMark document into the intermediate representation. A
/// document in which every element that starts also ends, and every heading starts
/// where no other element is open, becomes a balanced document.
pub fn markdown_to_ir(events: &Vec<MarkdownEvent>) -> (out: Vec<Event>)
    ensures
        events_view(out@) == markdown_ir(events@),
        markdown_balanced(events@) ==> balanced(events_view(out@)),
{
    proof {
        if markdown_balanced(events@) {
            lemma_markdown_ir_is_balanced(events@);
        }
    }
    let mut out: Vec<Event> = Vec::new();
    let mut adapter = MarkdownAdapter::new();
    let n = events.len();
    let mut i: usize = 0;
    assert(events@.take(0) =~= Seq::empty());
    assert(events_view(out@) =~= Seq::empty());
    while i < n
        invariant
            i <= n,
            n == events@.len(),
            adapter.depth() <= i,
            adapter.state(events_view(out@)) == markdown_run(events@.take(i as int)),
        decreases n - i,
    {
        proof {
            let next = events@.take(i + 1);
            assert(next.drop_last() =~= events@.take(i as int));
            assert(next.last() == events@[i as int]);
        }
        adapter.feed(&events[i], &mut out);
        i += 1;
    }
    assert(events@.take(n as int) =~= events@);
    adapter.finish(&mut out);
    out
}

/// Whether `end` ends an element that started as `tag`: both are of one kind, the end of
/// a heading gives the level of the heading, and the end of a list says rightly whether
/// the list is ordered.
pub open spec fn markdown_closes(tag: MarkdownTag, end: MarkdownTagEnd) -> bool {
    match (tag, end) {
        (MarkdownTag::Paragraph, MarkdownTagEnd::Paragraph) => true,
        (MarkdownTag::Heading { level, id }, MarkdownTagEnd::Heading { level: closed }) => level
            == closed,
        (MarkdownTag::BlockQuote, MarkdownTagEnd::BlockQuote) => true,
        (MarkdownTag::CodeBlock { language }, MarkdownTagEnd::CodeBlock) => true,
        (MarkdownTag::HtmlBlock, MarkdownTagEnd::HtmlBlock) => true,
        (MarkdownTag::List { start }, MarkdownTagEnd::List { ordered }) => ordered == (
        start is Some),
        (MarkdownTag::Item, MarkdownTagEnd::Item) => true,
        (MarkdownTag::FootnoteDefinition { label }, MarkdownTagEnd::FootnoteDefinition) => true,
        (MarkdownTag::Table { alignments }, MarkdownTagEnd::Table) => true,
        (MarkdownTag::TableHead, MarkdownTagEnd::TableHead) => true,
        (MarkdownTag::TableRow, MarkdownTagEnd::TableRow) => true,
        (MarkdownTag::TableCell, MarkdownTagEnd::TableCell) => true,
        (MarkdownTag::Emphasis, MarkdownTagEnd::Emphasis) => true,
        (MarkdownTag::Strong, MarkdownTagEnd::Strong) => true,
        (MarkdownTag::Strikethrough, MarkdownTagEnd::Strikethrough) => true,
        (MarkdownTag::Link { dest_url, title }, MarkdownTagEnd::Link) => true,
        (MarkdownTag::Image { dest_url, title }, MarkdownTagEnd::Image) => true,
        (MarkdownTag::MetadataBlock, MarkdownTagEnd::MetadataBlock) => true,
        _ => false,
    }
}

/// The elements that are open after one more event, where every heading starts with
/// nothing else open; nothing where a heading starts inside another element, or where
/// an end does not end the element that was started last.
pub open spec fn elements_after(open: Seq<MarkdownTag>, e: MarkdownEvent) -> Option<
    Seq<MarkdownTag>,
> {
    match e {
        MarkdownEvent::Start(tag) => if tag is Heading && open.len() > 0 {
            None
        } else {
            Some(open.push(tag))
        },
        MarkdownEvent::End(end) => if open.len() > 0 && markdown_closes(open.last(), end) {
            Some(open.drop_last())
        } else {
            None
        },
        _ => Some(open),
    }
}

/// The elements that are open after the events, outermost first; nothing where an
/// event does not fit.
pub open spec fn open_elements(events: Seq<MarkdownEvent>) -> Option<Seq<MarkdownTag>>
    decreases events.len(),
{
    if events.len() == 0 {
        Some(Seq::empty())
    } else {
        match open_elements(events.drop_last()) {
            None => None,
            Some(open) => elements_after(open, events.last()),
        }
    }
}

/// Whether every element of the document that starts also ends, in its turn, and every
/// heading starts where no other element is open.
pub open spec fn markdown_balanced(events: Seq<MarkdownEvent>) -> bool {
    open_elements(events) == Some(Seq::<MarkdownTag>::empty())
}

/// The ends that would close the containers, outermost first.
spec fn kinds(ir: Seq<ContainerView>) -> Seq<ContainerEndView> {
    ir.map_values(|c: ContainerView| end_of(c))
}

/// The ends that would close the containers which the events leave open.
spec fn open_kinds(out: Seq<EventView>) -> Option<Seq<ContainerEndView>> {
    match open_containers(out) {
        Some(ir) => Some(kinds(ir)),
        None => None,
    }
}

/// Whether `end` closes a container that `kind` would close.
spec fn kind_closes(kind: ContainerEndView, end: ContainerEndView) -> bool {
    match (kind, end) {
        (ContainerEndView::List { kind: opened }, ContainerEndView::List { kind: closed }) => (
        opened is Ordered) == (closed is Ordered),
        _ => kind == end,
    }
}

/// What one more event does to the containers that are left open.
proof fn lemma_kinds_push(out: Seq<EventView>, e: EventView)
    ensures
        open_kinds(out.push(e)) == match open_kinds(out) {
            None => None,
            Some(open) => match e {
                EventView::Start { container, attributes } => Some(open.push(end_of(container))),
                EventView::End { container } => if open.len() > 0 && kind_closes(
                    open.last(),
                    container,
                ) {
                    Some(open.drop_last())
                } else {
                    None
                },
                _ => Some(open),
            },
        },
{
    assert(out.push(e).drop_last() =~= out);
    match open_containers(out) {
        Some(ir) => {
            match e {
                EventView::Start { container, attributes } => {
                    assert(kinds(ir.push(container)) =~= kinds(ir).push(end_of(container)));
                },
                EventView::End { container } => {
                    if ir.len() > 0 {
                        assert(kinds(ir).last() == end_of(ir.last()));
                        assert(kinds(ir.drop_last()) =~= kinds(ir).drop_last());
                    }
                },
                _ => {},
            }
        },
        None => {},
    }
}

/// The ends of `n` sections.
spec fn section_kinds(n: nat) -> Seq<ContainerEndView> {
    Seq::new(n, |i: int| ContainerEndView::Section)
}

/// Whether the frame is one of an element that started as `tag`.
spec fn fits(tag: MarkdownTag, frame: FrameView) -> bool {
    match tag {
        MarkdownTag::Table { alignments } => frame is Table,
        MarkdownTag::TableHead => frame is Row,
        MarkdownTag::TableRow => frame is Row,
        MarkdownTag::TableCell => frame is Cell,
        _ => frame is Other,
    }
}

/// The ends that would close the containers which an open element stands for.
spec fn element_kinds(tag: MarkdownTag, frame: FrameView) -> Seq<ContainerEndView> {
    match tag {
        MarkdownTag::Paragraph => seq![ContainerEndView::Paragraph],
        MarkdownTag::Heading { level, id } => seq![ContainerEndView::Heading { level }],
        MarkdownTag::BlockQuote => seq![ContainerEndView::Blockquote],
        MarkdownTag::List { start } => seq![
            ContainerEndView::List {
                kind: match start {
                    Some(start) => ListKind::Ordered {
                        numbering: OrderedListNumbering::Decimal,
                        start,
                    },
                    None => ListKind::Unordered,
                },
            },
        ],
        MarkdownTag::Item => seq![ContainerEndView::ListItem],
        MarkdownTag::FootnoteDefinition { label } => seq![ContainerEndView::Footnote],
        MarkdownTag::Table { alignments } => if has_body(frame) {
            seq![ContainerEndView::Table, ContainerEndView::TableBody]
        } else {
            seq![ContainerEndView::Table]
        },
        MarkdownTag::TableHead => seq![ContainerEndView::TableHead, ContainerEndView::TableRow],
        MarkdownTag::TableRow => seq![ContainerEndView::TableRow],
        MarkdownTag::TableCell => seq![ContainerEndView::TableCell { head: is_head_cell(frame) }],
        MarkdownTag::Emphasis => seq![ContainerEndView::Other { tag: "em"@ }],
        MarkdownTag::Strong => seq![ContainerEndView::Other { tag: "strong"@ }],
        MarkdownTag::Strikethrough => seq![ContainerEndView::Other { tag: "s"@ }],
        MarkdownTag::Link { dest_url, title } => seq![ContainerEndView::Link],
        _ => Seq::empty(),
    }
}

/// The ends that would close the containers which the open elements stand for.
spec fn elements_kinds(open: Seq<MarkdownTag>, frames: Seq<FrameView>) -> Seq<ContainerEndView>
    decreases open.len(),
{
    if open.len() == 0 || frames.len() == 0 {
        Seq::empty()
    } else {
        elements_kinds(open.drop_last(), frames.drop_last()) + element_kinds(
            open.last(),
            frames.last(),
        )
    }
}

/// How many of the open elements the absorbed one holds, itself included.
spec fn absorbed_depth(s: MarkdownState) -> nat {
    match s.absorbing {
        Some(a) => a.depth,
        None => 0,
    }
}

/// Each element has its frame, none of them is absorbed, and the body of a table is
/// not open while its head is.
spec fn framed(open: Seq<MarkdownTag>, frames: Seq<FrameView>) -> bool {
    &&& frames.len() == open.len()
    &&& forall|i: int|
        0 <= i < open.len() ==> !absorbs(#[trigger] open[i]) && fits(open[i], frames[i])
    &&& forall|i: int|
        1 <= i < open.len() && #[trigger] open[i] is TableHead ==> !body_above(
            frames.take(i),
        )
}

/// The state of the adapter fits the elements that are open: the innermost of them are
/// counted by the absorbed element, each of the others has its frame, and what has been
/// produced leaves open the sections and what these elements stand for.
spec fn linked(open: Seq<MarkdownTag>, s: MarkdownState) -> bool {
    let outer = open.take(open.len() - absorbed_depth(s));
    &&& absorbed_depth(s) <= open.len()
    &&& s.absorbing is Some ==> absorbed_depth(s) >= 1
    &&& framed(outer, s.ctx.frames)
    &&& open_kinds(s.out) == Some(
        section_kinds(s.ctx.sections.len()) + elements_kinds(outer, s.ctx.frames),
    )
}

/// The ends of sections close the innermost sections.
proof fn lemma_section_ends(out: Seq<EventView>, n: nat, k: nat)
    requires
        open_kinds(out) == Some(section_kinds(n)),
        k <= n,
    ensures
        open_kinds(out + section_ends(k)) == Some(section_kinds((n - k) as nat)),
    decreases k,
{
    if k == 0 {
        assert(out + section_ends(k) =~= out);
    } else {
        let before = (k - 1) as nat;
        lemma_section_ends(out, n, before);
        let end = end_with(ContainerEndView::Section);
        assert(out + section_ends(k) =~= (out + section_ends(before)).push(end));
        lemma_kinds_push(out + section_ends(before), end);
        let left = section_kinds((n - before) as nat);
        assert(left.last() == ContainerEndView::Section);
        assert(left.drop_last() =~= section_kinds((n - k) as nat));
    }
}

/// An event inside an absorbed element keeps the state fitting.
proof fn lemma_absorbed_keeps_linked(open: Seq<MarkdownTag>, s: MarkdownState, e: MarkdownEvent)
    requires
        linked(open, s),
        s.absorbing is Some,
        elements_after(open, e) is Some,
    ensures
        linked(elements_after(open, e)->0, markdown_step(s, e)),
{
    let a = s.absorbing->0;
    let after = elements_after(open, e)->0;
    let next = markdown_step(s, e);
    let k = open.len() - a.depth;
    assert(after.take(after.len() - absorbed_depth(next)) =~= open.take(k));
    if markdown_nesting(e) is Closes && a.depth <= 1 {
        let added = absorbed(a.tag, a.text);
        if added.len() == 0 {
            assert(s.out + added =~= s.out);
        } else {
            assert(s.out + added =~= s.out.push(added[0]));
            lemma_kinds_push(s.out, added[0]);
        }
    }
}

/// The start of an element outside of absorbed ones keeps the state fitting.
#[verifier::rlimit(30)]
proof fn lemma_start_keeps_linked(open: Seq<MarkdownTag>, s: MarkdownState, tag: MarkdownTag)
    requires
        linked(open, s),
        s.absorbing is None,
        elements_after(open, MarkdownEvent::Start(tag)) is Some,
    ensures
        linked(open.push(tag), markdown_step(s, MarkdownEvent::Start(tag))),
{
    let e = MarkdownEvent::Start(tag);
    let after = open.push(tag);
    let next = markdown_step(s, e);
    let n = s.ctx.sections.len();
    let frames = s.ctx.frames;
    let sections = section_kinds(n);
    let old_kinds = sections + elements_kinds(open, frames);
    assert(open.take(open.len() as int) =~= open);
    assert(after.drop_last() =~= open);
    if absorbs(tag) {
        assert(after.take(after.len() - 1) =~= open);
    } else {
        assert(after.take(after.len() as int) =~= after);
        let more = next.ctx.frames;
        let frame = frame_of(tag, frames);
        assert(more.last() == frame);
        assert(fits(tag, frame));
        let in_table = table_above(frames) && (tag is TableHead || tag is TableRow);
        if in_table {
            let below = frames.drop_last();
            let table = with_body(frames.last(), tag is TableRow);
            let base = sections + elements_kinds(open.drop_last(), below);
            assert(more.drop_last() =~= below.push(table));
            assert(below.push(table).drop_last() =~= below);
            assert(open.last() is Table);
            assert(elements_kinds(open, frames) == elements_kinds(open.drop_last(), below)
                + element_kinds(open.last(), frames.last()));
            assert(elements_kinds(open, below.push(table)) == elements_kinds(
                open.drop_last(),
                below,
            ) + element_kinds(open.last(), table));
            assert(elements_kinds(after, more) == elements_kinds(open, below.push(table))
                + element_kinds(tag, frame));
            assert(old_kinds =~= if body_above(frames) {
                base.push(ContainerEndView::Table).push(ContainerEndView::TableBody)
            } else {
                base.push(ContainerEndView::Table)
            });
            lemma_start_in_table(s.out, base, tag, body_above(frames), next.out, s.ctx);
            assert(framed(after, more)) by {
                assert forall|i: int| 0 <= i < after.len() implies !absorbs(#[trigger] after[i])
                    && fits(after[i], more[i]) by {
                    if i < open.len() {
                        assert(after[i] == open[i]);
                        if i < open.len() - 1 {
                            assert(more[i] == frames[i]);
                        }
                    }
                }
                assert forall|i: int| 1 <= i < after.len() && #[trigger] after[i] is TableHead
                    implies !body_above(more.take(i)) by {
                    if i < open.len() {
                        assert(after[i] == open[i]);
                        assert(more.take(i).last() == frames.take(i).last());
                    } else {
                        assert(more.take(i) =~= below.push(table));
                    }
                }
            }
            if tag is TableHead {
                assert(base.push(ContainerEndView::Table).push(ContainerEndView::TableHead).push(
                    ContainerEndView::TableRow,
                ) =~= sections + elements_kinds(after, more));
            } else {
                assert(base.push(ContainerEndView::Table).push(ContainerEndView::TableBody).push(
                    ContainerEndView::TableRow,
                ) =~= sections + elements_kinds(after, more));
            }
        } else {
            assert(more.drop_last() =~= frames);
            assert(elements_kinds(after, more) == elements_kinds(open, frames) + element_kinds(
                tag,
                frame,
            ));
            assert(framed(after, more)) by {
                assert forall|i: int| 0 <= i < after.len() implies !absorbs(#[trigger] after[i])
                    && fits(after[i], more[i]) by {
                    if i < open.len() {
                        assert(after[i] == open[i]);
                        assert(more[i] == frames[i]);
                    }
                }
                assert forall|i: int| 1 <= i < after.len() && #[trigger] after[i] is TableHead
                    implies !body_above(more.take(i)) by {
                    if i < open.len() {
                        assert(after[i] == open[i]);
                        assert(more.take(i) =~= frames.take(i));
                    } else {
                        assert(more.take(i) =~= frames);
                    }
                }
            }
            match tag {
                MarkdownTag::Heading { level, id } => {
                    let kept = sections_kept(s.ctx.sections, level).len();
                    lemma_sections_kept(s.ctx.sections, level);
                    let closed = (n - kept) as nat;
                    let section = start_of(ContainerView::Section { id: heading_id(id) });
                    let heading = start_of(ContainerView::Heading { level, id: heading_id(id) });
                    assert(old_kinds =~= sections);
                    lemma_section_ends(s.out, n, closed);
                    let a = s.out + section_ends(closed);
                    lemma_kinds_push(a, section);
                    lemma_kinds_push(a.push(section), heading);
                    assert(next.out =~= a.push(section).push(heading));
                    assert(section_kinds((n - closed) as nat).push(ContainerEndView::Section).push(
                        ContainerEndView::Heading { level },
                    ) =~= section_kinds(next.ctx.sections.len()) + elements_kinds(after, more));
                },
                MarkdownTag::TableHead => {
                    let a = start_of(ContainerView::TableHead);
                    let b = start_of(ContainerView::TableRow);
                    lemma_kinds_push(s.out, a);
                    lemma_kinds_push(s.out.push(a), b);
                    assert(next.out =~= s.out.push(a).push(b));
                    assert(old_kinds.push(ContainerEndView::TableHead).push(
                        ContainerEndView::TableRow,
                    ) =~= sections + elements_kinds(after, more));
                },
                _ => {
                    let added = start_events(tag, s.ctx);
                    let piece = element_kinds(tag, frame);
                    if added.len() == 0 {
                        assert(next.out =~= s.out);
                        assert(old_kinds =~= sections + (elements_kinds(open, frames) + piece));
                    } else {
                        assert(next.out =~= s.out.push(added[0]));
                        lemma_kinds_push(s.out, added[0]);
                        assert(old_kinds.push(piece[0]) =~= sections + (elements_kinds(
                            open,
                            frames,
                        ) + piece));
                    }
                },
            }
        }
    }
}

/// The start of a head or a row directly in a table: what it hands out leaves open the
/// table, the head or the body, and the row.
proof fn lemma_start_in_table(
    out: Seq<EventView>,
    base: Seq<ContainerEndView>,
    tag: MarkdownTag,
    body: bool,
    next: Seq<EventView>,
    ctx: ContextView,
)
    requires
        tag is TableHead || tag is TableRow,
        table_above(ctx.frames),
        body == body_above(ctx.frames),
        next == out + start_events(tag, ctx),
        open_kinds(out) == Some(
            if body {
                base.push(ContainerEndView::Table).push(ContainerEndView::TableBody)
            } else {
                base.push(ContainerEndView::Table)
            },
        ),
    ensures
        open_kinds(next) == Some(
            if tag is TableHead {
                base.push(ContainerEndView::Table).push(ContainerEndView::TableHead).push(
                    ContainerEndView::TableRow,
                )
            } else {
                base.push(ContainerEndView::Table).push(ContainerEndView::TableBody).push(
                    ContainerEndView::TableRow,
                )
            },
        ),
{
    let table = base.push(ContainerEndView::Table);
    let row = start_of(ContainerView::TableRow);
    if tag is TableHead {
        let head = start_of(ContainerView::TableHead);
        if body {
            let a = out.push(end_with(ContainerEndView::TableBody));
            lemma_kinds_push(out, end_with(ContainerEndView::TableBody));
            lemma_kinds_push(a, head);
            lemma_kinds_push(a.push(head), row);
            assert(next =~= a.push(head).push(row));
            assert(table.push(ContainerEndView::TableBody).drop_last() =~= table);
        } else {
            lemma_kinds_push(out, head);
            lemma_kinds_push(out.push(head), row);
            assert(next =~= out.push(head).push(row));
        }
    } else {
        if body {
            lemma_kinds_push(out, row);
            assert(next =~= out.push(row));
        } else {
            let a = out.push(start_of(ContainerView::TableBody));
            lemma_kinds_push(out, start_of(ContainerView::TableBody));
            lemma_kinds_push(a, row);
            assert(next =~= a.push(row));
        }
    }
}

/// What is left of the frames when the innermost element ends keeps each element with
/// its frame.
proof fn lemma_end_keeps_framed(open: Seq<MarkdownTag>, frames: Seq<FrameView>, end: MarkdownTagEnd)
    requires
        framed(open, frames),
        open.len() > 0,
    ensures
        framed(open.drop_last(), frames_after(MarkdownEvent::End(end), frames)),
{
    let rest = open.drop_last();
    let below = frames.drop_last();
    let more = frames_after(MarkdownEvent::End(end), frames);
    assert forall|i: int| 0 <= i < rest.len() implies !absorbs(#[trigger] rest[i]) && fits(
        rest[i],
        more[i],
    ) by {
        assert(rest[i] == open[i]);
        assert(below[i] == frames[i]);
        if i < rest.len() - 1 {
            assert(more[i] == frames[i]);
        }
    }
    assert forall|i: int| 1 <= i < rest.len() && #[trigger] rest[i] is TableHead implies !body_above(
        more.take(i),
    ) by {
        assert(rest[i] == open[i]);
        assert(more.take(i) =~= frames.take(i));
    }
}

/// The end of a table outside of absorbed elements keeps the state fitting.
#[verifier::rlimit(30)]
proof fn lemma_table_end_keeps_linked(open: Seq<MarkdownTag>, s: MarkdownState)
    requires
        linked(open, s),
        s.absorbing is None,
        open.len() > 0,
        open.last() is Table,
    ensures
        linked(open.drop_last(), markdown_step(s, MarkdownEvent::End(MarkdownTagEnd::Table))),
{
    let e = MarkdownEvent::End(MarkdownTagEnd::Table);
    let rest = open.drop_last();
    let next = markdown_step(s, e);
    let frames = s.ctx.frames;
    let below = frames.drop_last();
    let sections = section_kinds(s.ctx.sections.len());
    let base = sections + elements_kinds(rest, below);
    assert(open.take(open.len() as int) =~= open);
    assert(rest.take(rest.len() as int) =~= rest);
    assert(fits(open[open.len() - 1], frames[open.len() - 1]));
    lemma_end_keeps_framed(open, frames, MarkdownTagEnd::Table);
    assert(next.ctx.frames =~= below);
    let body = end_with(ContainerEndView::TableBody);
    let table = end_with(ContainerEndView::Table);
    if body_above(frames) {
        let before = base.push(ContainerEndView::Table).push(ContainerEndView::TableBody);
        assert(sections + elements_kinds(open, frames) =~= before);
        lemma_kinds_push(s.out, body);
        lemma_kinds_push(s.out.push(body), table);
        assert(next.out =~= s.out.push(body).push(table));
        assert(before.drop_last() =~= base.push(ContainerEndView::Table));
        assert(before.drop_last().drop_last() =~= base);
    } else {
        let before = base.push(ContainerEndView::Table);
        let a = start_of(ContainerView::TableBody);
        assert(sections + elements_kinds(open, frames) =~= before);
        lemma_kinds_push(s.out, a);
        lemma_kinds_push(s.out.push(a), body);
        lemma_kinds_push(s.out.push(a).push(body), table);
        assert(next.out =~= s.out.push(a).push(body).push(table));
        assert(before.push(ContainerEndView::TableBody).drop_last() =~= before);
        assert(before.drop_last() =~= base);
    }
}

/// The end of the head of a table outside of absorbed elements keeps the state fitting.
#[verifier::rlimit(30)]
proof fn lemma_head_end_keeps_linked(open: Seq<MarkdownTag>, s: MarkdownState)
    requires
        linked(open, s),
        s.absorbing is None,
        open.len() > 0,
        open.last() is TableHead,
    ensures
        linked(open.drop_last(), markdown_step(s, MarkdownEvent::End(MarkdownTagEnd::TableHead))),
{
    let e = MarkdownEvent::End(MarkdownTagEnd::TableHead);
    let rest = open.drop_last();
    let next = markdown_step(s, e);
    let frames = s.ctx.frames;
    let below = frames.drop_last();
    let more = next.ctx.frames;
    let sections = section_kinds(s.ctx.sections.len());
    let base = sections + elements_kinds(rest, below);
    assert(open.take(open.len() as int) =~= open);
    assert(rest.take(rest.len() as int) =~= rest);
    lemma_end_keeps_framed(open, frames, MarkdownTagEnd::TableHead);
    let before = base.push(ContainerEndView::TableHead).push(ContainerEndView::TableRow);
    assert(sections + elements_kinds(open, frames) =~= before);
    let a = end_with(ContainerEndView::TableRow);
    let b = end_with(ContainerEndView::TableHead);
    lemma_kinds_push(s.out, a);
    lemma_kinds_push(s.out.push(a), b);
    assert(before.drop_last() =~= base.push(ContainerEndView::TableHead));
    assert(before.drop_last().drop_last() =~= base);
    if table_above(below) {
        let c = start_of(ContainerView::TableBody);
        let inner = sections + elements_kinds(rest.drop_last(), below.drop_last());
        let i = open.len() - 1;
        assert(open[i] is TableHead);
        assert(frames.take(i) =~= below);
        assert(!has_body(below.last()));
        assert(fits(open[i - 1], frames[i - 1]));
        assert(rest.last() == open[i - 1]);
        assert(below.last() == frames[i - 1]);
        assert(rest.last() is Table);
        assert(elements_kinds(rest, below) == elements_kinds(rest.drop_last(), below.drop_last())
            + element_kinds(rest.last(), below.last()));
        assert(base =~= inner.push(ContainerEndView::Table));
        lemma_kinds_push(s.out.push(a).push(b), c);
        assert(next.out =~= s.out.push(a).push(b).push(c));
        assert(more.drop_last() =~= below.drop_last());
        assert(elements_kinds(rest, more) == elements_kinds(rest.drop_last(), below.drop_last())
            + element_kinds(rest.last(), more.last()));
        assert(base.push(ContainerEndView::TableBody) =~= sections + elements_kinds(rest, more));
    } else {
        assert(next.out =~= s.out.push(a).push(b));
        assert(more =~= below);
    }
}

/// The end of an element outside of absorbed ones keeps the state fitting.
#[verifier::rlimit(30)]
proof fn lemma_end_keeps_linked(open: Seq<MarkdownTag>, s: MarkdownState, end: MarkdownTagEnd)
    requires
        linked(open, s),
        s.absorbing is None,
        open.len() > 0,
        markdown_closes(open.last(), end),
    ensures
        linked(open.drop_last(), markdown_step(s, MarkdownEvent::End(end))),
{
    match end {
        MarkdownTagEnd::Table => lemma_table_end_keeps_linked(open, s),
        MarkdownTagEnd::TableHead => lemma_head_end_keeps_linked(open, s),
        _ => {
            let e = MarkdownEvent::End(end);
            let rest = open.drop_last();
            let next = markdown_step(s, e);
            let frames = s.ctx.frames;
            let below = frames.drop_last();
            let more = next.ctx.frames;
            let sections = section_kinds(s.ctx.sections.len());
            let base = sections + elements_kinds(rest, below);
            let piece = element_kinds(open.last(), frames.last());
            assert(open.take(open.len() as int) =~= open);
            assert(rest.take(rest.len() as int) =~= rest);
            assert(!absorbs(open[open.len() - 1]) && fits(
                open[open.len() - 1],
                frames[open.len() - 1],
            ));
            lemma_end_keeps_framed(open, frames, end);
            assert(sections + elements_kinds(open, frames) =~= base + piece);
            if end is TableCell && below.len() > 0 && below.last() is Row {
                assert(more.drop_last() =~= below.drop_last());
                assert(fits(open[open.len() - 2], frames[open.len() - 2]));
                assert(rest.last() == open[open.len() - 2]);
                assert(below.last() == frames[open.len() - 2]);
                assert(elements_kinds(rest, more) == elements_kinds(
                    rest.drop_last(),
                    below.drop_last(),
                ) + element_kinds(rest.last(), more.last()));
                assert(elements_kinds(rest, below) == elements_kinds(
                    rest.drop_last(),
                    below.drop_last(),
                ) + element_kinds(rest.last(), below.last()));
            } else {
                assert(more =~= below);
            }
            let added = end_events(end, s.ctx);
            if added.len() == 0 {
                assert(next.out =~= s.out);
                assert(base + piece =~= base);
            } else {
                assert(next.out =~= s.out.push(added[0]));
                lemma_kinds_push(s.out, added[0]);
                assert(base + piece =~= base.push(piece[0]));
                assert((base + piece).drop_last() =~= base);
            }
        },
    }
}

/// An event that starts and ends nothing keeps the state fitting, outside of absorbed
/// elements.
proof fn lemma_leaf_keeps_linked(open: Seq<MarkdownTag>, s: MarkdownState, e: MarkdownEvent)
    requires
        linked(open, s),
        s.absorbing is None,
        markdown_nesting(e) is Leaf,
    ensures
        linked(open, markdown_step(s, e)),
{
    let next = markdown_step(s, e);
    let added = adapted(e, s.ctx);
    match e {
        MarkdownEvent::Code(text) => {
            let kind = ContainerEndView::Other { tag: "code"@ };
            let before = open_kinds(s.out)->0;
            lemma_kinds_push(s.out, added[0]);
            lemma_kinds_push(s.out.push(added[0]), added[1]);
            lemma_kinds_push(s.out.push(added[0]).push(added[1]), added[2]);
            assert(next.out =~= s.out.push(added[0]).push(added[1]).push(added[2]));
            assert(before.push(kind).drop_last() =~= before);
        },
        _ => {
            assert(next.out =~= s.out.push(added[0]));
            lemma_kinds_push(s.out, added[0]);
        },
    }
}

/// After the events of a document the state of the adapter fits what is open.
proof fn lemma_run_is_linked(events: Seq<MarkdownEvent>)
    requires
        open_elements(events) is Some,
    ensures
        linked(open_elements(events)->0, markdown_run(events)),
    decreases events.len(),
{
    if events.len() == 0 {
        let none = Seq::<MarkdownTag>::empty();
        assert(none.take(0) =~= none);
        assert(section_kinds(0) + elements_kinds(none, Seq::<FrameView>::empty())
            =~= Seq::<ContainerEndView>::empty());
        assert(kinds(Seq::<ContainerView>::empty()) =~= Seq::<ContainerEndView>::empty());
    } else {
        let before = events.drop_last();
        let e = events.last();
        lemma_run_is_linked(before);
        let open = open_elements(before)->0;
        let s = markdown_run(before);
        if s.absorbing is Some {
            lemma_absorbed_keeps_linked(open, s, e);
        } else {
            match e {
                MarkdownEvent::Start(tag) => lemma_start_keeps_linked(open, s, tag),
                MarkdownEvent::End(end) => lemma_end_keeps_linked(open, s, end),
                _ => lemma_leaf_keeps_linked(open, s, e),
            }
        }
    }
}

/// A document in which every element that starts also ends, in its turn, and every
/// heading starts where no other element is open, becomes a balanced document: every
/// end closes the container opened last, and with the sections that are closed at the
/// end nothing stays open. Tables may stand in tables, and a table needs no head.
pub proof fn lemma_markdown_ir_is_balanced(events: Seq<MarkdownEvent>)
    requires
        markdown_balanced(events),
    ensures
        balanced(markdown_ir(events)),
{
    lemma_run_is_linked(events);
    let s = markdown_run(events);
    let n = s.ctx.sections.len();
    let none = Seq::<MarkdownTag>::empty();
    assert(none.take(0) =~= none);
    assert(section_kinds(n) + elements_kinds(none, s.ctx.frames) =~= section_kinds(n));
    lemma_section_ends(s.out, n, n);
    let open = open_containers(markdown_ir(events))->0;
    assert(kinds(open).len() == open.len());
    assert(open =~= Seq::<ContainerView>::empty());
}

} // verus!
