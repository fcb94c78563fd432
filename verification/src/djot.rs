//! The Djot adapter: turns the events of a Djot parser into the intermediate
//! representation.

use crate::attributes::{add_class, with_class, AttributeSeq, Attributes};
use crate::ir_markup::{
    events_view, push_event, Alignment, Container, ContainerEnd, ContainerEndView, ContainerView,
    Event, EventView, ListKind, MathKind,
};
use crate::laws::{balanced, closes, open_containers, well_nested};
use crate::span::Nesting;
use vstd::prelude::*;
use vstd::string::*;

verus! {

/// A container of a Djot document, with what the adapter reads of it.
#[derive(Clone, Debug)]
pub enum DjotContainer {
    Blockquote,
    List { kind: ListKind, tight: bool },
    ListItem,
    TaskListItem { checked: bool },
    DescriptionList,
    DescriptionDetails,
    Footnote { label: String },
    Table,
    TableRow { head: bool },
    Section { id: String },
    Div { class: String },
    Paragraph,
    Heading { level: u16, id: String },
    TableCell { alignment: Alignment, head: bool },
    Caption,
    DescriptionTerm,
    LinkDefinition,
    RawBlock { format: String },
    CodeBlock { language: String },
    Span,
    Link { destination: String },
    Image { destination: String },
    Verbatim,
    Math { display: bool },
    RawInline { format: String },
    Subscript,
    Superscript,
    Insert,
    Delete,
    Strong,
    Emphasis,
    Mark,
}

/// An event of a Djot document.
#[derive(Clone, Debug)]
pub enum DjotEvent {
    Start { container: DjotContainer, attributes: Attributes },
    End { container: DjotContainer },
    Str(String),
    FootnoteReference(String),
    Symbol(String),
    LeftSingleQuote,
    RightSingleQuote,
    LeftDoubleQuote,
    RightDoubleQuote,
    Ellipsis,
    EnDash,
    EmDash,
    NonBreakingSpace,
    Softbreak,
    Hardbreak,
    Escape,
    Blankline,
    ThematicBreak { attributes: Attributes },
}

/// What a Djot event does to the nesting depth.
pub open spec fn djot_nesting(e: DjotEvent) -> Nesting {
    match e {
        DjotEvent::Start { container, attributes } => Nesting::Opens,
        DjotEvent::End { container } => Nesting::Closes,
        _ => Nesting::Leaf,
    }
}

/// Whether the content of a container is taken as one text, not as events.
pub open spec fn absorbs(c: DjotContainer) -> bool {
    c is Image || c is CodeBlock || c is Math || c is RawInline || c is RawBlock
}

/// What an event inside an absorbed container adds to its text: text, the typographic
/// characters and symbols count, markup does not.
pub open spec fn raw_piece(e: DjotEvent) -> Seq<char> {
    match e {
        DjotEvent::Str(s) => s@,
        DjotEvent::Ellipsis => "…"@,
        DjotEvent::EnDash => "–"@,
        DjotEvent::EmDash => "—"@,
        DjotEvent::NonBreakingSpace => " "@,
        DjotEvent::Symbol(s) => ":"@ + s@ + ":"@,
        _ => Seq::empty(),
    }
}

/// Whether a raw format is HTML, in whatever case it is written.
pub open spec fn is_html_format(f: Seq<char>) -> bool {
    f.len() == 4 && (f[0] == 'h' || f[0] == 'H') && (f[1] == 't' || f[1] == 'T') && (f[2] == 'm'
        || f[2] == 'M') && (f[3] == 'l' || f[3] == 'L')
}

/// The event that an absorbed container becomes once its text is complete.
pub open spec fn absorbed(c: DjotContainer, attributes: AttributeSeq, text: Seq<char>) -> Seq<
    EventView,
> {
    match c {
        DjotContainer::Image { destination } => seq![
            EventView::Image { destination: destination@, alt: text, attributes },
        ],
        DjotContainer::CodeBlock { language } => seq![
            EventView::CodeBlock { language: language@, code: text, attributes },
        ],
        DjotContainer::Math { display } => seq![
            EventView::Math {
                kind: if display {
                    MathKind::Display
                } else {
                    MathKind::Inline
                },
                math: text,
                attributes,
            },
        ],
        DjotContainer::RawInline { format } => if is_html_format(format@) {
            seq![EventView::HtmlInline { content: text, attributes }]
        } else {
            Seq::empty()
        },
        DjotContainer::RawBlock { format } => if is_html_format(format@) {
            seq![EventView::HtmlBlock { content: text, attributes }]
        } else {
            Seq::empty()
        },
        _ => Seq::empty(),
    }
}

/// An absorbed container becomes one event at most, and never the start or the end of a
/// container: what it held is text of that one event.
pub proof fn lemma_absorbed_is_leaf(c: DjotContainer, attributes: AttributeSeq, text: Seq<char>)
    ensures
        absorbed(c, attributes, text).len() <= 1,
        forall|i: int|
            0 <= i < absorbed(c, attributes, text).len() ==> crate::span::nesting_of(
                #[trigger] absorbed(c, attributes, text)[i],
            ) is Leaf,
{
}

/// The container of the intermediate representation that a Djot container is, where it
/// is one without more ado.
pub open spec fn plain_container(c: DjotContainer) -> Option<ContainerView> {
    match c {
        DjotContainer::Blockquote => Some(ContainerView::Blockquote),
        DjotContainer::List { kind, tight } => Some(ContainerView::List { kind, tight }),
        DjotContainer::ListItem => Some(ContainerView::ListItem),
        DjotContainer::TaskListItem { checked } => Some(ContainerView::TaskListItem { checked }),
        DjotContainer::DescriptionList => Some(ContainerView::DescriptionList),
        DjotContainer::DescriptionDetails => Some(ContainerView::DescriptionDetails),
        DjotContainer::Footnote { label } => Some(ContainerView::Footnote { label: label@ }),
        DjotContainer::Section { id } => Some(ContainerView::Section { id: id@ }),
        DjotContainer::Paragraph => Some(ContainerView::Paragraph),
        DjotContainer::Heading { level, id } => Some(ContainerView::Heading { level, id: id@ }),
        DjotContainer::TableCell { alignment, head } => Some(
            ContainerView::TableCell { alignment, head },
        ),
        DjotContainer::Caption => Some(ContainerView::Other { tag: "caption"@ }),
        DjotContainer::DescriptionTerm => Some(ContainerView::DescriptionTerm),
        DjotContainer::Span => Some(ContainerView::Other { tag: "span"@ }),
        DjotContainer::Link { destination } => Some(
            ContainerView::Link { destination: destination@ },
        ),
        DjotContainer::Verbatim => Some(ContainerView::Other { tag: "code"@ }),
        DjotContainer::Subscript => Some(ContainerView::Other { tag: "sub"@ }),
        DjotContainer::Superscript => Some(ContainerView::Other { tag: "sup"@ }),
        DjotContainer::Insert => Some(ContainerView::Other { tag: "ins"@ }),
        DjotContainer::Delete => Some(ContainerView::Other { tag: "del"@ }),
        DjotContainer::Strong => Some(ContainerView::Other { tag: "strong"@ }),
        DjotContainer::Emphasis => Some(ContainerView::Other { tag: "em"@ }),
        DjotContainer::Mark => Some(ContainerView::Other { tag: "mark"@ }),
        _ => None,
    }
}

pub open spec fn start_of(container: ContainerView) -> EventView {
    EventView::Start { container, attributes: Seq::empty() }
}

pub open spec fn end_with(container: ContainerEndView) -> EventView {
    EventView::End { container }
}

/// What the adapter remembers of a container that is open.
#[derive(Clone, Copy, Debug, PartialEq, Eq, Structural)]
pub enum Frame {
    /// A table, and whether its body has been opened.
    Table { body_open: bool },
    /// Any other container.
    Other,
}

/// What surrounds an event: whether it stands directly in a table, and whether the body
/// of the table at hand has been opened.
pub struct Place {
    pub in_table: bool,
    pub body_open: bool,
}

/// Whether the innermost open container is a table.
pub open spec fn table_above(frames: Seq<Frame>) -> bool {
    frames.len() > 0 && frames.last() is Table
}

/// Whether the innermost open container is a table whose body has been opened.
pub open spec fn body_above(frames: Seq<Frame>) -> bool {
    frames.len() > 0 && frames.last() == (Frame::Table { body_open: true })
}

/// What surrounds the start of a container: the table at hand is the innermost open
/// container, if that is a table.
pub open spec fn start_place(frames: Seq<Frame>) -> Place {
    Place { in_table: table_above(frames), body_open: body_above(frames) }
}

/// What surrounds the end of a container: the table at hand is the container itself,
/// and the container stands in a table if the one around it is a table.
pub open spec fn end_place(frames: Seq<Frame>) -> Place {
    Place {
        in_table: frames.len() > 0 && table_above(frames.drop_last()),
        body_open: body_above(frames),
    }
}

/// What the start of a container becomes. A row that stands directly in a table opens
/// the head of the table or, unless it is open, its body.
pub open spec fn start_events(c: DjotContainer, attributes: AttributeSeq, place: Place) -> Seq<
    EventView,
> {
    match c {
        DjotContainer::Div { class } => seq![
            EventView::Start {
                container: ContainerView::Div,
                attributes: with_class(attributes, class@),
            },
        ],
        DjotContainer::Table => seq![
            EventView::Start { container: ContainerView::Table, attributes },
        ],
        DjotContainer::TableRow { head } => (if !place.in_table {
            Seq::empty()
        } else if head {
            if place.body_open {
                seq![end_with(ContainerEndView::TableBody), start_of(ContainerView::TableHead)]
            } else {
                seq![start_of(ContainerView::TableHead)]
            }
        } else {
            if place.body_open {
                Seq::empty()
            } else {
                seq![start_of(ContainerView::TableBody)]
            }
        }).push(EventView::Start { container: ContainerView::TableRow, attributes }),
        _ => match plain_container(c) {
            Some(container) => seq![EventView::Start { container, attributes }],
            None => Seq::empty(),
        },
    }
}

/// What the end of a container becomes. A table closes its body, which it opens first
/// if no row has done so; a head row that stands directly in a table closes the head.
pub open spec fn end_events(c: DjotContainer, place: Place) -> Seq<EventView> {
    match c {
        DjotContainer::Div { class } => seq![end_with(ContainerEndView::Div)],
        DjotContainer::Table => if place.body_open {
            seq![end_with(ContainerEndView::TableBody), end_with(ContainerEndView::Table)]
        } else {
            seq![
                start_of(ContainerView::TableBody),
                end_with(ContainerEndView::TableBody),
                end_with(ContainerEndView::Table),
            ]
        },
        DjotContainer::TableRow { head } => if head && place.in_table {
            seq![end_with(ContainerEndView::TableRow), end_with(ContainerEndView::TableHead)]
        } else {
            seq![end_with(ContainerEndView::TableRow)]
        },
        _ => match plain_container(c) {
            Some(container) => seq![end_with(crate::ir_markup::end_of(container))],
            None => Seq::empty(),
        },
    }
}

/// What the adapter remembers of the open containers after an event. The start of a
/// container adds a frame and the end of one takes the innermost frame away; a row that
/// starts directly in a table notes in the frame of the table whether its body is open.
pub open spec fn frames_after(e: DjotEvent, frames: Seq<Frame>) -> Seq<Frame> {
    match e {
        DjotEvent::Start { container, attributes } => (match container {
            DjotContainer::TableRow { head } => if table_above(frames) {
                frames.drop_last().push(Frame::Table { body_open: !head })
            } else {
                frames
            },
            _ => frames,
        }).push(
            if container is Table {
                Frame::Table { body_open: false }
            } else {
                Frame::Other
            },
        ),
        DjotEvent::End { container } => if frames.len() > 0 {
            frames.drop_last()
        } else {
            frames
        },
        _ => frames,
    }
}

pub open spec fn text_event(s: Seq<char>) -> EventView {
    EventView::Str(s)
}

pub open spec fn raw_html(content: Seq<char>) -> EventView {
    EventView::HtmlInline { content, attributes: Seq::empty() }
}

/// What an event outside of absorbed containers becomes.
pub open spec fn adapted(e: DjotEvent, frames: Seq<Frame>) -> Seq<EventView> {
    match e {
        DjotEvent::Start { container, attributes } => start_events(
            container,
            attributes@,
            start_place(frames),
        ),
        DjotEvent::End { container } => end_events(container, end_place(frames)),
        DjotEvent::Str(s) => seq![text_event(s@)],
        DjotEvent::Symbol(s) => seq![text_event(s@)],
        DjotEvent::FootnoteReference(reference) => seq![
            EventView::FootnoteReference { reference: reference@ },
        ],
        DjotEvent::LeftSingleQuote => seq![text_event("‘"@)],
        DjotEvent::RightSingleQuote => seq![text_event("’"@)],
        DjotEvent::LeftDoubleQuote => seq![text_event("“"@)],
        DjotEvent::RightDoubleQuote => seq![text_event("”"@)],
        DjotEvent::Ellipsis => seq![text_event("…"@)],
        DjotEvent::EnDash => seq![text_event("–"@)],
        DjotEvent::EmDash => seq![text_event("—"@)],
        DjotEvent::NonBreakingSpace => seq![raw_html("&nbsp;"@)],
        DjotEvent::Softbreak => seq![text_event("\n"@)],
        DjotEvent::Hardbreak => seq![raw_html("<br />"@)],
        DjotEvent::Escape => Seq::empty(),
        DjotEvent::Blankline => Seq::empty(),
        DjotEvent::ThematicBreak { attributes } => seq![
            EventView::TagWithAttribute { tag: "hr"@, attributes: attributes@ },
        ],
    }
}

/// A container that is being absorbed.
pub struct Absorbing {
    pub container: DjotContainer,
    pub attributes: AttributeSeq,
    /// How many containers are open, the absorbed one included.
    pub depth: nat,
    pub text: Seq<char>,
}

/// Where the adapter stands between two events.
pub struct DjotState {
    /// What has been produced.
    pub out: Seq<EventView>,
    /// The container that is being absorbed, if any.
    pub absorbing: Option<Absorbing>,
    /// What is remembered of the containers that are open, outermost first.
    pub frames: Seq<Frame>,
}

pub open spec fn djot_start() -> DjotState {
    DjotState { out: Seq::empty(), absorbing: None, frames: Seq::empty() }
}

/// The state after one more event.
pub open spec fn djot_step(s: DjotState, e: DjotEvent) -> DjotState {
    match s.absorbing {
        Some(a) => match djot_nesting(e) {
            Nesting::Opens => DjotState {
                absorbing: Some(Absorbing { depth: a.depth + 1, ..a }),
                ..s
            },
            Nesting::Closes => if a.depth <= 1 {
                DjotState {
                    out: s.out + absorbed(a.container, a.attributes, a.text),
                    absorbing: None,
                    ..s
                }
            } else {
                DjotState { absorbing: Some(Absorbing { depth: (a.depth - 1) as nat, ..a }), ..s }
            },
            Nesting::Leaf => DjotState {
                absorbing: Some(Absorbing { text: a.text + raw_piece(e), ..a }),
                ..s
            },
        },
        None => match e {
            DjotEvent::Start { container, attributes } if absorbs(container) => DjotState {
                absorbing: Some(
                    Absorbing { container, attributes: attributes@, depth: 1, text: Seq::empty() },
                ),
                ..s
            },
            _ => DjotState {
                out: s.out + adapted(e, s.frames),
                frames: frames_after(e, s.frames),
                ..s
            },
        },
    }
}

/// The state after a sequence of events.
pub open spec fn djot_run(events: Seq<DjotEvent>) -> DjotState
    decreases events.len(),
{
    if events.len() == 0 {
        djot_start()
    } else {
        djot_step(djot_run(events.drop_last()), events.last())
    }
}

/// What a Djot document becomes. A container that is absorbed and never closed takes in
/// the rest of the document.
pub open spec fn djot_ir(events: Seq<DjotEvent>) -> Seq<EventView> {
    let s = djot_run(events);
    match s.absorbing {
        Some(a) => s.out + absorbed(a.container, a.attributes, a.text),
        None => s.out,
    }
}

impl DjotEvent {
    pub fn nesting(&self) -> (r: Nesting)
        ensures
            r == djot_nesting(*self),
    {
        match self {
            DjotEvent::Start { container, attributes } => Nesting::Opens,
            DjotEvent::End { container } => Nesting::Closes,
            _ => Nesting::Leaf,
        }
    }
}

impl DjotContainer {
    /// A copy of the container.
    pub fn duplicate(&self) -> (r: DjotContainer)
        ensures
            r == *self,
    {
        match self {
            DjotContainer::Blockquote => DjotContainer::Blockquote,
            DjotContainer::List { kind, tight } => DjotContainer::List { kind: *kind, tight: *tight },
            DjotContainer::ListItem => DjotContainer::ListItem,
            DjotContainer::TaskListItem { checked } => DjotContainer::TaskListItem {
                checked: *checked,
            },
            DjotContainer::DescriptionList => DjotContainer::DescriptionList,
            DjotContainer::DescriptionDetails => DjotContainer::DescriptionDetails,
            DjotContainer::Footnote { label } => DjotContainer::Footnote { label: label.clone() },
            DjotContainer::Table => DjotContainer::Table,
            DjotContainer::TableRow { head } => DjotContainer::TableRow { head: *head },
            DjotContainer::Section { id } => DjotContainer::Section { id: id.clone() },
            DjotContainer::Div { class } => DjotContainer::Div { class: class.clone() },
            DjotContainer::Paragraph => DjotContainer::Paragraph,
            DjotContainer::Heading { level, id } => DjotContainer::Heading {
                level: *level,
                id: id.clone(),
            },
            DjotContainer::TableCell { alignment, head } => DjotContainer::TableCell {
                alignment: *alignment,
                head: *head,
            },
            DjotContainer::Caption => DjotContainer::Caption,
            DjotContainer::DescriptionTerm => DjotContainer::DescriptionTerm,
            DjotContainer::LinkDefinition => DjotContainer::LinkDefinition,
            DjotContainer::RawBlock { format } => DjotContainer::RawBlock { format: format.clone() },
            DjotContainer::CodeBlock { language } => DjotContainer::CodeBlock {
                language: language.clone(),
            },
            DjotContainer::Span => DjotContainer::Span,
            DjotContainer::Link { destination } => DjotContainer::Link {
                destination: destination.clone(),
            },
            DjotContainer::Image { destination } => DjotContainer::Image {
                destination: destination.clone(),
            },
            DjotContainer::Verbatim => DjotContainer::Verbatim,
            DjotContainer::Math { display } => DjotContainer::Math { display: *display },
            DjotContainer::RawInline { format } => DjotContainer::RawInline {
                format: format.clone(),
            },
            DjotContainer::Subscript => DjotContainer::Subscript,
            DjotContainer::Superscript => DjotContainer::Superscript,
            DjotContainer::Insert => DjotContainer::Insert,
            DjotContainer::Delete => DjotContainer::Delete,
            DjotContainer::Strong => DjotContainer::Strong,
            DjotContainer::Emphasis => DjotContainer::Emphasis,
            DjotContainer::Mark => DjotContainer::Mark,
        }
    }

    /// Whether the content of the container is taken as one text.
    pub fn absorbs(&self) -> (r: bool)
        ensures
            r == absorbs(*self),
    {
        match self {
            DjotContainer::Image { destination } => true,
            DjotContainer::CodeBlock { language } => true,
            DjotContainer::Math { display } => true,
            DjotContainer::RawInline { format } => true,
            DjotContainer::RawBlock { format } => true,
            _ => false,
        }
    }

    /// The container of the intermediate representation that this container is, where
    /// it is one without more ado.
    pub fn plain(&self) -> (r: Option<Container>)
        ensures
            match r {
                Some(c) => plain_container(*self) == Some(c@),
                None => plain_container(*self) is None,
            },
    {
        match self {
            DjotContainer::Blockquote => Some(Container::Blockquote),
            DjotContainer::List { kind, tight } => Some(
                Container::List { kind: *kind, tight: *tight },
            ),
            DjotContainer::ListItem => Some(Container::ListItem),
            DjotContainer::TaskListItem { checked } => Some(
                Container::TaskListItem { checked: *checked },
            ),
            DjotContainer::DescriptionList => Some(Container::DescriptionList),
            DjotContainer::DescriptionDetails => Some(Container::DescriptionDetails),
            DjotContainer::Footnote { label } => Some(Container::Footnote { label: label.clone() }),
            DjotContainer::Section { id } => Some(Container::Section { id: id.clone() }),
            DjotContainer::Paragraph => Some(Container::Paragraph),
            DjotContainer::Heading { level, id } => Some(
                Container::Heading { level: *level, id: id.clone() },
            ),
            DjotContainer::TableCell { alignment, head } => Some(
                Container::TableCell { alignment: *alignment, head: *head },
            ),
            DjotContainer::Caption => Some(Container::other("caption")),
            DjotContainer::DescriptionTerm => Some(Container::DescriptionTerm),
            DjotContainer::Span => Some(Container::other("span")),
            DjotContainer::Link { destination } => Some(
                Container::Link { destination: destination.clone() },
            ),
            DjotContainer::Verbatim => Some(Container::other("code")),
            DjotContainer::Subscript => Some(Container::other("sub")),
            DjotContainer::Superscript => Some(Container::other("sup")),
            DjotContainer::Insert => Some(Container::other("ins")),
            DjotContainer::Delete => Some(Container::other("del")),
            DjotContainer::Strong => Some(Container::other("strong")),
            DjotContainer::Emphasis => Some(Container::other("em")),
            DjotContainer::Mark => Some(Container::other("mark")),
            _ => None,
        }
    }
}

/// Whether a raw format is HTML, in whatever case it is written.
pub fn is_html(format: &str) -> (r: bool)
    ensures
        r == is_html_format(format@),
{
    if format.unicode_len() != 4 {
        return false;
    }
    let a = format.get_char(0);
    let b = format.get_char(1);
    let c = format.get_char(2);
    let d = format.get_char(3);
    (a == 'h' || a == 'H') && (b == 't' || b == 'T') && (c == 'm' || c == 'M') && (d == 'l' || d
        == 'L')
}

fn push_raw_piece(text: &mut String, e: &DjotEvent)
    ensures
        final(text)@ == old(text)@ + raw_piece(*e),
{
    match e {
        DjotEvent::Str(s) => text.append(s.as_str()),
        DjotEvent::Ellipsis => text.append("…"),
        DjotEvent::EnDash => text.append("–"),
        DjotEvent::EmDash => text.append("—"),
        DjotEvent::NonBreakingSpace => text.append(" "),
        DjotEvent::Symbol(s) => {
            text.append(":");
            text.append(s.as_str());
            text.append(":");
            assert(text@ =~= old(text)@ + raw_piece(*e));
        },
        _ => {
            assert(text@ =~= old(text)@ + raw_piece(*e));
        },
    }
}

fn push_absorbed(out: &mut Vec<Event>, container: &DjotContainer, attributes: Attributes, text: String)
    ensures
        events_view(final(out)@) == events_view(old(out)@) + absorbed(
            *container,
            attributes@,
            text@,
        ),
{
    let ghost before = events_view(out@);
    let ghost target = before + absorbed(*container, attributes@, text@);
    match container {
        DjotContainer::Image { destination } => {
            push_event(out, Event::Image { destination: destination.clone(), alt: text, attributes });
        },
        DjotContainer::CodeBlock { language } => {
            push_event(out, Event::CodeBlock { language: language.clone(), code: text, attributes });
        },
        DjotContainer::Math { display } => {
            let kind = if *display {
                MathKind::Display
            } else {
                MathKind::Inline
            };
            push_event(out, Event::Math { kind, math: text, attributes });
        },
        DjotContainer::RawInline { format } => {
            if is_html(format.as_str()) {
                push_event(out, Event::HtmlInline { content: text, attributes });
            }
        },
        DjotContainer::RawBlock { format } => {
            if is_html(format.as_str()) {
                push_event(out, Event::HtmlBlock { content: text, attributes });
            }
        },
        _ => {},
    }
    assert(events_view(out@) =~= target);
}

fn push_start(out: &mut Vec<Event>, container: &DjotContainer, attributes: &Attributes, place: &Place)
    ensures
        events_view(final(out)@) == events_view(old(out)@) + start_events(
            *container,
            attributes@,
            *place,
        ),
{
    let ghost before = events_view(out@);
    let ghost target = before + start_events(*container, attributes@, *place);
    match container {
        DjotContainer::Div { class } => {
            push_event(
                out,
                Event::Start {
                    container: Container::Div,
                    attributes: add_class(attributes, class.as_str()),
                },
            );
        },
        DjotContainer::Table => {
            push_event(
                out,
                Event::Start { container: Container::Table, attributes: attributes.duplicate() },
            );
        },
        DjotContainer::TableRow { head } => {
            if !place.in_table {
            } else if *head {
                if place.body_open {
                    push_event(out, Event::end(ContainerEnd::TableBody));
                }
                push_event(out, Event::start(Container::TableHead));
            } else if !place.body_open {
                push_event(out, Event::start(Container::TableBody));
            }
            push_event(
                out,
                Event::Start { container: Container::TableRow, attributes: attributes.duplicate() },
            );
        },
        _ => {
            match container.plain() {
                Some(c) => {
                    push_event(out, Event::Start { container: c, attributes: attributes.duplicate() });
                },
                None => {},
            }
        },
    }
    assert(events_view(out@) =~= target);
}

fn push_end(out: &mut Vec<Event>, container: &DjotContainer, place: &Place)
    ensures
        events_view(final(out)@) == events_view(old(out)@) + end_events(*container, *place),
{
    let ghost before = events_view(out@);
    let ghost target = before + end_events(*container, *place);
    match container {
        DjotContainer::Div { class } => {
            push_event(out, Event::end(ContainerEnd::Div));
        },
        DjotContainer::Table => {
            if !place.body_open {
                push_event(out, Event::start(Container::TableBody));
            }
            push_event(out, Event::end(ContainerEnd::TableBody));
            push_event(out, Event::end(ContainerEnd::Table));
        },
        DjotContainer::TableRow { head } => {
            push_event(out, Event::end(ContainerEnd::TableRow));
            if *head && place.in_table {
                push_event(out, Event::end(ContainerEnd::TableHead));
            }
        },
        _ => {
            match container.plain() {
                Some(c) => {
                    push_event(out, Event::end(c.end()));
                },
                None => {},
            }
        },
    }
    assert(events_view(out@) =~= target);
}

fn push_adapted(out: &mut Vec<Event>, e: &DjotEvent, frames: &Vec<Frame>)
    ensures
        events_view(final(out)@) == events_view(old(out)@) + adapted(*e, frames@),
{
    let ghost before = events_view(out@);
    let ghost target = before + adapted(*e, frames@);
    match e {
        DjotEvent::Start { container, attributes } => push_start(
            out,
            container,
            attributes,
            &start_place_of(frames),
        ),
        DjotEvent::End { container } => push_end(out, container, &end_place_of(frames)),
        DjotEvent::Str(s) => push_event(out, Event::text(s.as_str())),
        DjotEvent::Symbol(s) => push_event(out, Event::text(s.as_str())),
        DjotEvent::FootnoteReference(reference) => push_event(
            out,
            Event::FootnoteReference { reference: reference.clone() },
        ),
        DjotEvent::LeftSingleQuote => push_event(out, Event::text("‘")),
        DjotEvent::RightSingleQuote => push_event(out, Event::text("’")),
        DjotEvent::LeftDoubleQuote => push_event(out, Event::text("“")),
        DjotEvent::RightDoubleQuote => push_event(out, Event::text("”")),
        DjotEvent::Ellipsis => push_event(out, Event::text("…")),
        DjotEvent::EnDash => push_event(out, Event::text("–")),
        DjotEvent::EmDash => push_event(out, Event::text("—")),
        DjotEvent::NonBreakingSpace => push_event(out, Event::raw_html("&nbsp;")),
        DjotEvent::Softbreak => push_event(out, Event::text("\n")),
        DjotEvent::Hardbreak => push_event(out, Event::raw_html("<br />")),
        DjotEvent::Escape => {},
        DjotEvent::Blankline => {},
        DjotEvent::ThematicBreak { attributes } => push_event(
            out,
            Event::TagWithAttribute { tag: "hr".to_owned(), attributes: attributes.duplicate() },
        ),
    }
    assert(events_view(out@) =~= target);
}

fn is_table(frame: Frame) -> (r: bool)
    ensures
        r == (frame is Table),
{
    match frame {
        Frame::Table { body_open } => true,
        Frame::Other => false,
    }
}

fn start_place_of(frames: &Vec<Frame>) -> (place: Place)
    ensures
        place == start_place(frames@),
{
    let n = frames.len();
    if n == 0 {
        Place { in_table: false, body_open: false }
    } else {
        match frames[n - 1] {
            Frame::Table { body_open } => Place { in_table: true, body_open },
            Frame::Other => Place { in_table: false, body_open: false },
        }
    }
}

fn end_place_of(frames: &Vec<Frame>) -> (place: Place)
    ensures
        place == end_place(frames@),
{
    let n = frames.len();
    if n == 0 {
        return Place { in_table: false, body_open: false };
    }
    let body_open = match frames[n - 1] {
        Frame::Table { body_open } => body_open,
        Frame::Other => false,
    };
    assert(n >= 2 ==> frames@.drop_last().last() == frames@[n - 2]);
    Place { in_table: n >= 2 && is_table(frames[n - 2]), body_open }
}

fn update_frames(e: &DjotEvent, frames: &mut Vec<Frame>)
    ensures
        final(frames)@ == frames_after(*e, old(frames)@),
{
    match e {
        DjotEvent::Start { container, attributes } => {
            let n = frames.len();
            match container {
                DjotContainer::TableRow { head } => {
                    if n > 0 && is_table(frames[n - 1]) {
                        frames.pop();
                        frames.push(Frame::Table { body_open: !*head });
                    }
                },
                _ => {},
            }
            match container {
                DjotContainer::Table => frames.push(Frame::Table { body_open: false }),
                _ => frames.push(Frame::Other),
            }
        },
        DjotEvent::End { container } => {
            if frames.len() > 0 {
                frames.pop();
            }
        },
        _ => {},
    }
}

/// The adapter between two events: it takes the events of a Djot document one at a time
/// and hands out the events of the intermediate representation as soon as they are
/// complete.
pub struct DjotAdapter {
    /// The container that is being absorbed, with its attributes.
    absorbing: Option<(DjotContainer, Attributes)>,
    /// How many containers are open inside the absorbed container, itself included.
    depth: u128,
    /// The text of the absorbed container so far.
    text: String,
    /// What is remembered of the containers that are open, outermost first.
    frames: Vec<Frame>,
}

impl DjotAdapter {
    /// Where the adapter stands, given what it has handed out.
    pub closed spec fn state(&self, out: Seq<EventView>) -> DjotState {
        DjotState {
            out,
            absorbing: match self.absorbing {
                Some((container, attributes)) => Some(
                    Absorbing {
                        container,
                        attributes: attributes@,
                        depth: self.depth as nat,
                        text: self.text@,
                    },
                ),
                None => None,
            },
            frames: self.frames@,
        }
    }

    /// How deep the adapter stands inside an absorbed container.
    pub closed spec fn depth(&self) -> nat {
        self.depth as nat
    }

    /// An adapter at the start of a document.
    pub fn new() -> (adapter: DjotAdapter)
        ensures
            adapter.state(Seq::empty()) == djot_start(),
            adapter.depth() == 0,
    {
        DjotAdapter { absorbing: None, depth: 0, text: String::new(), frames: Vec::new() }
    }

    /// Takes one event and appends to `out` what is complete with it.
    pub fn feed(&mut self, e: &DjotEvent, out: &mut Vec<Event>)
        requires
            old(self).depth() < u128::MAX,
        ensures
            final(self).state(events_view(final(out)@)) == djot_step(
                old(self).state(events_view(old(out)@)),
                *e,
            ),
            final(self).depth() <= old(self).depth() + 1,
    {
        let ghost before = events_view(out@);
        let absorbed = self.absorbing.is_some();
        if absorbed {
            match e.nesting() {
                Nesting::Opens => {
                    self.depth += 1;
                },
                Nesting::Closes => {
                    if self.depth <= 1 {
                        let mut taken = String::new();
                        core::mem::swap(&mut self.text, &mut taken);
                        let mut pending = None;
                        core::mem::swap(&mut self.absorbing, &mut pending);
                        match pending {
                            Some((container, attributes)) => {
                                push_absorbed(out, &container, attributes, taken);
                            },
                            None => {},
                        }
                        self.depth = 0;
                    } else {
                        self.depth -= 1;
                    }
                },
                Nesting::Leaf => {
                    push_raw_piece(&mut self.text, e);
                },
            }
        } else {
            let absorb = match e {
                DjotEvent::Start { container, attributes } => container.absorbs(),
                _ => false,
            };
            match e {
                DjotEvent::Start { container, attributes } if absorb => {
                    self.absorbing = Some((container.duplicate(), attributes.duplicate()));
                    self.depth = 1;
                    self.text = String::new();
                },
                _ => {
                    push_adapted(out, e, &self.frames);
                    update_frames(e, &mut self.frames);
                },
            }
        }
    }

    /// Ends the document: an absorbed container that was not closed is handed out with
    /// the text that it has taken in.
    pub fn finish(self, out: &mut Vec<Event>)
        ensures
            events_view(final(out)@) == match self.state(events_view(old(out)@)).absorbing {
                Some(a) => events_view(old(out)@) + absorbed(a.container, a.attributes, a.text),
                None => events_view(old(out)@),
            },
    {
        let DjotAdapter { absorbing, depth, text, frames } = self;
        match absorbing {
            Some((container, attributes)) => {
                push_absorbed(out, &container, attributes, text);
            },
            None => {},
        }
    }
}

/// Turns the events of a Djot document into the intermediate representation. A balanced
/// document becomes a balanced document.
pub fn djot_to_ir(events: &Vec<DjotEvent>) -> (out: Vec<Event>)
    ensures
        events_view(out@) == djot_ir(events@),
        djot_balanced(events@) ==> balanced(events_view(out@)),
{
    proof {
        if djot_balanced(events@) {
            lemma_djot_ir_is_balanced(events@);
        }
    }
    let mut out: Vec<Event> = Vec::new();
    let mut adapter = DjotAdapter::new();
    let n = events.len();
    let mut i: usize = 0;
    assert(events@.take(0) =~= Seq::empty());
    assert(events_view(out@) =~= Seq::empty());
    while i < n
        invariant
            i <= n,
            n == events@.len(),
            adapter.depth() <= i,
            adapter.state(events_view(out@)) == djot_run(events@.take(i as int)),
        decreases n - i,
    {
        proof {
            let next = events@.take(i + 1);
            assert(next.drop_last() =~= events@.take(i as int));
            assert(next.last() == events@[i as int]);
        }
        adapter.feed(&events[i], &mut out);
        i += 1;
    }
    assert(events@.take(n as int) =~= events@);
    adapter.finish(&mut out);
    out
}

/// Whether the end of `end` closes a container that was opened as `open`: a row closes
/// a row of its kind, a division a division and a table a table; of the others, the
/// two are the same container of the intermediate representation, or both are none.
pub open spec fn djot_closes(open: DjotContainer, end: DjotContainer) -> bool {
    match (open, end) {
        (DjotContainer::TableRow { head }, DjotContainer::TableRow { head: closed }) => head
            == closed,
        (DjotContainer::Div { class }, DjotContainer::Div { class: closed }) => true,
        (DjotContainer::Table, DjotContainer::Table) => true,
        _ => !(open is TableRow || open is Div || open is Table) && !(end is TableRow || end is Div
            || end is Table) && match (plain_container(open), plain_container(end)) {
            (Some(a), Some(b)) => closes(a, crate::ir_markup::end_of(b)),
            (None, None) => true,
            _ => false,
        },
    }
}

/// The containers that are open after one more event, given those that were open
/// before; nothing where the event is an end that does not close the innermost of them.
pub open spec fn djot_open_after(open: Seq<DjotContainer>, e: DjotEvent) -> Option<
    Seq<DjotContainer>,
> {
    match e {
        DjotEvent::Start { container, attributes } => Some(open.push(container)),
        DjotEvent::End { container } => if open.len() > 0 && djot_closes(open.last(), container) {
            Some(open.drop_last())
        } else {
            None
        },
        _ => Some(open),
    }
}

/// The containers of a Djot document that are open after the events, outermost first;
/// nothing where an end stands that does not close the container opened last.
pub open spec fn djot_open(events: Seq<DjotEvent>) -> Option<Seq<DjotContainer>>
    decreases events.len(),
{
    if events.len() == 0 {
        Some(Seq::empty())
    } else {
        match djot_open(events.drop_last()) {
            None => None,
            Some(open) => djot_open_after(open, events.last()),
        }
    }
}

/// Every end closes the container opened last.
pub open spec fn djot_well_nested(events: Seq<DjotEvent>) -> bool {
    djot_open(events) is Some
}

/// Every end closes the container opened last, and nothing stays open.
pub open spec fn djot_balanced(events: Seq<DjotEvent>) -> bool {
    djot_open(events) == Some(Seq::<DjotContainer>::empty())
}

/// A container closes itself.
pub proof fn lemma_container_closes_itself(c: DjotContainer)
    ensures
        djot_closes(c, c),
{
}

/// The containers of the intermediate representation that one open Djot container
/// stands for: `body_open` is the flag of its own frame, `in_table` says whether the
/// container around it is a table.
spec fn opened_by(c: DjotContainer, body_open: bool, in_table: bool) -> Seq<ContainerView> {
    match c {
        DjotContainer::Div { class } => seq![ContainerView::Div],
        DjotContainer::Table => if body_open {
            seq![ContainerView::Table, ContainerView::TableBody]
        } else {
            seq![ContainerView::Table]
        },
        DjotContainer::TableRow { head } => if head && in_table {
            seq![ContainerView::TableHead, ContainerView::TableRow]
        } else {
            seq![ContainerView::TableRow]
        },
        _ => match plain_container(c) {
            Some(container) => seq![container],
            None => Seq::empty(),
        },
    }
}

/// The containers of the intermediate representation that are open while the Djot
/// containers `open` are, with `frames` remembered of them.
spec fn ir_open(open: Seq<DjotContainer>, frames: Seq<Frame>) -> Seq<ContainerView>
    decreases open.len(),
{
    if open.len() == 0 || frames.len() == 0 {
        Seq::empty()
    } else {
        ir_open(open.drop_last(), frames.drop_last()) + opened_by(
            open.last(),
            body_above(frames),
            table_above(frames.drop_last()),
        )
    }
}

/// How many of the open containers the absorbed one holds, itself included.
spec fn absorbed_depth(s: DjotState) -> nat {
    match s.absorbing {
        Some(a) => a.depth,
        None => 0,
    }
}

/// The state of the adapter fits the Djot containers that are open: the innermost of
/// them are counted by the absorbed container, each of the others has its frame, and
/// what has been produced leaves open what these stand for.
spec fn linked(open: Seq<DjotContainer>, s: DjotState) -> bool {
    let outer = open.take(open.len() - absorbed_depth(s));
    &&& absorbed_depth(s) <= open.len()
    &&& s.absorbing is Some ==> absorbed_depth(s) >= 1
    &&& s.frames.len() == outer.len()
    &&& forall|i: int|
        0 <= i < outer.len() ==> !absorbs(#[trigger] outer[i]) && (s.frames[i] is Table) == (
        outer[i] is Table)
    &&& open_containers(s.out) == Some(ir_open(outer, s.frames))
}

/// What one more event does to the containers that are left open.
proof fn lemma_open_push(out: Seq<EventView>, e: EventView)
    ensures
        open_containers(out.push(e)) == match open_containers(out) {
            None => None,
            Some(open) => match e {
                EventView::Start { container, attributes } => Some(open.push(container)),
                EventView::End { container } => if open.len() > 0 && closes(
                    open.last(),
                    container,
                ) {
                    Some(open.drop_last())
                } else {
                    None
                },
                _ => Some(open),
            },
        },
{
    assert(out.push(e).drop_last() =~= out);
}

/// What an absorbed container becomes leaves open what was open.
proof fn lemma_absorbed_keeps_open(
    out: Seq<EventView>,
    c: DjotContainer,
    attributes: AttributeSeq,
    text: Seq<char>,
)
    ensures
        open_containers(out + absorbed(c, attributes, text)) == open_containers(out),
{
    let added = absorbed(c, attributes, text);
    if added.len() == 0 {
        assert(out + added =~= out);
    } else {
        assert(out + added =~= out.push(added[0]));
        lemma_open_push(out, added[0]);
    }
}

/// The start of a container outside of absorbed ones keeps the state fitting.
#[verifier::rlimit(30)]
proof fn lemma_start_keeps_linked(
    open: Seq<DjotContainer>,
    s: DjotState,
    container: DjotContainer,
    attributes: Attributes,
)
    requires
        linked(open, s),
        s.absorbing is None,
        !absorbs(container),
    ensures
        linked(open.push(container), djot_step(s, DjotEvent::Start { container, attributes })),
{
    let e = DjotEvent::Start { container, attributes };
    let next = djot_step(s, e);
    let after = open.push(container);
    let frames = s.frames;
    assert(open.take(open.len() as int) =~= open);
    assert(after.take(after.len() as int) =~= after);
    assert(after.drop_last() =~= open);
    let old_open = ir_open(open, frames);
    let row_in_table = container is TableRow && table_above(frames);
    if row_in_table {
        let head = container->TableRow_head;
        let kept = frames.drop_last().push(Frame::Table { body_open: !head });
        assert(next.frames.drop_last() =~= kept);
        assert(kept.drop_last() =~= frames.drop_last());
        assert(open.last() is Table);
        let base = ir_open(open.drop_last(), frames.drop_last());
        assert(ir_open(open, kept) == base + opened_by(open.last(), !head, table_above(frames.drop_last())));
        let body = body_above(frames);
        let row = EventView::Start { container: ContainerView::TableRow, attributes: attributes@ };
        if head {
            if body {
                let a = s.out.push(end_with(ContainerEndView::TableBody));
                let b = a.push(start_of(ContainerView::TableHead));
                lemma_open_push(s.out, end_with(ContainerEndView::TableBody));
                lemma_open_push(a, start_of(ContainerView::TableHead));
                lemma_open_push(b, row);
                assert(next.out =~= b.push(row));
                assert(old_open =~= base.push(ContainerView::Table).push(ContainerView::TableBody));
                assert(old_open.drop_last() =~= base.push(ContainerView::Table));
            } else {
                let a = s.out.push(start_of(ContainerView::TableHead));
                lemma_open_push(s.out, start_of(ContainerView::TableHead));
                lemma_open_push(a, row);
                assert(next.out =~= a.push(row));
                assert(old_open =~= base.push(ContainerView::Table));
            }
            assert(ir_open(after, next.frames) =~= base.push(ContainerView::Table).push(
                ContainerView::TableHead,
            ).push(ContainerView::TableRow));
        } else {
            if body {
                lemma_open_push(s.out, row);
                assert(next.out =~= s.out.push(row));
                assert(old_open =~= base.push(ContainerView::Table).push(ContainerView::TableBody));
            } else {
                let a = s.out.push(start_of(ContainerView::TableBody));
                lemma_open_push(s.out, start_of(ContainerView::TableBody));
                lemma_open_push(a, row);
                assert(next.out =~= a.push(row));
                assert(old_open =~= base.push(ContainerView::Table));
            }
            assert(ir_open(after, next.frames) =~= base.push(ContainerView::Table).push(
                ContainerView::TableBody,
            ).push(ContainerView::TableRow));
        }
    } else {
        assert(next.frames.drop_last() =~= frames);
        let added = start_events(container, attributes@, start_place(frames));
        let piece = opened_by(container, body_above(next.frames), table_above(frames));
        assert(ir_open(after, next.frames) == old_open + piece);
        if added.len() == 0 {
            assert(next.out =~= s.out);
            assert(old_open + piece =~= old_open);
        } else {
            assert(next.out =~= s.out.push(added[0]));
            lemma_open_push(s.out, added[0]);
            assert(old_open + piece =~= old_open.push(piece[0]));
        }
    }
}

/// The end of a container outside of absorbed ones keeps the state fitting.
#[verifier::rlimit(30)]
proof fn lemma_end_keeps_linked(open: Seq<DjotContainer>, s: DjotState, container: DjotContainer)
    requires
        linked(open, s),
        s.absorbing is None,
        open.len() > 0,
        djot_closes(open.last(), container),
    ensures
        linked(open.drop_last(), djot_step(s, DjotEvent::End { container })),
{
    let e = DjotEvent::End { container };
    let next = djot_step(s, e);
    let after = open.drop_last();
    let frames = s.frames;
    assert(open.take(open.len() as int) =~= open);
    assert(after.take(after.len() as int) =~= after);
    assert(!absorbs(open[open.len() - 1]));
    let base = ir_open(after, frames.drop_last());
    let piece = opened_by(open.last(), body_above(frames), table_above(frames.drop_last()));
    let old_open = ir_open(open, frames);
    assert(old_open == base + piece);
    assert(forall|i: int| 0 <= i < after.len() ==> after[i] == open[i]);
    let added = end_events(container, end_place(frames));
    match open.last() {
        DjotContainer::Table => {
            let body = end_with(ContainerEndView::TableBody);
            let table = end_with(ContainerEndView::Table);
            if body_above(frames) {
                let a = s.out.push(body);
                lemma_open_push(s.out, body);
                lemma_open_push(a, table);
                assert(next.out =~= a.push(table));
                assert(old_open =~= base.push(ContainerView::Table).push(ContainerView::TableBody));
                assert(old_open.drop_last() =~= base.push(ContainerView::Table));
                assert(old_open.drop_last().drop_last() =~= base);
            } else {
                let a = s.out.push(start_of(ContainerView::TableBody));
                let b = a.push(body);
                lemma_open_push(s.out, start_of(ContainerView::TableBody));
                lemma_open_push(a, body);
                lemma_open_push(b, table);
                assert(next.out =~= b.push(table));
                assert(old_open =~= base.push(ContainerView::Table));
                assert(old_open.push(ContainerView::TableBody).drop_last() =~= old_open);
                assert(old_open.drop_last() =~= base);
            }
        },
        DjotContainer::TableRow { head } => {
            let row = end_with(ContainerEndView::TableRow);
            if head && table_above(frames.drop_last()) {
                let a = s.out.push(row);
                lemma_open_push(s.out, row);
                lemma_open_push(a, end_with(ContainerEndView::TableHead));
                assert(next.out =~= a.push(end_with(ContainerEndView::TableHead)));
                assert(old_open =~= base.push(ContainerView::TableHead).push(ContainerView::TableRow));
                assert(old_open.drop_last() =~= base.push(ContainerView::TableHead));
                assert(old_open.drop_last().drop_last() =~= base);
            } else {
                lemma_open_push(s.out, row);
                assert(next.out =~= s.out.push(row));
                assert(old_open =~= base.push(ContainerView::TableRow));
                assert(old_open.drop_last() =~= base);
            }
        },
        _ => {
            if added.len() == 0 {
                assert(next.out =~= s.out);
                assert(old_open =~= base);
            } else {
                assert(next.out =~= s.out.push(added[0]));
                lemma_open_push(s.out, added[0]);
                assert(old_open =~= base.push(piece[0]));
                assert(old_open.drop_last() =~= base);
            }
        },
    }
}

/// One more event keeps the state fitting.
#[verifier::rlimit(30)]
proof fn lemma_step_keeps_linked(open: Seq<DjotContainer>, s: DjotState, e: DjotEvent)
    requires
        linked(open, s),
        djot_open_after(open, e) is Some,
    ensures
        linked(djot_open_after(open, e)->0, djot_step(s, e)),
{
    let after = djot_open_after(open, e)->0;
    let next = djot_step(s, e);
    match s.absorbing {
        Some(a) => {
            let k = open.len() - a.depth;
            assert(after.take(after.len() - absorbed_depth(next)) =~= open.take(k));
            if djot_nesting(e) is Closes && a.depth <= 1 {
                lemma_absorbed_keeps_open(s.out, a.container, a.attributes, a.text);
            }
        },
        None => {
            assert(open.take(open.len() as int) =~= open);
            match e {
                DjotEvent::Start { container, attributes } => {
                    if absorbs(container) {
                        assert(after.take(after.len() - 1) =~= open);
                    } else {
                        lemma_start_keeps_linked(open, s, container, attributes);
                    }
                },
                DjotEvent::End { container } => {
                    lemma_end_keeps_linked(open, s, container);
                },
                _ => {
                    let added = adapted(e, s.frames);
                    if added.len() == 0 {
                        assert(next.out =~= s.out);
                    } else {
                        assert(next.out =~= s.out.push(added[0]));
                        lemma_open_push(s.out, added[0]);
                    }
                },
            }
        },
    }
}

/// After the events of a well-nested document the state fits what is open.
proof fn lemma_run_is_linked(events: Seq<DjotEvent>)
    requires
        djot_well_nested(events),
    ensures
        linked(djot_open(events)->0, djot_run(events)),
    decreases events.len(),
{
    if events.len() == 0 {
        let none = Seq::<DjotContainer>::empty();
        assert(none.take(0) =~= none);
    } else {
        lemma_run_is_linked(events.drop_last());
        lemma_step_keeps_linked(
            djot_open(events.drop_last())->0,
            djot_run(events.drop_last()),
            events.last(),
        );
    }
}

/// Where every end of a Djot document closes the container opened last, so does every
/// end of what the document becomes; and where the document leaves nothing open, what it
/// becomes leaves nothing open either. A table in a cell of another table is no
/// exception: each table has its own head and body.
pub proof fn lemma_djot_ir_is_balanced(events: Seq<DjotEvent>)
    requires
        djot_well_nested(events),
    ensures
        well_nested(djot_ir(events)),
        djot_balanced(events) ==> balanced(djot_ir(events)),
{
    lemma_run_is_linked(events);
    let s = djot_run(events);
    match s.absorbing {
        Some(a) => {
            lemma_absorbed_keeps_open(s.out, a.container, a.attributes, a.text);
        },
        None => {
            if djot_balanced(events) {
                let none = Seq::<DjotContainer>::empty();
                assert(none.take(0) =~= none);
            }
        },
    }
}

} // verus!
