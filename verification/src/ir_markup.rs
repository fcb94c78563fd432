//! The intermediate representation of markup: a flat sequence of events in which containers
//! are opened and closed around their content.

use crate::attributes::{AttributeSeq, Attributes};
use vstd::prelude::*;
use vstd::string::*;

verus! {

/// How the cells of a table column are aligned.
#[derive(Clone, Copy, Debug, PartialEq, Eq, Structural)]
pub enum Alignment {
    Unspecified,
    Left,
    Center,
    Right,
}

/// The numerals of an ordered list.
#[derive(Clone, Copy, Debug, PartialEq, Eq, Structural)]
pub enum OrderedListNumbering {
    Decimal,
    AlphaLower,
    AlphaUpper,
    RomanLower,
    RomanUpper,
}

#[derive(Clone, Copy, Debug, PartialEq, Eq, Structural)]
pub enum ListKind {
    Unordered,
    Ordered { numbering: OrderedListNumbering, start: u64 },
    Task,
}

#[derive(Clone, Copy, Debug, PartialEq, Eq, Structural)]
pub enum MathKind {
    Display,
    Inline,
}

/// An element that holds other events between its start and its end.
#[derive(Clone, Debug, PartialEq, Eq)]
pub enum Container {
    Blockquote,
    DescriptionList,
    DescriptionTerm,
    DescriptionDetails,
    Heading { level: u16, id: String },
    Section { id: String },
    Div,
    Paragraph,
    Link { destination: String },
    List { kind: ListKind, tight: bool },
    ListItem,
    TaskListItem { checked: bool },
    Table,
    TableHead,
    TableBody,
    TableRow,
    TableCell { alignment: Alignment, head: bool },
    Footnote { label: String },
    /// Any element that is written as a plain pair of tags, such as `em` or `span`.
    Other { tag: String },
}

/// What is needed to close a container.
#[derive(Clone, Debug, PartialEq, Eq)]
pub enum ContainerEnd {
    Blockquote,
    DescriptionList,
    DescriptionTerm,
    DescriptionDetails,
    Heading { level: u16 },
    Section,
    Div,
    Paragraph,
    Link,
    List { kind: ListKind },
    ListItem,
    TaskListItem,
    Table,
    TableHead,
    TableBody,
    TableRow,
    TableCell { head: bool },
    Footnote,
    Other { tag: String },
}

#[derive(Clone, Debug, PartialEq, Eq)]
pub enum Event {
    Start { container: Container, attributes: Attributes },
    End { container: ContainerEnd },
    Str(String),
    Image { destination: String, alt: String, attributes: Attributes },
    CodeBlock { language: String, code: String, attributes: Attributes },
    Math { kind: MathKind, math: String, attributes: Attributes },
    HtmlInline { content: String, attributes: Attributes },
    HtmlBlock { content: String, attributes: Attributes },
    /// An element without content, such as a thematic break.
    TagWithAttribute { tag: String, attributes: Attributes },
    FootnoteReference { reference: String },
}

/// A container as a mathematical value.
pub enum ContainerView {
    Blockquote,
    DescriptionList,
    DescriptionTerm,
    DescriptionDetails,
    Heading { level: u16, id: Seq<char> },
    Section { id: Seq<char> },
    Div,
    Paragraph,
    Link { destination: Seq<char> },
    List { kind: ListKind, tight: bool },
    ListItem,
    TaskListItem { checked: bool },
    Table,
    TableHead,
    TableBody,
    TableRow,
    TableCell { alignment: Alignment, head: bool },
    Footnote { label: Seq<char> },
    Other { tag: Seq<char> },
}

/// The end of a container as a mathematical value.
pub enum ContainerEndView {
    Blockquote,
    DescriptionList,
    DescriptionTerm,
    DescriptionDetails,
    Heading { level: u16 },
    Section,
    Div,
    Paragraph,
    Link,
    List { kind: ListKind },
    ListItem,
    TaskListItem,
    Table,
    TableHead,
    TableBody,
    TableRow,
    TableCell { head: bool },
    Footnote,
    Other { tag: Seq<char> },
}

/// An event as a mathematical value.
pub enum EventView {
    Start { container: ContainerView, attributes: AttributeSeq },
    End { container: ContainerEndView },
    Str(Seq<char>),
    Image { destination: Seq<char>, alt: Seq<char>, attributes: AttributeSeq },
    CodeBlock { language: Seq<char>, code: Seq<char>, attributes: AttributeSeq },
    Math { kind: MathKind, math: Seq<char>, attributes: AttributeSeq },
    HtmlInline { content: Seq<char>, attributes: AttributeSeq },
    HtmlBlock { content: Seq<char>, attributes: AttributeSeq },
    TagWithAttribute { tag: Seq<char>, attributes: AttributeSeq },
    FootnoteReference { reference: Seq<char> },
}

impl View for Container {
    type V = ContainerView;

    open spec fn view(&self) -> ContainerView {
        match self {
            Container::Blockquote => ContainerView::Blockquote,
            Container::DescriptionList => ContainerView::DescriptionList,
            Container::DescriptionTerm => ContainerView::DescriptionTerm,
            Container::DescriptionDetails => ContainerView::DescriptionDetails,
            Container::Heading { level, id } => ContainerView::Heading { level: *level, id: id@ },
            Container::Section { id } => ContainerView::Section { id: id@ },
            Container::Div => ContainerView::Div,
            Container::Paragraph => ContainerView::Paragraph,
            Container::Link { destination } => ContainerView::Link { destination: destination@ },
            Container::List { kind, tight } => ContainerView::List { kind: *kind, tight: *tight },
            Container::ListItem => ContainerView::ListItem,
            Container::TaskListItem { checked } => ContainerView::TaskListItem { checked: *checked },
            Container::Table => ContainerView::Table,
            Container::TableHead => ContainerView::TableHead,
            Container::TableBody => ContainerView::TableBody,
            Container::TableRow => ContainerView::TableRow,
            Container::TableCell { alignment, head } => ContainerView::TableCell {
                alignment: *alignment,
                head: *head,
            },
            Container::Footnote { label } => ContainerView::Footnote { label: label@ },
            Container::Other { tag } => ContainerView::Other { tag: tag@ },
        }
    }
}

impl View for ContainerEnd {
    type V = ContainerEndView;

    open spec fn view(&self) -> ContainerEndView {
        match self {
            ContainerEnd::Blockquote => ContainerEndView::Blockquote,
            ContainerEnd::DescriptionList => ContainerEndView::DescriptionList,
            ContainerEnd::DescriptionTerm => ContainerEndView::DescriptionTerm,
            ContainerEnd::DescriptionDetails => ContainerEndView::DescriptionDetails,
            ContainerEnd::Heading { level } => ContainerEndView::Heading { level: *level },
            ContainerEnd::Section => ContainerEndView::Section,
            ContainerEnd::Div => ContainerEndView::Div,
            ContainerEnd::Paragraph => ContainerEndView::Paragraph,
            ContainerEnd::Link => ContainerEndView::Link,
            ContainerEnd::List { kind } => ContainerEndView::List { kind: *kind },
            ContainerEnd::ListItem => ContainerEndView::ListItem,
            ContainerEnd::TaskListItem => ContainerEndView::TaskListItem,
            ContainerEnd::Table => ContainerEndView::Table,
            ContainerEnd::TableHead => ContainerEndView::TableHead,
            ContainerEnd::TableBody => ContainerEndView::TableBody,
            ContainerEnd::TableRow => ContainerEndView::TableRow,
            ContainerEnd::TableCell { head } => ContainerEndView::TableCell { head: *head },
            ContainerEnd::Footnote => ContainerEndView::Footnote,
            ContainerEnd::Other { tag } => ContainerEndView::Other { tag: tag@ },
        }
    }
}

impl View for Event {
    type V = EventView;

    open spec fn view(&self) -> EventView {
        match self {
            Event::Start { container, attributes } => EventView::Start {
                container: container@,
                attributes: attributes@,
            },
            Event::End { container } => EventView::End { container: container@ },
            Event::Str(s) => EventView::Str(s@),
            Event::Image { destination, alt, attributes } => EventView::Image {
                destination: destination@,
                alt: alt@,
                attributes: attributes@,
            },
            Event::CodeBlock { language, code, attributes } => EventView::CodeBlock {
                language: language@,
                code: code@,
                attributes: attributes@,
            },
            Event::Math { kind, math, attributes } => EventView::Math {
                kind: *kind,
                math: math@,
                attributes: attributes@,
            },
            Event::HtmlInline { content, attributes } => EventView::HtmlInline {
                content: content@,
                attributes: attributes@,
            },
            Event::HtmlBlock { content, attributes } => EventView::HtmlBlock {
                content: content@,
                attributes: attributes@,
            },
            Event::TagWithAttribute { tag, attributes } => EventView::TagWithAttribute {
                tag: tag@,
                attributes: attributes@,
            },
            Event::FootnoteReference { reference } => EventView::FootnoteReference {
                reference: reference@,
            },
        }
    }
}

/// Why a document could not be rendered.
#[derive(Clone, Debug, PartialEq, Eq)]
pub enum Error {
    /// The highlighter failed on a code block in a language that it knows.
    Highlight { language: String },
    /// The formula could not be converted.
    Math { math: String },
    /// An internal link names an entry that does not exist.
    UnknownInternalLink { destination: String },
    /// The document has more events than the writer can take.
    TooLong,
}

/// An error as a mathematical value.
pub enum ErrorView {
    Highlight { language: Seq<char> },
    Math { math: Seq<char> },
    UnknownInternalLink { destination: Seq<char> },
    TooLong,
}

impl View for Error {
    type V = ErrorView;

    open spec fn view(&self) -> ErrorView {
        match self {
            Error::Highlight { language } => ErrorView::Highlight { language: language@ },
            Error::Math { math } => ErrorView::Math { math: math@ },
            Error::UnknownInternalLink { destination } => ErrorView::UnknownInternalLink {
                destination: destination@,
            },
            Error::TooLong => ErrorView::TooLong,
        }
    }
}

/// Something that was put right while rendering and that the author may want to know.
#[derive(Clone, Debug, PartialEq, Eq)]
pub enum Warning {
    /// A footnote was defined a second time; both contents were kept.
    DuplicateFootnote { label: String },
    /// A footnote was referred to and never defined.
    MissingFootnote { label: String },
    /// No image is known under this reference.
    MissingImage { destination: String },
    /// The highlighter does not know this language; the code was written out plain.
    UnknownLanguage { language: String },
}

/// A warning as a mathematical value.
pub enum WarningView {
    DuplicateFootnote { label: Seq<char> },
    MissingFootnote { label: Seq<char> },
    MissingImage { destination: Seq<char> },
    UnknownLanguage { language: Seq<char> },
}

impl View for Warning {
    type V = WarningView;

    open spec fn view(&self) -> WarningView {
        match self {
            Warning::DuplicateFootnote { label } => WarningView::DuplicateFootnote { label: label@ },
            Warning::MissingFootnote { label } => WarningView::MissingFootnote { label: label@ },
            Warning::MissingImage { destination } => WarningView::MissingImage {
                destination: destination@,
            },
            Warning::UnknownLanguage { language } => WarningView::UnknownLanguage {
                language: language@,
            },
        }
    }
}

/// A list of warnings as mathematical values.
pub open spec fn warnings_view(warnings: Seq<Warning>) -> Seq<WarningView> {
    warnings.map_values(|w: Warning| w@)
}

/// A sequence of events as mathematical values.
pub open spec fn events_view(events: Seq<Event>) -> Seq<EventView> {
    events.map_values(|e: Event| e@)
}

/// The end that closes a container.
pub open spec fn end_of(c: ContainerView) -> ContainerEndView {
    match c {
        ContainerView::Blockquote => ContainerEndView::Blockquote,
        ContainerView::DescriptionList => ContainerEndView::DescriptionList,
        ContainerView::DescriptionTerm => ContainerEndView::DescriptionTerm,
        ContainerView::DescriptionDetails => ContainerEndView::DescriptionDetails,
        ContainerView::Heading { level, id } => ContainerEndView::Heading { level },
        ContainerView::Section { id } => ContainerEndView::Section,
        ContainerView::Div => ContainerEndView::Div,
        ContainerView::Paragraph => ContainerEndView::Paragraph,
        ContainerView::Link { destination } => ContainerEndView::Link,
        ContainerView::List { kind, tight } => ContainerEndView::List { kind },
        ContainerView::ListItem => ContainerEndView::ListItem,
        ContainerView::TaskListItem { checked } => ContainerEndView::TaskListItem,
        ContainerView::Table => ContainerEndView::Table,
        ContainerView::TableHead => ContainerEndView::TableHead,
        ContainerView::TableBody => ContainerEndView::TableBody,
        ContainerView::TableRow => ContainerEndView::TableRow,
        ContainerView::TableCell { alignment, head } => ContainerEndView::TableCell { head },
        ContainerView::Footnote { label } => ContainerEndView::Footnote,
        ContainerView::Other { tag } => ContainerEndView::Other { tag },
    }
}

impl Container {
    /// The end that closes this container.
    pub fn end(&self) -> (r: ContainerEnd)
        ensures
            r@ == end_of(self@),
    {
        match self {
            Container::Blockquote => ContainerEnd::Blockquote,
            Container::DescriptionList => ContainerEnd::DescriptionList,
            Container::DescriptionTerm => ContainerEnd::DescriptionTerm,
            Container::DescriptionDetails => ContainerEnd::DescriptionDetails,
            Container::Heading { level, id } => ContainerEnd::Heading { level: *level },
            Container::Section { id } => ContainerEnd::Section,
            Container::Div => ContainerEnd::Div,
            Container::Paragraph => ContainerEnd::Paragraph,
            Container::Link { destination } => ContainerEnd::Link,
            Container::List { kind, tight } => ContainerEnd::List { kind: *kind },
            Container::ListItem => ContainerEnd::ListItem,
            Container::TaskListItem { checked } => ContainerEnd::TaskListItem,
            Container::Table => ContainerEnd::Table,
            Container::TableHead => ContainerEnd::TableHead,
            Container::TableBody => ContainerEnd::TableBody,
            Container::TableRow => ContainerEnd::TableRow,
            Container::TableCell { alignment, head } => ContainerEnd::TableCell { head: *head },
            Container::Footnote { label } => ContainerEnd::Footnote,
            Container::Other { tag } => ContainerEnd::Other { tag: tag.clone() },
        }
    }

    /// A container that is written as a plain pair of tags.
    pub fn other(tag: &str) -> (r: Container)
        ensures
            r@ == (ContainerView::Other { tag: tag@ }),
    {
        Container::Other { tag: tag.to_owned() }
    }
}

impl Event {
    /// The start of a container without attributes.
    pub fn start(container: Container) -> (r: Event)
        ensures
            r@ == (EventView::Start { container: container@, attributes: Seq::empty() }),
    {
        Event::Start { container, attributes: Attributes::new() }
    }

    /// The end of a container.
    pub fn end(container: ContainerEnd) -> (r: Event)
        ensures
            r@ == (EventView::End { container: container@ }),
    {
        Event::End { container }
    }

    /// A piece of text.
    pub fn text(s: &str) -> (r: Event)
        ensures
            r@ == EventView::Str(s@),
    {
        Event::Str(s.to_owned())
    }

    /// A piece of HTML that is written out as it is.
    pub fn raw_html(content: &str) -> (r: Event)
        ensures
            r@ == (EventView::HtmlInline { content: content@, attributes: Seq::empty() }),
    {
        Event::HtmlInline { content: content.to_owned(), attributes: Attributes::new() }
    }
}

impl Container {
    /// A copy of the container.
    pub fn duplicate(&self) -> (r: Container)
        ensures
            r@ == self@,
    {
        match self {
            Container::Blockquote => Container::Blockquote,
            Container::DescriptionList => Container::DescriptionList,
            Container::DescriptionTerm => Container::DescriptionTerm,
            Container::DescriptionDetails => Container::DescriptionDetails,
            Container::Heading { level, id } => Container::Heading { level: *level, id: id.clone() },
            Container::Section { id } => Container::Section { id: id.clone() },
            Container::Div => Container::Div,
            Container::Paragraph => Container::Paragraph,
            Container::Link { destination } => Container::Link { destination: destination.clone() },
            Container::List { kind, tight } => Container::List { kind: *kind, tight: *tight },
            Container::ListItem => Container::ListItem,
            Container::TaskListItem { checked } => Container::TaskListItem { checked: *checked },
            Container::Table => Container::Table,
            Container::TableHead => Container::TableHead,
            Container::TableBody => Container::TableBody,
            Container::TableRow => Container::TableRow,
            Container::TableCell { alignment, head } => Container::TableCell {
                alignment: *alignment,
                head: *head,
            },
            Container::Footnote { label } => Container::Footnote { label: label.clone() },
            Container::Other { tag } => Container::Other { tag: tag.clone() },
        }
    }
}

impl ContainerEnd {
    /// A copy of the end.
    pub fn duplicate(&self) -> (r: ContainerEnd)
        ensures
            r@ == self@,
    {
        match self {
            ContainerEnd::Blockquote => ContainerEnd::Blockquote,
            ContainerEnd::DescriptionList => ContainerEnd::DescriptionList,
            ContainerEnd::DescriptionTerm => ContainerEnd::DescriptionTerm,
            ContainerEnd::DescriptionDetails => ContainerEnd::DescriptionDetails,
            ContainerEnd::Heading { level } => ContainerEnd::Heading { level: *level },
            ContainerEnd::Section => ContainerEnd::Section,
            ContainerEnd::Div => ContainerEnd::Div,
            ContainerEnd::Paragraph => ContainerEnd::Paragraph,
            ContainerEnd::Link => ContainerEnd::Link,
            ContainerEnd::List { kind } => ContainerEnd::List { kind: *kind },
            ContainerEnd::ListItem => ContainerEnd::ListItem,
            ContainerEnd::TaskListItem => ContainerEnd::TaskListItem,
            ContainerEnd::Table => ContainerEnd::Table,
            ContainerEnd::TableHead => ContainerEnd::TableHead,
            ContainerEnd::TableBody => ContainerEnd::TableBody,
            ContainerEnd::TableRow => ContainerEnd::TableRow,
            ContainerEnd::TableCell { head } => ContainerEnd::TableCell { head: *head },
            ContainerEnd::Footnote => ContainerEnd::Footnote,
            ContainerEnd::Other { tag } => ContainerEnd::Other { tag: tag.clone() },
        }
    }
}

impl Event {
    /// A copy of the event.
    pub fn duplicate(&self) -> (r: Event)
        ensures
            r@ == self@,
    {
        match self {
            Event::Start { container, attributes } => Event::Start {
                container: container.duplicate(),
                attributes: attributes.duplicate(),
            },
            Event::End { container } => Event::End { container: container.duplicate() },
            Event::Str(s) => Event::Str(s.clone()),
            Event::Image { destination, alt, attributes } => Event::Image {
                destination: destination.clone(),
                alt: alt.clone(),
                attributes: attributes.duplicate(),
            },
            Event::CodeBlock { language, code, attributes } => Event::CodeBlock {
                language: language.clone(),
                code: code.clone(),
                attributes: attributes.duplicate(),
            },
            Event::Math { kind, math, attributes } => Event::Math {
                kind: *kind,
                math: math.clone(),
                attributes: attributes.duplicate(),
            },
            Event::HtmlInline { content, attributes } => Event::HtmlInline {
                content: content.clone(),
                attributes: attributes.duplicate(),
            },
            Event::HtmlBlock { content, attributes } => Event::HtmlBlock {
                content: content.clone(),
                attributes: attributes.duplicate(),
            },
            Event::TagWithAttribute { tag, attributes } => Event::TagWithAttribute {
                tag: tag.clone(),
                attributes: attributes.duplicate(),
            },
            Event::FootnoteReference { reference } => Event::FootnoteReference {
                reference: reference.clone(),
            },
        }
    }
}

/// Appends an event to a sequence under construction.
pub fn push_event(out: &mut Vec<Event>, e: Event)
    ensures
        events_view(final(out)@) == events_view(old(out)@).push(e@),
        final(out)@ == old(out)@.push(e),
{
    out.push(e);
    assert(events_view(out@) =~= events_view(old(out)@).push(e@));
}

} // verus!
