//! The writer: one pass over a sequence of events that appends HTML to a buffer and keeps
//! what has to be remembered across events.

use crate::attributes::{AttributeSeq, Attributes};
use crate::bits::{bits_last, bits_new, bits_of, bits_pop, bits_push, BitStack, MAX_BITS};
use crate::ir_markup::{
    events_view, warnings_view, Container, ContainerEnd, ContainerEndView, ContainerView, Event,
    EventView, Warning, WarningView,
};
use crate::markup::{
    attr_text, attrs_string, attrs_text, end_text, end_text_of, footnote_attrs_of,
    footnote_attrs_text, footnote_id, footnote_id_of, open_tag, open_text, push_attr, start_text,
    start_text_of,
};
use crate::order::same_text;
use crate::text::{at_line_start, decimal, escape_body, escape_body_text, push_decimal};
use vstd::prelude::*;
use vstd::string::*;

verus! {

/// A footnote of the registry as a mathematical value. Its number is its position in the
/// registry plus one.
pub struct FootnoteView {
    pub label: Seq<char>,
    pub buf: Seq<char>,
    pub defined: bool,
}

/// The state of the writer as a mathematical value.
pub struct WriterView {
    /// The main output.
    pub buf: Seq<char>,
    /// The footnote whose definition is being written, if any.
    pub target: Option<int>,
    /// For each list that is open, outermost first, whether it is tight.
    pub tightness: Seq<bool>,
    /// The footnotes in the order of their numbers.
    pub footnotes: Seq<FootnoteView>,
    pub warnings: Seq<WarningView>,
}

/// The target, if there is one, is a footnote of the registry.
pub open spec fn writer_ok(w: WriterView) -> bool {
    w.target matches Some(i) ==> 0 <= i < w.footnotes.len()
}

/// The state in which a writer starts on a buffer with the content `buf`.
pub open spec fn initial(buf: Seq<char>) -> WriterView {
    WriterView {
        buf,
        target: None,
        tightness: Seq::empty(),
        footnotes: Seq::empty(),
        warnings: Seq::empty(),
    }
}

/// The buffer that text is written to at present.
pub open spec fn current(w: WriterView) -> Seq<char> {
    match w.target {
        Some(i) => w.footnotes[i].buf,
        None => w.buf,
    }
}

/// The state after `s` has been written.
pub open spec fn write(w: WriterView, s: Seq<char>) -> WriterView {
    match w.target {
        Some(i) => WriterView {
            footnotes: w.footnotes.update(
                i,
                FootnoteView { buf: w.footnotes[i].buf + s, ..w.footnotes[i] },
            ),
            ..w
        },
        None => WriterView { buf: w.buf + s, ..w },
    }
}

/// Whether nothing has been written on the current line.
pub open spec fn line_is_fresh(s: Seq<char>) -> bool {
    s.len() == 0 || s.last() == '\n'
}

/// The state after a line has been started, unless the current line is fresh.
pub open spec fn on_new_line(w: WriterView) -> WriterView {
    if line_is_fresh(current(w)) {
        w
    } else {
        write(w, "\n"@)
    }
}

/// Whether the innermost open list is tight. Outside of lists nothing is tight.
pub open spec fn in_tight_list(w: WriterView) -> bool {
    w.tightness.len() > 0 && w.tightness.last()
}

/// The position in the registry of the footnote with the given label, looking from
/// position `i` on; the length of the registry if there is none.
pub open spec fn footnote_position(fs: Seq<FootnoteView>, label: Seq<char>, i: int) -> int
    decreases fs.len() - i,
{
    if i < 0 || i >= fs.len() {
        fs.len() as int
    } else if fs[i].label == label {
        i
    } else {
        footnote_position(fs, label, i + 1)
    }
}

/// The registry after the label has been seen: a label that is new gets the next number.
pub open spec fn registered(fs: Seq<FootnoteView>, label: Seq<char>) -> Seq<FootnoteView> {
    if footnote_position(fs, label, 0) < fs.len() {
        fs
    } else {
        fs.push(FootnoteView { label, buf: Seq::empty(), defined: false })
    }
}

/// The number of the footnote with the given label once it is registered.
pub open spec fn footnote_number(fs: Seq<FootnoteView>, label: Seq<char>) -> nat {
    (footnote_position(fs, label, 0) + 1) as nat
}

/// The state after the start of a footnote definition has been noted: the label is
/// registered and marked as defined, with a warning if it was defined before.
pub open spec fn defined(w: WriterView, label: Seq<char>) -> WriterView {
    let fs = registered(w.footnotes, label);
    let p = footnote_position(w.footnotes, label, 0);
    WriterView {
        footnotes: fs.update(p, FootnoteView { defined: true, ..fs[p] }),
        warnings: if fs[p].defined {
            w.warnings.push(WarningView::DuplicateFootnote { label })
        } else {
            w.warnings
        },
        ..w
    }
}

/// The state after a container has been opened.
pub open spec fn start_tag(w: WriterView, c: ContainerView, attrs: AttributeSeq) -> WriterView {
    match c {
        ContainerView::Paragraph => if in_tight_list(w) {
            w
        } else {
            write(on_new_line(w), start_text(c, attrs, 0))
        },
        ContainerView::List { kind, tight } => write(
            on_new_line(WriterView { tightness: w.tightness.push(tight), ..w }),
            start_text(c, attrs, 0),
        ),
        ContainerView::Footnote { label } => {
            let p = footnote_position(w.footnotes, label, 0);
            write(
                on_new_line(WriterView { target: Some(p), ..defined(w, label) }),
                start_text(c, attrs, footnote_number(w.footnotes, label)),
            )
        },
        _ => write(on_new_line(w), start_text(c, attrs, 0)),
    }
}

/// The state after a container has been closed.
pub open spec fn end_tag(w: WriterView, c: ContainerEndView) -> WriterView {
    match c {
        ContainerEndView::Paragraph => if in_tight_list(w) {
            w
        } else {
            write(w, end_text(c))
        },
        ContainerEndView::List { kind } => write(
            WriterView {
                tightness: if w.tightness.len() > 0 {
                    w.tightness.drop_last()
                } else {
                    w.tightness
                },
                ..w
            },
            end_text(c),
        ),
        ContainerEndView::DescriptionList => write(on_new_line(w), end_text(c)),
        ContainerEndView::Footnote => WriterView {
            target: None,
            ..write(on_new_line(w), end_text(c))
        },
        _ => write(w, end_text(c)),
    }
}

/// The link that a footnote reference is written as.
pub open spec fn reference_text(number: nat) -> Seq<char> {
    "<sup class=\"footnote-reference\">"@ + open_text(
        "a"@,
        attr_text("role"@, "doc-noteref"@) + attr_text("href"@, "#"@ + footnote_id(number)),
    ) + decimal(number) + "</a></sup>"@
}

/// The line break that ends a block of code, unless the code ends with one.
pub open spec fn code_line_end(code: Seq<char>) -> Seq<char> {
    if line_is_fresh(code) {
        Seq::empty()
    } else {
        "\n"@
    }
}

/// The state after one event.
pub open spec fn apply(w: WriterView, e: EventView) -> WriterView {
    match e {
        EventView::Start { container, attributes } => start_tag(w, container, attributes),
        EventView::End { container } => end_tag(w, container),
        EventView::Str(s) => write(w, escape_body(s)),
        EventView::Image { destination, alt, attributes } => write(
            on_new_line(w),
            open_text(
                "img"@,
                attrs_text(attributes) + attr_text("src"@, destination) + attr_text("alt"@, alt),
            ),
        ),
        EventView::CodeBlock { language, code, attributes } => write(
            on_new_line(w),
            open_text("pre"@, attrs_text(attributes)) + "\n<code>\n"@ + escape_body(code)
                + code_line_end(escape_body(code)) + "</code>\n</pre>"@,
        ),
        EventView::Math { kind, math, attributes } => write(
            on_new_line(w),
            open_text("span"@, attrs_text(attributes) + attr_text("class"@, "math"@))
                + escape_body(math) + "</span>"@,
        ),
        EventView::HtmlBlock { content, attributes } => write(
            on_new_line(w),
            open_text("div"@, attrs_text(attributes)) + content + "</div>\n"@,
        ),
        EventView::HtmlInline { content, attributes } => if attributes.len() == 0 {
            write(w, content)
        } else {
            write(
                on_new_line(w),
                open_text("span"@, attrs_text(attributes)) + content + "</span>\n"@,
            )
        },
        EventView::TagWithAttribute { tag, attributes } => write(
            on_new_line(w),
            open_text(tag, attrs_text(attributes)),
        ),
        EventView::FootnoteReference { reference } => write(
            WriterView { footnotes: registered(w.footnotes, reference), ..w },
            reference_text(footnote_number(w.footnotes, reference)),
        ),
    }
}

/// The state after a sequence of events.
pub open spec fn apply_all(w: WriterView, events: Seq<EventView>) -> WriterView
    decreases events.len(),
{
    if events.len() == 0 {
        w
    } else {
        apply(apply_all(w, events.drop_last()), events.last())
    }
}

/// What the footnotes of a registry add to the output, in the order of their numbers: the
/// content of each one that was defined, and an opening tag on a line of its own for each
/// one that was only referred to.
pub open spec fn footnotes_text(buf: Seq<char>, fs: Seq<FootnoteView>) -> Seq<char>
    decreases fs.len(),
{
    if fs.len() == 0 {
        buf
    } else {
        let before = footnotes_text(buf, fs.drop_last());
        if fs.last().defined {
            before + fs.last().buf
        } else {
            (if line_is_fresh(before) {
                before
            } else {
                before + "\n"@
            }) + open_text("li"@, footnote_attrs_text(Seq::empty(), fs.len()))
        }
    }
}

/// One warning for each footnote that was referred to and never defined.
pub open spec fn missing_footnotes(fs: Seq<FootnoteView>) -> Seq<WarningView>
    decreases fs.len(),
{
    if fs.len() == 0 {
        Seq::empty()
    } else if fs.last().defined {
        missing_footnotes(fs.drop_last())
    } else {
        missing_footnotes(fs.drop_last()).push(
            WarningView::MissingFootnote { label: fs.last().label },
        )
    }
}

/// The output once the document has ended: where a footnote was referred to or defined,
/// the section of footnotes follows the main text.
pub open spec fn finished_text(w: WriterView) -> Seq<char> {
    if w.footnotes.len() == 0 {
        w.buf
    } else {
        footnotes_text(
            w.buf + "<hr><aside class=\"footnotes\" role=\"doc-endnotes\"><ol>"@,
            w.footnotes,
        ) + "</ol>\n</aside>\n"@
    }
}

/// The warnings once the document has ended.
pub open spec fn finished_warnings(w: WriterView) -> Seq<WarningView> {
    w.warnings + missing_footnotes(w.footnotes)
}

/// The state of a writer that started on `buf` and has taken the events.
pub open spec fn written(buf: Seq<char>, events: Seq<EventView>) -> WriterView {
    apply_all(initial(buf), events)
}

/// The HTML that a sequence of events makes of a buffer holding `buf`.
pub open spec fn rendered(buf: Seq<char>, events: Seq<EventView>) -> Seq<char> {
    finished_text(written(buf, events))
}

/// The warnings that rendering a sequence of events gives.
pub open spec fn rendered_warnings(buf: Seq<char>, events: Seq<EventView>) -> Seq<WarningView> {
    finished_warnings(written(buf, events))
}

/// A footnote of the registry.
pub struct Footnote {
    pub label: String,
    pub buf: String,
    pub defined: bool,
}

impl View for Footnote {
    type V = FootnoteView;

    open spec fn view(&self) -> FootnoteView {
        FootnoteView { label: self.label@, buf: self.buf@, defined: self.defined }
    }
}

/// A registry of footnotes as mathematical values.
pub open spec fn footnotes_view(fs: Seq<Footnote>) -> Seq<FootnoteView> {
    fs.map_values(|f: Footnote| f@)
}

/// The state that is kept while a document is written.
pub struct Writer {
    pub buf: String,
    pub target: Option<usize>,
    pub list_tightness: BitStack,
    pub footnotes: Vec<Footnote>,
    pub warnings: Vec<Warning>,
}

impl View for Writer {
    type V = WriterView;

    open spec fn view(&self) -> WriterView {
        WriterView {
            buf: self.buf@,
            target: match self.target {
                Some(i) => Some(i as int),
                None => None,
            },
            tightness: bits_of(self.list_tightness),
            footnotes: footnotes_view(self.footnotes@),
            warnings: warnings_view(self.warnings@),
        }
    }
}

impl Writer {
    /// A writer that continues the text `buf`.
    pub fn new(buf: String) -> (w: Writer)
        ensures
            w@ == initial(buf@),
    {
        let w = Writer {
            buf,
            target: None,
            list_tightness: bits_new(),
            footnotes: Vec::new(),
            warnings: Vec::new(),
        };
        assert(w@.footnotes =~= Seq::empty());
        assert(w@.warnings =~= Seq::empty());
        w
    }

    pub fn in_tight_list(&self) -> (r: bool)
        ensures
            r == in_tight_list(self@),
    {
        match bits_last(&self.list_tightness) {
            Some(tight) => tight,
            None => false,
        }
    }

    /// Writes `s` to the main output or to the footnote that is being defined.
    pub fn write(&mut self, s: &str)
        requires
            writer_ok(old(self)@),
        ensures
            final(self)@ == write(old(self)@, s@),
            writer_ok(final(self)@),
    {
        match self.target {
            None => self.buf.append(s),
            Some(i) => {
                self.footnotes[i].buf.append(s);
                assert(self@.footnotes =~= write(old(self)@, s@).footnotes);
            },
        }
    }

    /// Starts a line unless the current one is fresh.
    pub fn ensure_newline(&mut self)
        requires
            writer_ok(old(self)@),
        ensures
            final(self)@ == on_new_line(old(self)@),
            writer_ok(final(self)@),
    {
        let fresh = match self.target {
            None => at_line_start(self.buf.as_str()),
            Some(i) => at_line_start(self.footnotes[i].buf.as_str()),
        };
        if !fresh {
            self.write("\n");
        }
    }

    pub fn write_on_new_line(&mut self, s: &str)
        requires
            writer_ok(old(self)@),
        ensures
            final(self)@ == write(on_new_line(old(self)@), s@),
            writer_ok(final(self)@),
    {
        self.ensure_newline();
        self.write(s);
    }

    /// Registers a label if it is new and returns the position of its footnote.
    pub fn register(&mut self, label: &str) -> (p: usize)
        requires
            writer_ok(old(self)@),
        ensures
            p == footnote_position(old(self)@.footnotes, label@, 0),
            p < final(self)@.footnotes.len(),
            p < usize::MAX,
            final(self)@ == (WriterView {
                footnotes: registered(old(self)@.footnotes, label@),
                ..old(self)@
            }),
            writer_ok(final(self)@),
    {
        let n = self.footnotes.len();
        let mut i: usize = 0;
        while i < n
            invariant
                i <= n,
                n == self.footnotes@.len(),
                *self == *old(self),
                writer_ok(self@),
                footnote_position(self@.footnotes, label@, 0) == footnote_position(
                    self@.footnotes,
                    label@,
                    i as int,
                ),
            decreases n - i,
        {
            if same_text(self.footnotes[i].label.as_str(), label) {
                return i;
            }
            i += 1;
        }
        self.footnotes.push(Footnote { label: label.to_owned(), buf: String::new(), defined: false });
        assert(self@.footnotes =~= registered(old(self)@.footnotes, label@));
        let m = self.footnotes.len();
        n
    }

    /// Registers a footnote reference and returns the number of its footnote.
    pub fn register_footnote_reference(&mut self, label: &str) -> (number: usize)
        requires
            writer_ok(old(self)@),
        ensures
            number == footnote_number(old(self)@.footnotes, label@),
            number == footnote_position(old(self)@.footnotes, label@, 0) + 1,
            final(self)@ == (WriterView {
                footnotes: registered(old(self)@.footnotes, label@),
                ..old(self)@
            }),
            writer_ok(final(self)@),
    {
        let p = self.register(label);
        p + 1
    }

    /// Registers a footnote definition and returns the number of its footnote.
    pub fn register_footnote_definition(&mut self, label: &str) -> (number: usize)
        requires
            writer_ok(old(self)@),
        ensures
            number == footnote_number(old(self)@.footnotes, label@),
            number == footnote_position(old(self)@.footnotes, label@, 0) + 1,
            0 < number <= final(self)@.footnotes.len(),
            final(self)@ == defined(old(self)@, label@),
            writer_ok(final(self)@),
    {
        let p = self.register(label);
        if self.footnotes[p].defined {
            self.warnings.push(Warning::DuplicateFootnote { label: label.to_owned() });
        }
        self.footnotes[p].defined = true;
        proof {
            let d = defined(old(self)@, label@);
            assert(self@.footnotes =~= d.footnotes);
            assert(self@.warnings =~= d.warnings);
        }
        p + 1
    }

    /// Opens a container.
    pub fn start_tag(&mut self, container: &Container, attributes: &Attributes)
        requires
            writer_ok(old(self)@),
            old(self)@.tightness.len() < MAX_BITS,
        ensures
            final(self)@ == start_tag(old(self)@, container@, attributes@),
            writer_ok(final(self)@),
    {
        match container {
            Container::Paragraph => {
                if !self.in_tight_list() {
                    let t = start_text_of(container, attributes, 0);
                    self.write_on_new_line(t.as_str());
                }
            },
            Container::List { kind, tight } => {
                bits_push(&mut self.list_tightness, *tight);
                let t = start_text_of(container, attributes, 0);
                self.write_on_new_line(t.as_str());
            },
            Container::Footnote { label } => {
                let number = self.register_footnote_definition(label.as_str());
                self.target = Some(number - 1);
                let t = start_text_of(container, attributes, number);
                self.write_on_new_line(t.as_str());
            },
            _ => {
                let t = start_text_of(container, attributes, 0);
                self.write_on_new_line(t.as_str());
            },
        }
    }

    /// Closes a container.
    pub fn end_tag(&mut self, container: &ContainerEnd)
        requires
            writer_ok(old(self)@),
        ensures
            final(self)@ == end_tag(old(self)@, container@),
            writer_ok(final(self)@),
    {
        let t = end_text_of(container);
        match container {
            ContainerEnd::Paragraph => {
                if !self.in_tight_list() {
                    self.write(t.as_str());
                }
            },
            ContainerEnd::List { kind } => {
                let _ = bits_pop(&mut self.list_tightness);
                self.write(t.as_str());
            },
            ContainerEnd::DescriptionList => {
                self.write_on_new_line(t.as_str());
            },
            ContainerEnd::Footnote => {
                self.write_on_new_line(t.as_str());
                self.target = None;
            },
            _ => {
                self.write(t.as_str());
            },
        }
    }
}

impl Writer {
    /// Takes one event.
    pub fn apply(&mut self, event: &Event)
        requires
            writer_ok(old(self)@),
            old(self)@.tightness.len() < MAX_BITS,
        ensures
            final(self)@ == apply(old(self)@, event@),
            writer_ok(final(self)@),
            final(self)@.tightness.len() <= old(self)@.tightness.len() + 1,
    {
        match event {
            Event::Start { container, attributes } => self.start_tag(container, attributes),
            Event::End { container } => self.end_tag(container),
            Event::Str(s) => {
                let mut t = String::new();
                escape_body_text(&mut t, s.as_str());
                assert(t@ =~= escape_body(s@));
                self.write(t.as_str());
            },
            Event::Image { destination, alt, attributes } => {
                let mut a = attrs_string(attributes);
                push_attr(&mut a, "src", destination.as_str());
                push_attr(&mut a, "alt", alt.as_str());
                let t = open_tag("img", a.as_str());
                self.write_on_new_line(t.as_str());
            },
            Event::CodeBlock { language, code, attributes } => {
                let mut t = open_tag("pre", attrs_string(attributes).as_str());
                t.append("\n<code>\n");
                let mut escaped = String::new();
                escape_body_text(&mut escaped, code.as_str());
                assert(escaped@ =~= escape_body(code@));
                t.append(escaped.as_str());
                if !at_line_start(escaped.as_str()) {
                    t.append("\n");
                }
                assert(t@ =~= open_text("pre"@, attrs_text(attributes@)) + "\n<code>\n"@
                    + escape_body(code@) + code_line_end(escape_body(code@)));
                t.append("</code>\n</pre>");
                self.write_on_new_line(t.as_str());
            },
            Event::Math { kind, math, attributes } => {
                let mut a = attrs_string(attributes);
                push_attr(&mut a, "class", "math");
                let mut t = open_tag("span", a.as_str());
                escape_body_text(&mut t, math.as_str());
                t.append("</span>");
                self.write_on_new_line(t.as_str());
            },
            Event::HtmlBlock { content, attributes } => {
                let mut t = open_tag("div", attrs_string(attributes).as_str());
                t.append(content.as_str());
                t.append("</div>\n");
                self.write_on_new_line(t.as_str());
            },
            Event::HtmlInline { content, attributes } => {
                if attributes.is_empty() {
                    self.write(content.as_str());
                } else {
                    let mut t = open_tag("span", attrs_string(attributes).as_str());
                    t.append(content.as_str());
                    t.append("</span>\n");
                    self.write_on_new_line(t.as_str());
                }
            },
            Event::TagWithAttribute { tag, attributes } => {
                let t = open_tag(tag.as_str(), attrs_string(attributes).as_str());
                self.write_on_new_line(t.as_str());
            },
            Event::FootnoteReference { reference } => {
                let number = self.register_footnote_reference(reference.as_str());
                let t = reference_text_of(number);
                self.write(t.as_str());
            },
        }
    }

    /// Takes the events of a sequence in turn.
    pub fn apply_all(&mut self, events: &Vec<Event>)
        requires
            writer_ok(old(self)@),
            old(self)@.tightness.len() + events@.len() <= MAX_BITS,
        ensures
            final(self)@ == apply_all(old(self)@, events_view(events@)),
            writer_ok(final(self)@),
            final(self)@.tightness.len() <= old(self)@.tightness.len() + events@.len(),
    {
        self.apply_range(events, 0, events.len());
        assert(events_view(events@).subrange(0, events@.len() as int) =~= events_view(events@));
    }

    /// Takes the events from position `from` up to position `to` in turn.
    pub fn apply_range(&mut self, events: &Vec<Event>, from: usize, to: usize)
        requires
            writer_ok(old(self)@),
            from <= to <= events@.len(),
            old(self)@.tightness.len() + (to - from) <= MAX_BITS,
        ensures
            final(self)@ == apply_all(
                old(self)@,
                events_view(events@).subrange(from as int, to as int),
            ),
            writer_ok(final(self)@),
            final(self)@.tightness.len() <= old(self)@.tightness.len() + (to - from),
    {
        let ghost evs = events_view(events@).subrange(from as int, to as int);
        let mut i: usize = from;
        assert(evs.take(0) =~= Seq::empty());
        while i < to
            invariant
                from <= i <= to,
                to <= events@.len(),
                evs == events_view(events@).subrange(from as int, to as int),
                writer_ok(self@),
                self@.tightness.len() <= old(self)@.tightness.len() + (i - from),
                old(self)@.tightness.len() + (to - from) <= MAX_BITS,
                self@ == apply_all(old(self)@, evs.take(i - from)),
            decreases to - i,
        {
            self.apply(&events[i]);
            proof {
                let next = evs.take(i - from + 1);
                assert(next.drop_last() =~= evs.take(i - from));
                assert(next.last() == events@[i as int]@);
            }
            i += 1;
        }
        assert(evs.take(to - from) =~= evs);
    }

    /// Hands out what has been written to the main output and goes on with an empty one.
    pub fn take_output(&mut self) -> (out: String)
        ensures
            out@ == old(self)@.buf,
            final(self)@ == (WriterView { buf: Seq::empty(), ..old(self)@ }),
            writer_ok(old(self)@) ==> writer_ok(final(self)@),
    {
        let mut out = String::new();
        core::mem::swap(&mut self.buf, &mut out);
        out
    }

    /// Ends the document: hands out the main output, followed by the section of
    /// footnotes if there are any, and the warnings.
    pub fn finish(self) -> (r: (String, Vec<Warning>))
        ensures
            r.0@ == finished_text(self@),
            warnings_view(r.1@) == finished_warnings(self@),
    {
        let ghost w = self@;
        let Writer { buf, target, list_tightness, footnotes, warnings } = self;
        let mut buf = buf;
        let mut warnings = warnings;
        let n = footnotes.len();
        if n == 0 {
            assert(warnings_view(warnings@) =~= finished_warnings(w));
            return (buf, warnings);
        }
        buf.append("<hr><aside class=\"footnotes\" role=\"doc-endnotes\"><ol>");
        let ghost start = buf@;
        let ghost fs = footnotes_view(footnotes@);
        let mut i: usize = 0;
        assert(fs.take(0) =~= Seq::empty());
        assert(warnings_view(warnings@) =~= w.warnings + missing_footnotes(fs.take(0)));
        while i < n
            invariant
                i <= n,
                n == footnotes@.len(),
                fs == footnotes_view(footnotes@),
                buf@ == footnotes_text(start, fs.take(i as int)),
                warnings_view(warnings@) == w.warnings + missing_footnotes(fs.take(i as int)),
            decreases n - i,
        {
            proof {
                let next = fs.take(i + 1);
                assert(next.drop_last() =~= fs.take(i as int));
                assert(next.last() == footnotes@[i as int]@);
            }
            if footnotes[i].defined {
                buf.append(footnotes[i].buf.as_str());
            } else {
                if !at_line_start(buf.as_str()) {
                    buf.append("\n");
                }
                let none = Attributes::new();
                let t = open_tag("li", footnote_attrs_of(&none, i + 1).as_str());
                buf.append(t.as_str());
                let ghost before = warnings_view(warnings@);
                warnings.push(Warning::MissingFootnote { label: footnotes[i].label.clone() });
                proof {
                    let missing = WarningView::MissingFootnote { label: fs[i as int].label };
                    assert(warnings_view(warnings@) =~= before.push(missing));
                    assert(missing_footnotes(fs.take(i + 1)) == missing_footnotes(
                        fs.take(i as int),
                    ).push(missing));
                    assert(before.push(missing) =~= w.warnings + missing_footnotes(
                        fs.take(i + 1),
                    ));
                }
            }
            i += 1;
        }
        assert(fs.take(n as int) =~= fs);
        buf.append("</ol>\n</aside>\n");
        (buf, warnings)
    }
}

/// The text of a footnote reference.
pub fn reference_text_of(number: usize) -> (t: String)
    ensures
        t@ == reference_text(number as nat),
{
    let mut t = String::new();
    t.append("<sup class=\"footnote-reference\">");
    let mut a = String::new();
    push_attr(&mut a, "role", "doc-noteref");
    let mut target = String::new();
    target.append("#");
    target.append(footnote_id_of(number).as_str());
    assert(target@ =~= "#"@ + footnote_id(number as nat));
    push_attr(&mut a, "href", target.as_str());
    assert(a@ =~= attr_text("role"@, "doc-noteref"@) + attr_text(
        "href"@,
        "#"@ + footnote_id(number as nat),
    ));
    t.append(open_tag("a", a.as_str()).as_str());
    push_decimal(&mut t, number as u64);
    t.append("</a></sup>");
    assert(t@ =~= reference_text(number as nat));
    t
}

/// Renders the events as HTML at the end of `buf` and returns what there is to warn of.
/// The tags of a tidy document are written well nested.
pub fn push_html(buf: &mut String, events: &Vec<Event>) -> (warnings: Vec<Warning>)
    requires
        events@.len() <= MAX_BITS,
    ensures
        final(buf)@ == rendered(old(buf)@, events_view(events@)),
        warnings_view(warnings@) == rendered_warnings(old(buf)@, events_view(events@)),
        crate::tags::is_tidy_document(old(buf)@, events_view(events@))
            ==> crate::tags::tags_well_nested(final(buf)@),
{
    proof {
        if crate::tags::is_tidy_document(buf@, events_view(events@)) {
            crate::tags::lemma_tags_are_well_nested(buf@, events_view(events@));
        }
    }
    let mut text = String::new();
    core::mem::swap(buf, &mut text);
    let mut writer = Writer::new(text);
    writer.apply_all(events);
    let (text, warnings) = writer.finish();
    *buf = text;
    warnings
}

} // verus!
