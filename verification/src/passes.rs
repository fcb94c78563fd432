//! Rewrite passes: each turns a sequence of events into another one and looks after one
//! concern.

use crate::attributes::{add_class, with_class, AttributeSeq, Attributes};
use crate::highlight;
use crate::highlight::Highlighter;
use crate::ir_markup::{
    events_view, push_event, warnings_view, Container, ContainerEnd, ContainerEndView,
    ContainerView, Error, ErrorView, Event, EventView, Warning, WarningView,
};
use crate::markup::{attr_text, attrs_string, attrs_text, open_tag, open_text, push_attr};
use crate::math::{math_markup, render_latex, MathBackend};
use crate::order::same_text;
use crate::table::Table;
use crate::text::{at_line_start, decimal, escape_body, escape_body_text, push_decimal};
use crate::types::Images;
use crate::writer::code_line_end;
use vstd::prelude::*;
use vstd::string::*;

verus! {

/// The candidates that a browser may choose from: the image in full width, then
/// the narrower copies that exist, widest first.
pub open spec fn srcset_text(images: Images, width: u32) -> Seq<char> {
    "/"@ + images.original@ + " "@ + decimal(width as nat) + "w"@ + (match images.x_1536 {
        Some(path) => ",/"@ + path@ + " 1536w"@,
        None => Seq::empty(),
    }) + (match images.x_768 {
        Some(path) => ",/"@ + path@ + " 768w"@,
        None => Seq::empty(),
    })
}

/// The style that keeps an image from growing beyond its width.
pub open spec fn image_style(width: u32) -> Seq<char> {
    "max-width: calc(min(100%, "@ + decimal(width as nat) + "px))"@
}

/// The attributes that offer the copies of an image; none where its width is not known.
pub open spec fn responsive_text(images: Images) -> Seq<char> {
    match images.original_width {
        Some(width) => attr_text("srcset"@, srcset_text(images, width)) + attr_text(
            "style"@,
            image_style(width),
        ),
        None => Seq::empty(),
    }
}

/// The tag of an image whose files are known.
pub open spec fn image_html(
    destination: Seq<char>,
    alt: Seq<char>,
    attributes: AttributeSeq,
    images: Images,
) -> Seq<char> {
    open_text(
        "img"@,
        attrs_text(attributes) + attr_text("src"@, destination) + responsive_text(images)
            + attr_text("alt"@, alt),
    )
}

/// What the image pass makes of an event: an image becomes its tag, or nothing at all
/// where no files are known for it; any other event stays.
pub open spec fn image_rewritten(e: EventView, table: Map<Seq<char>, Images>) -> EventView {
    match e {
        EventView::Image { destination, alt, attributes } => EventView::HtmlInline {
            content: if table.contains_key(destination) {
                image_html(destination, alt, attributes, table[destination])
            } else {
                Seq::empty()
            },
            attributes: Seq::empty(),
        },
        _ => e,
    }
}

/// The events after the image pass.
pub open spec fn image_pass_events(events: Seq<EventView>, table: Map<Seq<char>, Images>) -> Seq<
    EventView,
> {
    events.map_values(|e: EventView| image_rewritten(e, table))
}

/// One warning for each image that no files are known for, in the order of the images.
pub open spec fn image_pass_warnings(
    events: Seq<EventView>,
    table: Map<Seq<char>, Images>,
) -> Seq<WarningView>
    decreases events.len(),
{
    if events.len() == 0 {
        Seq::empty()
    } else {
        let before = image_pass_warnings(events.drop_last(), table);
        match events.last() {
            EventView::Image { destination, alt, attributes } => if table.contains_key(
                destination,
            ) {
                before
            } else {
                before.push(WarningView::MissingImage { destination })
            },
            _ => before,
        }
    }
}

fn srcset_of(images: &Images, width: u32) -> (t: String)
    ensures
        t@ == srcset_text(*images, width),
{
    let mut t = String::new();
    t.append("/");
    t.append(images.original.as_str());
    t.append(" ");
    push_decimal(&mut t, width as u64);
    t.append("w");
    match &images.x_1536 {
        Some(path) => {
            t.append(",/");
            t.append(path.as_str());
            t.append(" 1536w");
        },
        None => {},
    }
    match &images.x_768 {
        Some(path) => {
            t.append(",/");
            t.append(path.as_str());
            t.append(" 768w");
        },
        None => {},
    }
    assert(t@ =~= srcset_text(*images, width));
    t
}

/// The tag of an image whose files are known.
pub fn image_tag(destination: &str, alt: &str, attributes: &Attributes, images: &Images) -> (t:
    String)
    ensures
        t@ == image_html(destination@, alt@, attributes@, *images),
{
    let mut a = attrs_string(attributes);
    push_attr(&mut a, "src", destination);
    match images.original_width {
        Some(width) => {
            push_attr(&mut a, "srcset", srcset_of(images, width).as_str());
            let mut style = String::new();
            style.append("max-width: calc(min(100%, ");
            push_decimal(&mut style, width as u64);
            style.append("px))");
            assert(style@ =~= image_style(width));
            push_attr(&mut a, "style", style.as_str());
        },
        None => {},
    }
    assert(a@ =~= attrs_text(attributes@) + attr_text("src"@, destination@) + responsive_text(
        *images,
    ));
    push_attr(&mut a, "alt", alt);
    open_tag("img", a.as_str())
}

/// The image pass: every image becomes the tag that shows it, with the copies that exist
/// on offer. An image that no files are known for leaves nothing behind but a warning.
pub fn image_pass(events: &Vec<Event>, images: &Table<Images>) -> (r: (Vec<Event>, Vec<Warning>))
    ensures
        events_view(r.0@) == image_pass_events(events_view(events@), images@),
        warnings_view(r.1@) == image_pass_warnings(events_view(events@), images@),
{
    let ghost evs = events_view(events@);
    let mut out: Vec<Event> = Vec::new();
    let mut warnings: Vec<Warning> = Vec::new();
    let n = events.len();
    let mut i: usize = 0;
    assert(evs.take(0) =~= Seq::empty());
    assert(warnings_view(warnings@) =~= Seq::empty());
    while i < n
        invariant
            i <= n,
            n == events@.len(),
            evs == events_view(events@),
            out@.len() == i,
            forall|j: int| 0 <= j < i ==> (#[trigger] out@[j])@ == image_rewritten(evs[j], images@),
            warnings_view(warnings@) == image_pass_warnings(evs.take(i as int), images@),
        decreases n - i,
    {
        proof {
            let next = evs.take(i + 1);
            assert(next.drop_last() =~= evs.take(i as int));
            assert(next.last() == events@[i as int]@);
        }
        match &events[i] {
            Event::Image { destination, alt, attributes } => {
                let content = match images.get(destination.as_str()) {
                    Some(found) => image_tag(
                        destination.as_str(),
                        alt.as_str(),
                        attributes,
                        found,
                    ),
                    None => {
                        let ghost before = warnings_view(warnings@);
                        warnings.push(Warning::MissingImage { destination: destination.clone() });
                        assert(warnings_view(warnings@) =~= before.push(
                            WarningView::MissingImage { destination: destination@ },
                        ));
                        String::new()
                    },
                };
                out.push(Event::HtmlInline { content, attributes: Attributes::new() });
            },
            e => {
                out.push(e.duplicate());
            },
        }
        i += 1;
    }
    assert(evs.take(n as int) =~= evs);
    assert(events_view(out@) =~= image_pass_events(evs, images@));
    (out, warnings)
}

/// What the math pass makes of an event: with a backend, a formula becomes a `span` of
/// the class `math` around its markup, and a formula that the backend rejects is an
/// error; any other event stays, and without a backend every event stays.
pub open spec fn math_rewritten(e: EventView, backend: MathBackend) -> Result<
    Seq<EventView>,
    ErrorView,
> {
    match e {
        EventView::Math { kind, math, attributes } => if backend is Passthrough {
            Ok(seq![e])
        } else {
            match math_markup(backend, math, kind) {
                Some(markup) => Ok(
                    seq![
                        EventView::Start {
                            container: ContainerView::Other { tag: "span"@ },
                            attributes: with_class(attributes, "math"@),
                        },
                        EventView::HtmlInline { content: markup, attributes: Seq::empty() },
                        EventView::End { container: ContainerEndView::Other { tag: "span"@ } },
                    ],
                ),
                None => Err(ErrorView::Math { math }),
            }
        },
        _ => Ok(seq![e]),
    }
}

/// The events after the math pass, or the first error.
pub open spec fn math_pass_events(events: Seq<EventView>, backend: MathBackend) -> Result<
    Seq<EventView>,
    ErrorView,
>
    decreases events.len(),
{
    if events.len() == 0 {
        Ok(Seq::empty())
    } else {
        match math_pass_events(events.drop_last(), backend) {
            Err(e) => Err(e),
            Ok(before) => match math_rewritten(events.last(), backend) {
                Ok(piece) => Ok(before + piece),
                Err(e) => Err(e),
            },
        }
    }
}

/// The first error of a pass is its result, whatever follows.
proof fn lemma_math_error_stays(events: Seq<EventView>, backend: MathBackend, i: int)
    requires
        0 <= i <= events.len(),
        math_pass_events(events.take(i), backend) is Err,
    ensures
        math_pass_events(events, backend) == math_pass_events(events.take(i), backend),
    decreases events.len() - i,
{
    if i < events.len() {
        assert(events.take(i + 1).drop_last() =~= events.take(i));
        lemma_math_error_stays(events, backend, i + 1);
    } else {
        assert(events.take(i) =~= events);
    }
}

/// The math pass: every formula is converted by the backend. The first formula that the
/// backend rejects ends the pass with an error.
pub fn math_pass(events: &Vec<Event>, backend: MathBackend) -> (r: Result<Vec<Event>, Error>)
    ensures
        match r {
            Ok(out) => math_pass_events(events_view(events@), backend) == Ok::<
                Seq<EventView>,
                ErrorView,
            >(events_view(out@)),
            Err(e) => math_pass_events(events_view(events@), backend) == Err::<
                Seq<EventView>,
                ErrorView,
            >(e@),
        },
{
    let ghost evs = events_view(events@);
    let mut out: Vec<Event> = Vec::new();
    let n = events.len();
    let mut i: usize = 0;
    assert(evs.take(0) =~= Seq::empty());
    assert(events_view(out@) =~= Seq::empty());
    while i < n
        invariant
            i <= n,
            n == events@.len(),
            evs == events_view(events@),
            math_pass_events(evs.take(i as int), backend) == Ok::<Seq<EventView>, ErrorView>(
                events_view(out@),
            ),
        decreases n - i,
    {
        proof {
            let next = evs.take(i + 1);
            assert(next.drop_last() =~= evs.take(i as int));
            assert(next.last() == events@[i as int]@);
        }
        let ghost before = events_view(out@);
        match &events[i] {
            Event::Math { kind, math, attributes } => {
                match backend {
                    MathBackend::Passthrough => {
                        push_event(&mut out, events[i].duplicate());
                        assert(events_view(out@) =~= before + seq![evs[i as int]]);
                    },
                    _ => {
                        match render_latex(backend, math.as_str(), *kind) {
                            Some(markup) => {
                                push_event(
                                    &mut out,
                                    Event::Start {
                                        container: Container::other("span"),
                                        attributes: add_class(attributes, "math"),
                                    },
                                );
                                push_event(
                                    &mut out,
                                    Event::HtmlInline {
                                        content: markup,
                                        attributes: Attributes::new(),
                                    },
                                );
                                push_event(
                                    &mut out,
                                    Event::End {
                                        container: ContainerEnd::Other { tag: "span".to_owned() },
                                    },
                                );
                                assert(events_view(out@) =~= before + math_rewritten(
                                    evs[i as int],
                                    backend,
                                )->Ok_0);
                            },
                            None => {
                                proof {
                                    lemma_math_error_stays(evs, backend, i + 1);
                                }
                                return Err(Error::Math { math: math.clone() });
                            },
                        }
                    },
                }
            },
            e => {
                push_event(&mut out, e.duplicate());
                assert(events_view(out@) =~= before + seq![evs[i as int]]);
            },
        }
        i += 1;
    }
    assert(evs.take(n as int) =~= evs);
    Ok(out)
}

/// Whether code in this language is written out as it is.
pub open spec fn is_plain_language(language: Seq<char>) -> bool {
    language.len() == 0 || language == "plain"@ || language == "text"@ || language
        == "plaintext"@
}

/// Whether the event is a block of code that is handed to the highlighter.
pub open spec fn needs_highlight(e: EventView) -> bool {
    e matches EventView::CodeBlock { language, code, attributes } && !is_plain_language(language)
}

/// What stands inside `pre`: the opening tag of `code`, the code on lines of its own,
/// and the two closing tags.
pub open spec fn code_body(open: Seq<char>, html: Seq<char>) -> Seq<char> {
    "\n"@ + open + "\n"@ + html + code_line_end(html) + "</code>\n</pre>"@
}

/// A block of code that is written out as it is, escaped.
pub open spec fn plain_code(code: Seq<char>, attributes: AttributeSeq) -> Seq<EventView> {
    seq![
        EventView::TagWithAttribute { tag: "pre"@, attributes },
        EventView::HtmlInline {
            content: code_body("<code>"@, escape_body(code)),
            attributes: Seq::empty(),
        },
    ]
}

/// A block of highlighted code.
pub open spec fn highlighted_code(
    language: Seq<char>,
    html: Seq<char>,
    attributes: AttributeSeq,
) -> Seq<EventView> {
    seq![
        EventView::TagWithAttribute { tag: "pre"@, attributes: with_class(attributes, "highlight"@) },
        EventView::HtmlInline {
            content: code_body(open_text("code"@, attr_text("data-lang"@, language)), html),
            attributes: Seq::empty(),
        },
    ]
}

/// What the highlighter made of a block of code.
pub type Outcome = Option<Result<String, highlight::Error>>;

/// What the highlighter made of a block of code, as a mathematical value.
pub type OutcomeView = Option<Result<Seq<char>, highlight::Error>>;

pub open spec fn outcome_view(outcome: Outcome) -> OutcomeView {
    match outcome {
        Some(Ok(html)) => Some(Ok(html@)),
        Some(Err(e)) => Some(Err(e)),
        None => None,
    }
}

pub open spec fn outcomes_view(outcomes: Seq<Outcome>) -> Seq<OutcomeView> {
    outcomes.map_values(|o: Outcome| outcome_view(o))
}

/// What the code pass makes of an event, given what the highlighter made of it.
///
/// Code in a plain language is escaped and written out as it is. Other code is
/// highlighted; where the highlighter does not know the language the code is written
/// out plain, with a warning, and any other failure of the highlighter is an error. Any
/// other event stays.
pub open spec fn code_rewritten(e: EventView, outcome: OutcomeView) -> Result<
    (Seq<EventView>, Seq<WarningView>),
    ErrorView,
> {
    match e {
        EventView::CodeBlock { language, code, attributes } => if is_plain_language(language) {
            Ok((plain_code(code, attributes), Seq::empty()))
        } else {
            match outcome {
                Some(Ok(html)) => Ok((highlighted_code(language, html, attributes), Seq::empty())),
                Some(Err(highlight::Error::Other)) => Err(ErrorView::Highlight { language }),
                _ => Ok(
                    (plain_code(code, attributes), seq![WarningView::UnknownLanguage { language }]),
                ),
            }
        },
        _ => Ok((seq![e], Seq::empty())),
    }
}

/// The events and warnings after the code pass, or the first error.
pub open spec fn code_pass_events(events: Seq<EventView>, outcomes: Seq<OutcomeView>) -> Result<
    (Seq<EventView>, Seq<WarningView>),
    ErrorView,
>
    recommends
        outcomes.len() == events.len(),
    decreases events.len(),
{
    if events.len() == 0 || outcomes.len() != events.len() {
        Ok((Seq::empty(), Seq::empty()))
    } else {
        match code_pass_events(events.drop_last(), outcomes.drop_last()) {
            Err(e) => Err(e),
            Ok(before) => match code_rewritten(events.last(), outcomes.last()) {
                Ok(piece) => Ok((before.0 + piece.0, before.1 + piece.1)),
                Err(e) => Err(e),
            },
        }
    }
}

proof fn lemma_code_error_stays(events: Seq<EventView>, outcomes: Seq<OutcomeView>, i: int)
    requires
        0 <= i <= events.len(),
        outcomes.len() == events.len(),
        code_pass_events(events.take(i), outcomes.take(i)) is Err,
    ensures
        code_pass_events(events, outcomes) == code_pass_events(events.take(i), outcomes.take(i)),
    decreases events.len() - i,
{
    if i < events.len() {
        assert(events.take(i + 1).drop_last() =~= events.take(i));
        assert(outcomes.take(i + 1).drop_last() =~= outcomes.take(i));
        lemma_code_error_stays(events, outcomes, i + 1);
    } else {
        assert(events.take(i) =~= events);
        assert(outcomes.take(i) =~= outcomes);
    }
}

/// Writing two texts one after the other is writing them as one.
pub proof fn lemma_write_twice(w: crate::writer::WriterView, a: Seq<char>, b: Seq<char>)
    requires
        crate::writer::writer_ok(w),
    ensures
        crate::writer::write(crate::writer::write(w, a), b) == crate::writer::write(w, a + b),
{
    let once = crate::writer::write(w, a);
    match w.target {
        Some(i) => {
            assert(crate::writer::write(once, b).footnotes =~= crate::writer::write(
                w,
                a + b,
            ).footnotes) by {
                assert((w.footnotes[i].buf + a) + b =~= w.footnotes[i].buf + (a + b));
            }
        },
        None => {
            assert((w.buf + a) + b =~= w.buf + (a + b));
        },
    }
}

proof fn lemma_code_lines()
    ensures
        "\n<code>\n"@ == "\n"@ + "<code>"@ + "\n"@,
{
    reveal_strlit("\n<code>\n");
    reveal_strlit("\n");
    reveal_strlit("<code>");
    assert("\n<code>\n"@ =~= "\n"@ + "<code>"@ + "\n"@);
}

proof fn lemma_apply_two(w: crate::writer::WriterView, a: EventView, b: EventView)
    ensures
        crate::writer::apply_all(w, seq![a, b]) == crate::writer::apply(
            crate::writer::apply(w, a),
            b,
        ),
{
    let events = seq![a, b];
    assert(events.drop_last() =~= seq![a]);
    assert(seq![a].drop_last() =~= Seq::<EventView>::empty());
    assert(crate::writer::apply_all(w, seq![a]) == crate::writer::apply(w, a)) by {
        assert(crate::writer::apply_all(w, seq![a].drop_last()) == w);
    }
}

/// What the writer makes of a block of code.
spec fn block_text(code: Seq<char>, attributes: AttributeSeq) -> Seq<char> {
    open_text("pre"@, attrs_text(attributes)) + "\n<code>\n"@ + escape_body(code) + code_line_end(
        escape_body(code),
    ) + "</code>\n</pre>"@
}

proof fn lemma_block_is_written(
    w: crate::writer::WriterView,
    language: Seq<char>,
    code: Seq<char>,
    attributes: AttributeSeq,
)
    ensures
        crate::writer::apply(w, EventView::CodeBlock { language, code, attributes })
            == crate::writer::write(crate::writer::on_new_line(w), block_text(code, attributes)),
{
}

proof fn lemma_tag_is_written(w: crate::writer::WriterView, attributes: AttributeSeq)
    ensures
        crate::writer::apply(w, EventView::TagWithAttribute { tag: "pre"@, attributes })
            == crate::writer::write(
            crate::writer::on_new_line(w),
            open_text("pre"@, attrs_text(attributes)),
        ),
{
}

proof fn lemma_raw_is_written(w: crate::writer::WriterView, content: Seq<char>)
    ensures
        crate::writer::apply(w, EventView::HtmlInline { content, attributes: Seq::empty() })
            == crate::writer::write(w, content),
{
}

proof fn lemma_new_line_is_ok(w: crate::writer::WriterView)
    requires
        crate::writer::writer_ok(w),
    ensures
        crate::writer::writer_ok(crate::writer::on_new_line(w)),
{
}

proof fn lemma_block_text_in_two(code: Seq<char>, attributes: AttributeSeq)
    ensures
        open_text("pre"@, attrs_text(attributes)) + code_body("<code>"@, escape_body(code))
            == block_text(code, attributes),
{
    lemma_code_lines();
    assert(open_text("pre"@, attrs_text(attributes)) + code_body("<code>"@, escape_body(code))
        =~= block_text(code, attributes));
}

/// The writer makes of the two events of a plain block of code what it makes of the
/// block itself: a block of code that no pass has touched is written just as one that
/// the code pass has written out plain.
pub proof fn lemma_plain_code_is_written_alike(
    w: crate::writer::WriterView,
    language: Seq<char>,
    code: Seq<char>,
    attributes: AttributeSeq,
)
    requires
        crate::writer::writer_ok(w),
    ensures
        crate::writer::apply_all(w, plain_code(code, attributes)) == crate::writer::apply(
            w,
            EventView::CodeBlock { language, code, attributes },
        ),
{
    let tag = EventView::TagWithAttribute { tag: "pre"@, attributes };
    let open = open_text("pre"@, attrs_text(attributes));
    let body = code_body("<code>"@, escape_body(code));
    let raw = EventView::HtmlInline { content: body, attributes: Seq::empty() };
    let line = crate::writer::on_new_line(w);
    assert(plain_code(code, attributes) =~= seq![tag, raw]);
    lemma_apply_two(w, tag, raw);
    lemma_tag_is_written(w, attributes);
    lemma_raw_is_written(crate::writer::write(line, open), body);
    lemma_new_line_is_ok(w);
    lemma_write_twice(line, open, body);
    lemma_block_text_in_two(code, attributes);
    lemma_block_is_written(w, language, code, attributes);
}

/// Whether code in this language is written out as it is.
pub fn is_plain(language: &str) -> (r: bool)
    ensures
        r == is_plain_language(language@),
{
    language.unicode_len() == 0 || same_text(language, "plain") || same_text(language, "text")
        || same_text(language, "plaintext")
}

fn code_body_of(open: &str, html: &str) -> (t: String)
    ensures
        t@ == code_body(open@, html@),
{
    let mut t = String::new();
    t.append("\n");
    t.append(open);
    t.append("\n");
    t.append(html);
    if !at_line_start(html) {
        t.append("\n");
    }
    assert(t@ =~= "\n"@ + open@ + "\n"@ + html@ + code_line_end(html@));
    t.append("</code>\n</pre>");
    t
}

fn push_plain_code(out: &mut Vec<Event>, code: &str, attributes: &Attributes)
    ensures
        events_view(final(out)@) == events_view(old(out)@) + plain_code(code@, attributes@),
{
    let ghost before = events_view(out@);
    push_event(
        out,
        Event::TagWithAttribute { tag: "pre".to_owned(), attributes: attributes.duplicate() },
    );
    let mut escaped = String::new();
    escape_body_text(&mut escaped, code);
    assert(escaped@ =~= escape_body(code@));
    push_event(
        out,
        Event::HtmlInline {
            content: code_body_of("<code>", escaped.as_str()),
            attributes: Attributes::new(),
        },
    );
    assert(events_view(out@) =~= before + plain_code(code@, attributes@));
}

fn push_highlighted_code(out: &mut Vec<Event>, language: &str, html: &str, attributes: &Attributes)
    ensures
        events_view(final(out)@) == events_view(old(out)@) + highlighted_code(
            language@,
            html@,
            attributes@,
        ),
{
    let ghost before = events_view(out@);
    push_event(
        out,
        Event::TagWithAttribute {
            tag: "pre".to_owned(),
            attributes: add_class(attributes, "highlight"),
        },
    );
    let mut lang = String::new();
    push_attr(&mut lang, "data-lang", language);
    assert(lang@ =~= attr_text("data-lang"@, language@));
    let open = open_tag("code", lang.as_str());
    push_event(
        out,
        Event::HtmlInline {
            content: code_body_of(open.as_str(), html),
            attributes: Attributes::new(),
        },
    );
    assert(events_view(out@) =~= before + highlighted_code(language@, html@, attributes@));
}

/// The code pass for given results of the highlighter: `outcomes` holds, for each event,
/// what the highlighter made of it.
pub fn code_pass_with(events: &Vec<Event>, outcomes: &Vec<Outcome>) -> (r: Result<
    (Vec<Event>, Vec<Warning>),
    Error,
>)
    requires
        outcomes@.len() == events@.len(),
    ensures
        match r {
            Ok(out) => code_pass_events(events_view(events@), outcomes_view(outcomes@)) == Ok::<
                (Seq<EventView>, Seq<WarningView>),
                ErrorView,
            >((events_view(out.0@), warnings_view(out.1@))),
            Err(e) => code_pass_events(events_view(events@), outcomes_view(outcomes@)) == Err::<
                (Seq<EventView>, Seq<WarningView>),
                ErrorView,
            >(e@),
        },
{
    let ghost evs = events_view(events@);
    let ghost outs = outcomes_view(outcomes@);
    let mut out: Vec<Event> = Vec::new();
    let mut warnings: Vec<Warning> = Vec::new();
    let n = events.len();
    let mut i: usize = 0;
    assert(evs.take(0) =~= Seq::empty());
    assert(events_view(out@) =~= Seq::empty());
    assert(warnings_view(warnings@) =~= Seq::empty());
    while i < n
        invariant
            i <= n,
            n == events@.len(),
            outcomes@.len() == n,
            evs == events_view(events@),
            outs == outcomes_view(outcomes@),
            code_pass_events(evs.take(i as int), outs.take(i as int)) == Ok::<
                (Seq<EventView>, Seq<WarningView>),
                ErrorView,
            >((events_view(out@), warnings_view(warnings@))),
        decreases n - i,
    {
        proof {
            let next = evs.take(i + 1);
            assert(next.drop_last() =~= evs.take(i as int));
            assert(next.last() == events@[i as int]@);
            let next_outs = outs.take(i + 1);
            assert(next_outs.drop_last() =~= outs.take(i as int));
            assert(next_outs.last() == outcome_view(outcomes@[i as int]));
        }
        let ghost before = events_view(out@);
        let ghost warned = warnings_view(warnings@);
        match &events[i] {
            Event::CodeBlock { language, code, attributes } => {
                if is_plain(language.as_str()) {
                    push_plain_code(&mut out, code.as_str(), attributes);
                    assert(warnings_view(warnings@) =~= warned + Seq::empty());
                } else {
                    match &outcomes[i] {
                        Some(Ok(html)) => {
                            push_highlighted_code(
                                &mut out,
                                language.as_str(),
                                html.as_str(),
                                attributes,
                            );
                            assert(warnings_view(warnings@) =~= warned + Seq::empty());
                        },
                        Some(Err(highlight::Error::Other)) => {
                            proof {
                                lemma_code_error_stays(evs, outs, i + 1);
                            }
                            return Err(Error::Highlight { language: language.clone() });
                        },
                        _ => {
                            push_plain_code(&mut out, code.as_str(), attributes);
                            warnings.push(Warning::UnknownLanguage { language: language.clone() });
                            assert(warnings_view(warnings@) =~= warned + seq![
                                WarningView::UnknownLanguage { language: language@ },
                            ]);
                        },
                    }
                }
            },
            e => {
                push_event(&mut out, e.duplicate());
                assert(events_view(out@) =~= before + seq![evs[i as int]]);
                assert(warnings_view(warnings@) =~= warned + Seq::empty());
            },
        }
        i += 1;
    }
    assert(evs.take(n as int) =~= evs);
    assert(outs.take(n as int) =~= outs);
    Ok((out, warnings))
}

/// The result of the code pass as a mathematical value.
pub open spec fn code_result_view(r: Result<(Vec<Event>, Vec<Warning>), Error>) -> Result<
    (Seq<EventView>, Seq<WarningView>),
    ErrorView,
> {
    match r {
        Ok(out) => Ok((events_view(out.0@), warnings_view(out.1@))),
        Err(e) => Err(e@),
    }
}

/// Whether an answer that holds HTML holds the code of the block with highlights.
pub open spec fn answer_fits(event: EventView, outcome: OutcomeView) -> bool {
    match (event, outcome) {
        (EventView::CodeBlock { language, code, attributes }, Some(Ok(html))) => highlight::is_highlight_of(
            code,
            html,
        ),
        _ => true,
    }
}

/// Whether the answers are answers of the highlighter: there is one for each block of
/// code that is to be highlighted and for nothing else; where the highlighter knows no
/// grammar for the language of a block, the answer says so; and an answer that holds
/// HTML holds the code of its own block with highlights.
pub open spec fn are_answers_of(
    highlighter: Highlighter,
    events: Seq<EventView>,
    outcomes: Seq<OutcomeView>,
) -> bool {
    &&& outcomes.len() == events.len()
    &&& forall|i: int|
        0 <= i < events.len() ==> (#[trigger] outcomes[i] is Some) == needs_highlight(events[i])
    &&& forall|i: int|
        0 <= i < events.len() ==> (events[i] matches EventView::CodeBlock {
            language,
            code,
            attributes,
        } && needs_highlight(events[i]) && !highlighter.knows(language) ==> #[trigger] outcomes[i]
            == Some(Err::<Seq<char>, highlight::Error>(highlight::Error::InvalidLanguage)))
    &&& forall|i: int| 0 <= i < events.len() ==> answer_fits(events[i], #[trigger] outcomes[i])
}

/// Whether `r` is what the code pass makes of the events when the highlighter answers
/// with `outcomes`.
pub open spec fn is_code_pass_of(
    highlighter: Highlighter,
    events: Seq<EventView>,
    outcomes: Seq<OutcomeView>,
    r: Result<(Seq<EventView>, Seq<WarningView>), ErrorView>,
) -> bool {
    &&& are_answers_of(highlighter, events, outcomes)
    &&& code_pass_events(events, outcomes) == r
}

/// Hands every block of code that is to be highlighted to the highlighter. The result
/// holds an entry for each event: what the highlighter made of it, or nothing where the
/// event was not handed over.
pub fn highlight_all(events: &Vec<Event>, highlighter: &Highlighter) -> (outcomes: Vec<Outcome>)
    ensures
        outcomes@.len() == events@.len(),
        forall|i: int|
            0 <= i < events@.len() ==> (#[trigger] outcomes@[i] is Some) == needs_highlight(
                events@[i]@,
            ),
        forall|i: int|
            0 <= i < events@.len() ==> (events@[i]@ matches EventView::CodeBlock {
                language,
                code,
                attributes,
            } && needs_highlight(events@[i]@) && !highlighter.knows(language) ==> #[trigger] outcomes@[i] == Some(
                Err::<String, highlight::Error>(highlight::Error::InvalidLanguage),
            )),
        forall|i: int|
            0 <= i < events@.len() ==> answer_fits(
                events@[i]@,
                outcome_view(#[trigger] outcomes@[i]),
            ),
{
    let mut outcomes: Vec<Outcome> = Vec::new();
    let n = events.len();
    let mut i: usize = 0;
    while i < n
        invariant
            i <= n,
            n == events@.len(),
            outcomes@.len() == i,
            forall|j: int|
                0 <= j < i ==> (#[trigger] outcomes@[j] is Some) == needs_highlight(events@[j]@),
            forall|j: int|
                0 <= j < i ==> (events@[j]@ matches EventView::CodeBlock {
                    language,
                    code,
                    attributes,
                } && needs_highlight(events@[j]@) && !highlighter.knows(language) ==> #[trigger] outcomes@[j] == Some(
                    Err::<String, highlight::Error>(highlight::Error::InvalidLanguage),
                )),
            forall|j: int|
                0 <= j < i ==> answer_fits(events@[j]@, outcome_view(#[trigger] outcomes@[j])),
        decreases n - i,
    {
        let outcome = match &events[i] {
            Event::CodeBlock { language, code, attributes } => {
                if is_plain(language.as_str()) {
                    None
                } else {
                    let answer = highlighter.highlight(code.as_str(), language.as_str());
                    assert(events@[i as int]@ == (EventView::CodeBlock {
                        language: language@,
                        code: code@,
                        attributes: attributes@,
                    }));
                    assert(answer matches Ok(html) ==> highlight::is_highlight_of(code@, html@));
                    Some(answer)
                }
            },
            _ => None,
        };
        outcomes.push(outcome);
        i += 1;
    }
    outcomes
}

/// The code pass: code in a plain language is escaped, other code is highlighted. Where
/// the highlighter does not know a language the code is written out plain, with a
/// warning; where it fails otherwise the pass ends with an error.
pub fn code_pass(events: &Vec<Event>, highlighter: &Highlighter) -> (r: Result<
    (Vec<Event>, Vec<Warning>),
    Error,
>)
    ensures
        exists|outcomes: Seq<OutcomeView>| #[trigger]
            is_code_pass_of(*highlighter, events_view(events@), outcomes, code_result_view(r)),
{
    let outcomes = highlight_all(events, highlighter);
    let r = code_pass_with(events, &outcomes);
    proof {
        let views = outcomes_view(outcomes@);
        assert forall|i: int| 0 <= i < events@.len() implies (#[trigger] views[i] is Some)
            == needs_highlight(events_view(events@)[i]) by {
            assert(views[i] == outcome_view(outcomes@[i]));
        }
        assert forall|i: int| 0 <= i < events@.len() implies (events_view(events@)[i] matches EventView::CodeBlock {
            language,
            code,
            attributes,
        } && needs_highlight(events_view(events@)[i]) && !highlighter.knows(language) ==> #[trigger] views[i]
            == Some(Err::<Seq<char>, highlight::Error>(highlight::Error::InvalidLanguage))) by {
            assert(views[i] == outcome_view(outcomes@[i]));
            assert(events_view(events@)[i] == events@[i]@);
        }
        assert forall|i: int| 0 <= i < events@.len() implies answer_fits(
            events_view(events@)[i],
            #[trigger] views[i],
        ) by {
            assert(views[i] == outcome_view(outcomes@[i]));
            assert(events_view(events@)[i] == events@[i]@);
        }
        assert(is_code_pass_of(*highlighter, events_view(events@), views, code_result_view(r)));
    }
    r
}

} // verus!
