use sprokkel::attributes::{AttributeValue, Attributes};
use sprokkel::figure::figure_pass;
use sprokkel::highlight::{render_highlights, Error as HighlightError, HighlightStep, Highlighter};
use sprokkel::ir_markup::{Container, ContainerEnd, Error, Event, MathKind, Warning};
use sprokkel::math::{render_latex, MathBackend};
use sprokkel::passes::{code_pass, code_pass_with, highlight_all, image_pass, image_tag, math_pass};
use sprokkel::table::Table;
use sprokkel::types::Images;
use sprokkel::writer::push_html;

fn start(container: Container) -> Event {
    Event::Start { container, attributes: Attributes::new() }
}

fn start_with(container: Container, pairs: &[(&str, &str)]) -> Event {
    Event::Start { container, attributes: attrs(pairs) }
}

fn end(container: ContainerEnd) -> Event {
    Event::End { container }
}

fn text(s: &str) -> Event {
    Event::Str(s.to_string())
}

fn other(tag: &str) -> Container {
    Container::Other { tag: tag.to_string() }
}

fn other_end(tag: &str) -> ContainerEnd {
    ContainerEnd::Other { tag: tag.to_string() }
}

fn attrs(pairs: &[(&str, &str)]) -> Attributes {
    let mut attributes = Attributes::new();
    for (name, value) in pairs {
        attributes.push(name, AttributeValue::raw(value));
    }
    attributes
}

fn html(events: &Vec<Event>) -> String {
    let mut s = String::new();
    push_html(&mut s, events);
    s
}

fn image(destination: &str, alt: &str) -> Event {
    Event::Image { destination: destination.to_string(), alt: alt.to_string(), attributes: Attributes::new() }
}

fn images(width: Option<u32>, x_1536: Option<&str>, x_768: Option<&str>) -> Images {
    Images {
        original: "2024/post/pic.png".to_string(),
        original_width: width,
        x_1536: x_1536.map(|p| p.to_string()),
        x_768: x_768.map(|p| p.to_string()),
    }
}

#[test]
fn image_tag_offers_the_copies_widest_first() {
    let none = Attributes::new();
    assert_eq!(
        image_tag("pic.png", "A \"pic\"", &none, &images(Some(2000), Some("2024/post/pic-1536.png"), Some("2024/post/pic-768.png"))),
        "<img src=\"pic.png\" srcset=\"/2024/post/pic.png 2000w,/2024/post/pic-1536.png 1536w,/2024/post/pic-768.png 768w\" style=\"max-width: calc(min(100%, 2000px))\" alt=\"A &quot;pic&quot;\">"
    );
    assert_eq!(
        image_tag("pic.png", "", &none, &images(Some(1000), None, Some("2024/post/pic-768.png"))),
        "<img src=\"pic.png\" srcset=\"/2024/post/pic.png 1000w,/2024/post/pic-768.png 768w\" style=\"max-width: calc(min(100%, 1000px))\" alt=\"\">"
    );
    assert_eq!(
        image_tag("pic.png", "x", &attrs(&[("id", "i")]), &images(Some(500), None, None)),
        "<img id=\"i\" src=\"pic.png\" srcset=\"/2024/post/pic.png 500w\" style=\"max-width: calc(min(100%, 500px))\" alt=\"x\">"
    );
    assert_eq!(
        image_tag("pic.svg", "x", &none, &images(None, Some("ignored"), None)),
        "<img src=\"pic.svg\" alt=\"x\">"
    );
}

#[test]
fn image_pass_replaces_known_images_and_warns_of_unknown_ones() {
    let mut table = Table::new();
    table.insert("pic.png", images(Some(800), None, Some("2024/post/pic-768.png")));
    let events = vec![text("a"), image("pic.png", "known"), image("gone.png", "unknown"), text("b")];
    let (out, warnings) = image_pass(&events, &table);
    assert_eq!(warnings, vec![Warning::MissingImage { destination: "gone.png".to_string() }]);
    assert_eq!(out.len(), 4);
    assert_eq!(
        html(&out),
        "a<img src=\"pic.png\" srcset=\"/2024/post/pic.png 800w,/2024/post/pic-768.png 768w\" style=\"max-width: calc(min(100%, 800px))\" alt=\"known\">b"
    );
}

#[test]
fn table_takes_the_value_inserted_last() {
    let mut table = Table::new();
    assert!(table.get("a").is_none());
    table.insert("a", 1);
    table.insert("b", 2);
    table.insert("a", 3);
    assert_eq!(table.get("a"), Some(&3));
    assert_eq!(table.get("b"), Some(&2));
    assert!(table.get("c").is_none());
}

fn math(kind: MathKind, source: &str) -> Event {
    Event::Math { kind, math: source.to_string(), attributes: attrs(&[("class", "eq")]) }
}

#[test]
fn math_pass_without_backend_changes_nothing() {
    let events = vec![text("a"), math(MathKind::Inline, "x^2"), math(MathKind::Display, "\\frac{")];
    let out = math_pass(&events, MathBackend::Passthrough).unwrap();
    assert_eq!(html(&out), html(&events));
    assert_eq!(out.len(), 3);
    assert_eq!(render_latex(MathBackend::Passthrough, "x", MathKind::Inline), None);
}

#[test]
fn math_pass_converts_formulas() {
    let events = vec![text("a"), math(MathKind::Inline, "x"), math(MathKind::Display, "y")];
    let out = math_pass(&events, MathBackend::Latex2Mathml).unwrap();
    assert_eq!(out.len(), 7);
    assert_eq!(
        html(&out),
        "a\n<span class=\"eq math\"><math xmlns=\"http://www.w3.org/1998/Math/MathML\" display=\"inline\"><mi>x</mi></math></span>\n<span class=\"eq math\"><math xmlns=\"http://www.w3.org/1998/Math/MathML\" display=\"block\"><mi>y</mi></math></span>"
    );
}

#[test]
fn math_pass_fails_on_the_first_rejected_formula() {
    let events = vec![math(MathKind::Inline, "x"), math(MathKind::Inline, "\\begin{nonsense}"), math(MathKind::Inline, "\\begin{more}")];
    assert_eq!(
        math_pass(&events, MathBackend::Latex2Mathml).unwrap_err(),
        Error::Math { math: "\\begin{nonsense}".to_string() }
    );
}

fn code(language: &str, source: &str) -> Event {
    Event::CodeBlock { language: language.to_string(), code: source.to_string(), attributes: Attributes::new() }
}

#[test]
fn code_pass_with_given_outcomes() {
    let events = vec![code("", "a<b"), code("plain", "p"), code("text", "t"), code("plaintext", "pt"), code("rust", "r"), code("zig", "z"), text("x")];
    let outcomes = vec![None, None, None, None, Some(Ok("<span class=\"keyword\">r</span>\n".to_string())), Some(Err(HighlightError::InvalidLanguage)), None];
    let (out, warnings) = code_pass_with(&events, &outcomes).unwrap();
    assert_eq!(warnings, vec![Warning::UnknownLanguage { language: "zig".to_string() }]);
    assert_eq!(out.len(), 13);
    assert_eq!(
        html(&out),
        "<pre>\n<code>\na&lt;b\n</code>\n</pre>\n<pre>\n<code>\np\n</code>\n</pre>\n<pre>\n<code>\nt\n</code>\n</pre>\n<pre>\n<code>\npt\n</code>\n</pre>\n<pre class=\"highlight\">\n<code data-lang=\"rust\">\n<span class=\"keyword\">r</span>\n</code>\n</pre>\n<pre>\n<code>\nz\n</code>\n</pre>x"
    );
}

#[test]
fn code_pass_fails_when_the_highlighter_fails() {
    let events = vec![code("rust", "r"), code("c", "c")];
    let outcomes = vec![Some(Err(HighlightError::Other)), Some(Err(HighlightError::Other))];
    assert_eq!(code_pass_with(&events, &outcomes).unwrap_err(), Error::Highlight { language: "rust".to_string() });
}

#[test]
fn code_pass_without_grammars_writes_everything_plain() {
    let highlighter = Highlighter::new();
    let events = vec![code("rust", "fn f() {}"), code("", "x")];
    assert_eq!(highlight_all(&events, &highlighter), vec![Some(Err(HighlightError::InvalidLanguage)), None]);
    assert_eq!(highlighter.highlight("fn f() {}", "rust"), Err(HighlightError::InvalidLanguage));
    assert_eq!(highlighter.highlight("x", "no such language"), Err(HighlightError::InvalidLanguage));
    let (out, warnings) = code_pass(&events, &highlighter).unwrap();
    assert_eq!(warnings, vec![Warning::UnknownLanguage { language: "rust".to_string() }]);
    assert_eq!(html(&out), "<pre>\n<code>\nfn f() {}\n</code>\n</pre>\n<pre>\n<code>\nx\n</code>\n</pre>");
}

#[test]
fn highlights_are_written_as_spans() {
    let steps = vec![
        HighlightStep::Start(5),
        HighlightStep::Source { start: 0, end: 2 },
        HighlightStep::End,
        HighlightStep::Source { start: 2, end: 3 },
        HighlightStep::Start(3),
        HighlightStep::Source { start: 3, end: 9 },
        HighlightStep::End,
        HighlightStep::Start(10),
        HighlightStep::Source { start: 9, end: 9 },
        HighlightStep::End,
    ];
    assert_eq!(
        render_highlights("fn <é>'\"&", &steps),
        Ok("<span class=\"keyword\">fn</span> <span class=\"function builtin\">&lt;é&gt;&#39;&quot;</span><span class=\"string special\"></span>".to_string())
    );
    assert_eq!(render_highlights("", &vec![]), Ok(String::new()));
}

#[test]
fn highlights_that_do_not_fit_the_code_are_an_error() {
    assert_eq!(render_highlights("é", &vec![HighlightStep::Source { start: 0, end: 1 }]), Err(HighlightError::Other));
    assert_eq!(render_highlights("é", &vec![HighlightStep::Source { start: 1, end: 2 }]), Err(HighlightError::Other));
    assert_eq!(render_highlights("ab", &vec![HighlightStep::Source { start: 0, end: 3 }]), Err(HighlightError::Other));
    assert_eq!(render_highlights("ab", &vec![HighlightStep::Source { start: 2, end: 1 }]), Err(HighlightError::Other));
    assert_eq!(render_highlights("ab", &vec![HighlightStep::Start(14)]), Err(HighlightError::Other));
    assert_eq!(
        render_highlights("ab", &vec![HighlightStep::Start(99), HighlightStep::Source { start: 0, end: 2 }]),
        Err(HighlightError::Other)
    );
    assert_eq!(render_highlights("ab", &vec![HighlightStep::Start(13), HighlightStep::End]), Ok("<span class=\"variable\"></span>".to_string()));
}

fn figure(caption: bool, class: &str) -> Vec<Event> {
    let mut events = vec![
        start_with(Container::Div, &[("class", class), ("id", "f")]),
        start(Container::Paragraph),
        image("pic.png", "alt"),
        end(ContainerEnd::Paragraph),
    ];
    if caption {
        events.extend(vec![start_with(other("caption"), &[("lang", "en")]), text("A caption"), end(other_end("caption"))]);
    }
    events.push(end(ContainerEnd::Div));
    events.push(text("after"));
    events
}

#[test]
fn figure_with_caption() {
    let out = figure_pass(&figure(true, "figure"));
    assert_eq!(
        html(&out),
        "<figure class=\"figure\" id=\"f\">\n<p>\n<img src=\"pic.png\" alt=\"alt\"></p>\n<figcaption lang=\"en\">A caption</figcaption></figure>after"
    );
}

#[test]
fn figure_without_caption() {
    let out = figure_pass(&figure(false, "figure"));
    assert_eq!(
        html(&out),
        "<figure class=\"figure\" id=\"f\">\n<p>\n<img src=\"pic.png\" alt=\"alt\"></p>\n</figure>after"
    );
}

#[test]
fn only_blocks_of_exactly_the_class_figure_are_figures() {
    for class in ["figure wide", "Figure", "fig", ""] {
        let events = figure(true, class);
        assert_eq!(html(&figure_pass(&events)), html(&events));
    }
    let plain = vec![start(Container::Div), text("x"), end(ContainerEnd::Div)];
    assert_eq!(html(&figure_pass(&plain)), "<div>x</div>\n");
}

#[test]
fn a_caption_that_does_not_end_the_figure_stays_a_caption() {
    let events = vec![
        start_with(Container::Div, &[("class", "figure")]),
        start(other("caption")),
        text("first"),
        end(other_end("caption")),
        text("last"),
        end(ContainerEnd::Div),
    ];
    assert_eq!(html(&figure_pass(&events)), "<figure class=\"figure\">\n<caption>first</caption>last</figure>");
}

#[test]
fn figures_nest_and_unclosed_figures_take_the_rest() {
    let mut events = vec![start_with(Container::Div, &[("class", "figure")])];
    events.extend(figure(true, "figure"));
    let out = figure_pass(&events);
    assert_eq!(
        html(&out),
        "<figure class=\"figure\">\n<figure class=\"figure\" id=\"f\">\n<p>\n<img src=\"pic.png\" alt=\"alt\"></p>\n<figcaption lang=\"en\">A caption</figcaption></figure>after"
    );
    assert_eq!(figure_pass(&vec![]).len(), 0);
}

#[test]
fn highlight_names_come_in_the_order_of_their_numbers() {
    let names = sprokkel::highlight::highlight_names();
    assert_eq!(names.len(), 14);
    assert_eq!(names[0], "attribute");
    assert_eq!(names[3], "function.builtin");
    assert_eq!(names[10], "string.special");
    assert_eq!(names[13], "variable");
    let steps = vec![HighlightStep::Start(3), HighlightStep::End, HighlightStep::Start(10), HighlightStep::End];
    assert_eq!(
        render_highlights("", &steps),
        Ok(format!(
            "<span class=\"{}\"></span><span class=\"{}\"></span>",
            names[3].replace('.', " "),
            names[10].replace('.', " ")
        ))
    );
}

#[test]
fn the_middle_command_needs_a_fence() {
    for formula in [
        "\\left( a \\middle| b \\right)",
        "\\middle| b",
        "\\middle( \\middle) \\middle[ \\middle] \\middle.",
        "\\middle|",
        "\\middle| \t\n x'",
        "\\middl e",
        "middle \\mid x",
        "",
    ] {
        assert!(sprokkel::math::convertible(formula), "{formula}");
    }
    for formula in [
        "\\middle x",
        "\\middle",
        "ab\\middle",
        "\\middle |",
        "\\middle|'",
        "\\middle| \t\r\n'",
        "\\middle+",
        "\\middlex",
        "\\middle| \\middle",
    ] {
        assert!(!sprokkel::math::convertible(formula), "{formula}");
        assert_eq!(render_latex(MathBackend::Latex2Mathml, formula, MathKind::Inline), None);
    }
    assert_eq!(
        math_pass(&vec![math(MathKind::Inline, "a \\middle x")], MathBackend::Latex2Mathml).unwrap_err(),
        Error::Math { math: "a \\middle x".to_string() }
    );
    let fenced = render_latex(MathBackend::Latex2Mathml, "\\left( a \\middle| b \\right)", MathKind::Inline);
    assert!(fenced.unwrap().contains("<mo stretchy=\"true\">|</mo>"));
    assert!(render_latex(MathBackend::Latex2Mathml, "\\mid x", MathKind::Inline).is_some());
}

#[test]
fn the_first_grammar_registered_for_a_language_counts() {
    let highlighter = Highlighter::new();
    assert!(highlighter.configuration_for("rust").is_none());
    assert!(highlighter.configuration_for("no such language").is_none());
}
