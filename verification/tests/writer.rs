use sprokkel::attributes::{AttributeValue, Attributes};
use sprokkel::ir_markup::{
    Alignment, Container, ContainerEnd, Event, ListKind, MathKind, OrderedListNumbering, Warning,
};
use sprokkel::tags::has_well_nested_tags;
use sprokkel::writer::push_html;

fn start(container: Container) -> Event {
    Event::Start { container, attributes: Attributes::new() }
}

fn end(container: ContainerEnd) -> Event {
    Event::End { container }
}

fn text(s: &str) -> Event {
    Event::Str(s.to_string())
}

fn attrs(pairs: &[(&str, &str)]) -> Attributes {
    let mut attributes = Attributes::new();
    for (name, value) in pairs {
        attributes.push(name, AttributeValue::raw(value));
    }
    attributes
}

fn html(events: Vec<Event>) -> String {
    let mut s = String::new();
    push_html(&mut s, &events);
    s
}

fn reference(label: &str) -> Event {
    Event::FootnoteReference { reference: label.to_string() }
}

fn footnote(label: &str, content: &str) -> Vec<Event> {
    vec![
        start(Container::Footnote { label: label.to_string() }),
        start(Container::Paragraph),
        text(content),
        end(ContainerEnd::Paragraph),
        end(ContainerEnd::Footnote),
    ]
}

#[test]
fn body_text_is_escaped_once() {
    assert_eq!(html(vec![text("<script>&\"'")]), "&lt;script&gt;&amp;&quot;&#x27;");
}

#[test]
fn attribute_values_are_escaped() {
    let events = vec![Event::TagWithAttribute { tag: "hr".to_string(), attributes: attrs(&[("title", "<a & 'b' \"c\">")]) }];
    assert_eq!(html(events), "<hr title=\"&lt;a &amp; &#39;b&#39; &quot;c&quot;&gt;\">");
}

#[test]
fn raw_html_is_not_escaped() {
    let inline = Event::HtmlInline { content: "<b>&amp;</b>".to_string(), attributes: Attributes::new() };
    assert_eq!(html(vec![text("a"), inline]), "a<b>&amp;</b>");
    let wrapped = Event::HtmlInline { content: "<b>x</b>".to_string(), attributes: attrs(&[("id", "i")]) };
    assert_eq!(html(vec![text("a"), wrapped]), "a\n<span id=\"i\"><b>x</b></span>\n");
    let block = Event::HtmlBlock { content: "<video></video>".to_string(), attributes: attrs(&[("class", "c")]) };
    assert_eq!(html(vec![block]), "<div class=\"c\"><video></video></div>\n");
}

#[test]
fn push_html_continues_the_buffer() {
    let mut s = "before".to_string();
    push_html(&mut s, &vec![start(Container::Paragraph), text("x"), end(ContainerEnd::Paragraph)]);
    assert_eq!(s, "before\n<p>x</p>\n");
}

#[test]
fn attributes_render_in_lexicographic_order() {
    let first = attrs(&[("id", "x"), ("class", "y"), ("data-z", "1")]);
    let second = attrs(&[("data-z", "1"), ("id", "x"), ("class", "y")]);
    let a = html(vec![Event::Start { container: Container::Div, attributes: first }, end(ContainerEnd::Div)]);
    let b = html(vec![Event::Start { container: Container::Div, attributes: second }, end(ContainerEnd::Div)]);
    assert_eq!(a, "<div class=\"y\" data-z=\"1\" id=\"x\"></div>\n");
    assert_eq!(a, b);
}

#[test]
fn footnotes_are_numbered_in_the_order_of_their_references() {
    let mut events = vec![start(Container::Paragraph), reference("a"), reference("b"), end(ContainerEnd::Paragraph)];
    events.extend(footnote("b", "B"));
    events.extend(footnote("a", "A"));
    let mut s = String::new();
    let warnings = push_html(&mut s, &events);
    assert!(warnings.is_empty());
    assert_eq!(
        s,
        "<p><sup class=\"footnote-reference\"><a role=\"doc-noteref\" href=\"#fn-1\">1</a></sup>\
<sup class=\"footnote-reference\"><a role=\"doc-noteref\" href=\"#fn-2\">2</a></sup></p>\n\
<hr><aside class=\"footnotes\" role=\"doc-endnotes\"><ol>\
<li class=\"footnote-definition\" id=\"fn-1\" role=\"doc-footnote\">\n<p>A</p>\n</li>\n\
<li class=\"footnote-definition\" id=\"fn-2\" role=\"doc-footnote\">\n<p>B</p>\n</li>\n\
</ol>\n</aside>\n"
    );
}

#[test]
fn definition_before_reference_takes_the_first_number() {
    let mut events = footnote("x", "X");
    events.push(reference("y"));
    events.push(reference("x"));
    let s = html(events);
    assert!(s.starts_with("<sup class=\"footnote-reference\"><a role=\"doc-noteref\" href=\"#fn-2\">2</a></sup><sup class=\"footnote-reference\"><a role=\"doc-noteref\" href=\"#fn-1\">1</a></sup>"));
    assert!(s.contains("<ol><li class=\"footnote-definition\" id=\"fn-1\" role=\"doc-footnote\">\n<p>X</p>\n</li>\n"));
}

#[test]
fn missing_footnote_gets_a_placeholder_and_a_warning() {
    let mut s = String::new();
    let warnings = push_html(&mut s, &vec![reference("gone")]);
    assert_eq!(warnings, vec![Warning::MissingFootnote { label: "gone".to_string() }]);
    assert_eq!(
        s,
        "<sup class=\"footnote-reference\"><a role=\"doc-noteref\" href=\"#fn-1\">1</a></sup>\
<hr><aside class=\"footnotes\" role=\"doc-endnotes\"><ol>\n\
<li class=\"footnote-definition\" id=\"fn-1\" role=\"doc-footnote\"></ol>\n</aside>\n"
    );
}

#[test]
fn duplicate_footnote_keeps_both_contents() {
    let mut events = footnote("n", "one");
    events.extend(footnote("n", "two"));
    let mut s = String::new();
    let warnings = push_html(&mut s, &events);
    assert_eq!(warnings, vec![Warning::DuplicateFootnote { label: "n".to_string() }]);
    assert_eq!(
        s,
        "<hr><aside class=\"footnotes\" role=\"doc-endnotes\"><ol>\
<li class=\"footnote-definition\" id=\"fn-1\" role=\"doc-footnote\">\n<p>one</p>\n</li>\n\
<li class=\"footnote-definition\" id=\"fn-1\" role=\"doc-footnote\">\n<p>two</p>\n</li>\n\
</ol>\n</aside>\n"
    );
}

fn list_with_paragraph(tight: bool) -> Vec<Event> {
    vec![
        start(Container::List { kind: ListKind::Unordered, tight }),
        start(Container::ListItem),
        start(Container::Paragraph),
        text("item"),
        end(ContainerEnd::Paragraph),
        end(ContainerEnd::ListItem),
        end(ContainerEnd::List { kind: ListKind::Unordered }),
    ]
}

#[test]
fn tight_list_suppresses_paragraph_tags() {
    assert_eq!(html(list_with_paragraph(true)), "<ul>\n<li>item</li>\n</ul>\n");
    assert_eq!(html(list_with_paragraph(false)), "<ul>\n<li>\n<p>item</p>\n</li>\n</ul>\n");
}

#[test]
fn tightness_is_that_of_the_innermost_list() {
    let mut events = vec![start(Container::List { kind: ListKind::Unordered, tight: true }), start(Container::ListItem)];
    events.extend(list_with_paragraph(false));
    events.extend(vec![
        start(Container::Paragraph),
        text("after"),
        end(ContainerEnd::Paragraph),
        end(ContainerEnd::ListItem),
        end(ContainerEnd::List { kind: ListKind::Unordered }),
        start(Container::Paragraph),
        text("out"),
        end(ContainerEnd::Paragraph),
    ]);
    assert_eq!(
        html(events),
        "<ul>\n<li>\n<ul>\n<li>\n<p>item</p>\n</li>\n</ul>\nafter</li>\n</ul>\n<p>out</p>\n"
    );
}

#[test]
fn a_list_end_without_list_is_tolerated() {
    assert_eq!(html(vec![end(ContainerEnd::List { kind: ListKind::Task }), text("x")]), "</ul>\nx");
}

#[test]
fn ordered_lists_show_type_and_start_when_needed() {
    let list = |numbering, start_at| {
        let kind = ListKind::Ordered { numbering, start: start_at };
        html(vec![start(Container::List { kind, tight: true }), end(ContainerEnd::List { kind })])
    };
    assert_eq!(list(OrderedListNumbering::Decimal, 1), "<ol></ol>\n");
    assert_eq!(list(OrderedListNumbering::Decimal, 0), "<ol start=\"0\"></ol>\n");
    assert_eq!(list(OrderedListNumbering::AlphaLower, 1), "<ol type=\"a\"></ol>\n");
    assert_eq!(list(OrderedListNumbering::AlphaUpper, 27), "<ol type=\"A\" start=\"27\"></ol>\n");
    assert_eq!(list(OrderedListNumbering::RomanLower, 1), "<ol type=\"i\"></ol>\n");
    assert_eq!(
        list(OrderedListNumbering::RomanUpper, 18446744073709551615),
        "<ol type=\"I\" start=\"18446744073709551615\"></ol>\n"
    );
}

#[test]
fn headings_link_to_themselves() {
    let heading = |level| {
        html(vec![
            start(Container::Heading { level, id: "t".to_string() }),
            text("T"),
            end(ContainerEnd::Heading { level }),
        ])
    };
    assert_eq!(heading(1), "<h1><a href=\"#t\">T</a></h1>\n");
    assert_eq!(heading(5), "<h5><a href=\"#t\">T</a></h5>\n");
    assert_eq!(heading(6), "<h6><a href=\"#t\">T</a></h6>\n");
    assert_eq!(heading(9), "<h6><a href=\"#t\">T</a></h6>\n");
    assert_eq!(heading(0), "<h6><a href=\"#t\">T</a></h6>\n");
}

#[test]
fn table_cells_show_their_alignment() {
    let cell = |alignment, head| {
        html(vec![start(Container::TableCell { alignment, head }), end(ContainerEnd::TableCell { head })])
    };
    assert_eq!(cell(Alignment::Unspecified, false), "<td></td>\n");
    assert_eq!(cell(Alignment::Left, true), "<th style=\"text-align: left;\"></th>\n");
    assert_eq!(cell(Alignment::Center, false), "<td style=\"text-align: center;\"></td>\n");
    assert_eq!(cell(Alignment::Right, true), "<th style=\"text-align: right;\"></th>\n");
}

#[test]
fn leaves_that_no_pass_rewrote_are_written_plainly() {
    let image = Event::Image { destination: "a.png".to_string(), alt: "A".to_string(), attributes: attrs(&[("id", "i")]) };
    assert_eq!(html(vec![image]), "<img id=\"i\" src=\"a.png\" alt=\"A\">");
    let math = Event::Math { kind: MathKind::Inline, math: "a<b".to_string(), attributes: Attributes::new() };
    assert_eq!(html(vec![text("x"), math]), "x\n<span class=\"math\">a&lt;b</span>");
    let code = Event::CodeBlock { language: "rust".to_string(), code: "".to_string(), attributes: Attributes::new() };
    assert_eq!(html(vec![code]), "<pre>\n<code>\n</code>\n</pre>");
}

#[test]
fn task_items_are_marked() {
    let events = vec![
        start(Container::List { kind: ListKind::Task, tight: true }),
        start(Container::TaskListItem { checked: true }),
        end(ContainerEnd::TaskListItem),
        start(Container::TaskListItem { checked: false }),
        end(ContainerEnd::TaskListItem),
        end(ContainerEnd::List { kind: ListKind::Task }),
    ];
    assert_eq!(
        html(events),
        "<ul class=\"task-list\">\n<li class=\"checked\" data-checked=\"true\"></li>\n<li class=\"unchecked\" data-checked=\"false\"></li>\n</ul>\n"
    );
}

#[test]
fn the_reader_of_tags_follows_opening_and_closing_tags() {
    assert!(has_well_nested_tags(""));
    assert!(has_well_nested_tags("no tags, 1 > 0 &lt; 2"));
    assert!(has_well_nested_tags("<p>a <em class=\"x\">b</em></p>\n"));
    assert!(has_well_nested_tags("<ul>\n<li>a</li>\n<li>b</li>\n</ul>\n"));
    assert!(has_well_nested_tags("<p>\n<img src=\"a.png\" alt=\"\"><br /><hr></p>"));
    assert!(!has_well_nested_tags("<p><em>a</p></em>"));
    assert!(!has_well_nested_tags("<p>a"));
    assert!(!has_well_nested_tags("a</p>"));
    assert!(!has_well_nested_tags("<p>a</p"));
    assert!(!has_well_nested_tags("<p>a</div>"));
    assert!(!has_well_nested_tags("<li id=\"fn-1\">"));
}

#[test]
fn written_tags_are_well_nested() {
    let document = vec![
        start(Container::Section { id: "s".to_string() }),
        start(Container::Heading { level: 2, id: "s".to_string() }),
        text("A <b> & c"),
        end(ContainerEnd::Heading { level: 2 }),
        start(Container::List { kind: ListKind::Unordered, tight: true }),
        start(Container::ListItem),
        start(Container::Paragraph),
        text("tight"),
        Event::FootnoteReference { reference: "n".to_string() },
        end(ContainerEnd::Paragraph),
        end(ContainerEnd::ListItem),
        end(ContainerEnd::List { kind: ListKind::Unordered }),
        Event::Start {
            container: Container::Footnote { label: "n".to_string() },
            attributes: attrs(&[("data-x", "a>b")]),
        },
        start(Container::Paragraph),
        text("note"),
        Event::Math { kind: MathKind::Inline, math: "a<b".to_string(), attributes: Attributes::new() },
        end(ContainerEnd::Paragraph),
        end(ContainerEnd::Footnote),
        Event::CodeBlock {
            language: String::new(),
            code: "if a < b {}".to_string(),
            attributes: Attributes::new(),
        },
        Event::Image {
            destination: "a.png".to_string(),
            alt: "x > y".to_string(),
            attributes: Attributes::new(),
        },
        start(Container::Other { tag: "em".to_string() }),
        end(ContainerEnd::Other { tag: "em".to_string() }),
        end(ContainerEnd::Section),
    ];
    let written = html(document);
    assert!(written.contains("<aside class=\"footnotes\""));
    assert!(has_well_nested_tags(&written));
}

#[test]
fn a_footnote_without_definition_leaves_its_item_open() {
    let document = vec![
        start(Container::Paragraph),
        Event::FootnoteReference { reference: "gone".to_string() },
        end(ContainerEnd::Paragraph),
    ];
    assert!(!has_well_nested_tags(&html(document)));
}

#[test]
fn unbalanced_containers_are_written_as_unbalanced_tags() {
    assert!(!has_well_nested_tags(&html(vec![start(Container::Paragraph), text("a")])));
    assert!(!has_well_nested_tags(&html(vec![
        start(Container::Paragraph),
        start(Container::Blockquote),
        end(ContainerEnd::Paragraph),
        end(ContainerEnd::Blockquote),
    ])));
}
