use sprokkel::attributes::{AttributeValue, Attributes};
use sprokkel::djot::{djot_to_ir, DjotContainer, DjotEvent};
use sprokkel::ir_markup::{
    Alignment, Container, ContainerEnd, Event, ListKind, OrderedListNumbering,
};
use sprokkel::markdown::{markdown_to_ir, MarkdownEvent, MarkdownTag, MarkdownTagEnd};
use sprokkel::writer::push_html;

fn djot_attributes(attributes: jotdown::Attributes<'_>) -> Attributes {
    let mut converted = Attributes::with_capacity(attributes.len());
    for (name, value) in attributes {
        converted.push(name, AttributeValue::Jotdown(value.to_string()));
    }
    converted
}

fn djot_list_kind(kind: jotdown::ListKind) -> ListKind {
    match kind {
        jotdown::ListKind::Unordered => ListKind::Unordered,
        jotdown::ListKind::Ordered { numbering, style: _, start } => ListKind::Ordered {
            numbering: match numbering {
                jotdown::OrderedListNumbering::Decimal => OrderedListNumbering::Decimal,
                jotdown::OrderedListNumbering::AlphaLower => OrderedListNumbering::AlphaLower,
                jotdown::OrderedListNumbering::AlphaUpper => OrderedListNumbering::AlphaUpper,
                jotdown::OrderedListNumbering::RomanLower => OrderedListNumbering::RomanLower,
                jotdown::OrderedListNumbering::RomanUpper => OrderedListNumbering::RomanUpper,
            },
            start,
        },
        jotdown::ListKind::Task => ListKind::Task,
    }
}

fn djot_alignment(alignment: jotdown::Alignment) -> Alignment {
    match alignment {
        jotdown::Alignment::Unspecified => Alignment::Unspecified,
        jotdown::Alignment::Left => Alignment::Left,
        jotdown::Alignment::Center => Alignment::Center,
        jotdown::Alignment::Right => Alignment::Right,
    }
}

fn djot_container(container: jotdown::Container<'_>) -> DjotContainer {
    match container {
        jotdown::Container::Blockquote => DjotContainer::Blockquote,
        jotdown::Container::List { kind, tight } => DjotContainer::List { kind: djot_list_kind(kind), tight },
        jotdown::Container::ListItem => DjotContainer::ListItem,
        jotdown::Container::TaskListItem { checked } => DjotContainer::TaskListItem { checked },
        jotdown::Container::DescriptionList => DjotContainer::DescriptionList,
        jotdown::Container::DescriptionDetails => DjotContainer::DescriptionDetails,
        jotdown::Container::Footnote { label } => DjotContainer::Footnote { label: label.to_string() },
        jotdown::Container::Table => DjotContainer::Table,
        jotdown::Container::TableRow { head } => DjotContainer::TableRow { head },
        jotdown::Container::Section { id } => DjotContainer::Section { id: id.into_owned() },
        jotdown::Container::Div { class } => DjotContainer::Div { class: class.to_string() },
        jotdown::Container::Paragraph => DjotContainer::Paragraph,
        jotdown::Container::Heading { level, has_section: _, id } => DjotContainer::Heading { level, id: id.into_owned() },
        jotdown::Container::TableCell { alignment, head } => DjotContainer::TableCell { alignment: djot_alignment(alignment), head },
        jotdown::Container::Caption => DjotContainer::Caption,
        jotdown::Container::DescriptionTerm => DjotContainer::DescriptionTerm,
        jotdown::Container::LinkDefinition { label: _ } => DjotContainer::LinkDefinition,
        jotdown::Container::RawBlock { format } => DjotContainer::RawBlock { format: format.to_string() },
        jotdown::Container::CodeBlock { language } => DjotContainer::CodeBlock { language: language.to_string() },
        jotdown::Container::Span => DjotContainer::Span,
        jotdown::Container::Link(destination, _) => DjotContainer::Link { destination: destination.into_owned() },
        jotdown::Container::Image(destination, _) => DjotContainer::Image { destination: destination.into_owned() },
        jotdown::Container::Verbatim => DjotContainer::Verbatim,
        jotdown::Container::Math { display } => DjotContainer::Math { display },
        jotdown::Container::RawInline { format } => DjotContainer::RawInline { format: format.to_string() },
        jotdown::Container::Subscript => DjotContainer::Subscript,
        jotdown::Container::Superscript => DjotContainer::Superscript,
        jotdown::Container::Insert => DjotContainer::Insert,
        jotdown::Container::Delete => DjotContainer::Delete,
        jotdown::Container::Strong => DjotContainer::Strong,
        jotdown::Container::Emphasis => DjotContainer::Emphasis,
        jotdown::Container::Mark => DjotContainer::Mark,
    }
}

fn djot_event(event: jotdown::Event<'_>) -> DjotEvent {
    match event {
        jotdown::Event::Start(container, attributes) => DjotEvent::Start {
            container: djot_container(container),
            attributes: djot_attributes(attributes),
        },
        jotdown::Event::End(container) => DjotEvent::End { container: djot_container(container) },
        jotdown::Event::Str(text) => DjotEvent::Str(text.into_owned()),
        jotdown::Event::FootnoteReference(label) => DjotEvent::FootnoteReference(label.to_string()),
        jotdown::Event::Symbol(name) => DjotEvent::Symbol(name.into_owned()),
        jotdown::Event::LeftSingleQuote => DjotEvent::LeftSingleQuote,
        jotdown::Event::RightSingleQuote => DjotEvent::RightSingleQuote,
        jotdown::Event::LeftDoubleQuote => DjotEvent::LeftDoubleQuote,
        jotdown::Event::RightDoubleQuote => DjotEvent::RightDoubleQuote,
        jotdown::Event::Ellipsis => DjotEvent::Ellipsis,
        jotdown::Event::EnDash => DjotEvent::EnDash,
        jotdown::Event::EmDash => DjotEvent::EmDash,
        jotdown::Event::NonBreakingSpace => DjotEvent::NonBreakingSpace,
        jotdown::Event::Softbreak => DjotEvent::Softbreak,
        jotdown::Event::Hardbreak => DjotEvent::Hardbreak,
        jotdown::Event::Escape => DjotEvent::Escape,
        jotdown::Event::Blankline => DjotEvent::Blankline,
        jotdown::Event::ThematicBreak(attributes) => DjotEvent::ThematicBreak { attributes: djot_attributes(attributes) },
    }
}

fn djot_parse(input: &str) -> Vec<Event> {
    let events: Vec<DjotEvent> = jotdown::Parser::new(input).map(djot_event).collect();
    djot_to_ir(&events)
}

fn markdown_alignment(alignment: pulldown_cmark::Alignment) -> Alignment {
    match alignment {
        pulldown_cmark::Alignment::None => Alignment::Unspecified,
        pulldown_cmark::Alignment::Left => Alignment::Left,
        pulldown_cmark::Alignment::Center => Alignment::Center,
        pulldown_cmark::Alignment::Right => Alignment::Right,
    }
}

fn markdown_tag(tag: pulldown_cmark::Tag<'_>) -> MarkdownTag {
    match tag {
        pulldown_cmark::Tag::Paragraph => MarkdownTag::Paragraph,
        pulldown_cmark::Tag::Heading { level, id, classes: _, attrs: _ } => MarkdownTag::Heading {
            level: level as u16,
            id: id.map(|id| id.to_string()),
        },
        pulldown_cmark::Tag::BlockQuote => MarkdownTag::BlockQuote,
        pulldown_cmark::Tag::CodeBlock(pulldown_cmark::CodeBlockKind::Indented) => MarkdownTag::CodeBlock { language: String::new() },
        pulldown_cmark::Tag::CodeBlock(pulldown_cmark::CodeBlockKind::Fenced(language)) => MarkdownTag::CodeBlock { language: language.to_string() },
        pulldown_cmark::Tag::HtmlBlock => MarkdownTag::HtmlBlock,
        pulldown_cmark::Tag::List(start) => MarkdownTag::List { start },
        pulldown_cmark::Tag::Item => MarkdownTag::Item,
        pulldown_cmark::Tag::FootnoteDefinition(label) => MarkdownTag::FootnoteDefinition { label: label.to_string() },
        pulldown_cmark::Tag::Table(alignments) => MarkdownTag::Table {
            alignments: alignments.into_iter().map(markdown_alignment).collect(),
        },
        pulldown_cmark::Tag::TableHead => MarkdownTag::TableHead,
        pulldown_cmark::Tag::TableRow => MarkdownTag::TableRow,
        pulldown_cmark::Tag::TableCell => MarkdownTag::TableCell,
        pulldown_cmark::Tag::Emphasis => MarkdownTag::Emphasis,
        pulldown_cmark::Tag::Strong => MarkdownTag::Strong,
        pulldown_cmark::Tag::Strikethrough => MarkdownTag::Strikethrough,
        pulldown_cmark::Tag::Link { link_type: _, dest_url, title, id: _ } => MarkdownTag::Link {
            dest_url: dest_url.to_string(),
            title: title.to_string(),
        },
        pulldown_cmark::Tag::Image { link_type: _, dest_url, title, id: _ } => MarkdownTag::Image {
            dest_url: dest_url.to_string(),
            title: title.to_string(),
        },
        pulldown_cmark::Tag::MetadataBlock(_) => MarkdownTag::MetadataBlock,
    }
}

fn markdown_tag_end(tag: pulldown_cmark::TagEnd) -> MarkdownTagEnd {
    match tag {
        pulldown_cmark::TagEnd::Paragraph => MarkdownTagEnd::Paragraph,
        pulldown_cmark::TagEnd::Heading(level) => MarkdownTagEnd::Heading { level: level as u16 },
        pulldown_cmark::TagEnd::BlockQuote => MarkdownTagEnd::BlockQuote,
        pulldown_cmark::TagEnd::CodeBlock => MarkdownTagEnd::CodeBlock,
        pulldown_cmark::TagEnd::HtmlBlock => MarkdownTagEnd::HtmlBlock,
        pulldown_cmark::TagEnd::List(ordered) => MarkdownTagEnd::List { ordered },
        pulldown_cmark::TagEnd::Item => MarkdownTagEnd::Item,
        pulldown_cmark::TagEnd::FootnoteDefinition => MarkdownTagEnd::FootnoteDefinition,
        pulldown_cmark::TagEnd::Table => MarkdownTagEnd::Table,
        pulldown_cmark::TagEnd::TableHead => MarkdownTagEnd::TableHead,
        pulldown_cmark::TagEnd::TableRow => MarkdownTagEnd::TableRow,
        pulldown_cmark::TagEnd::TableCell => MarkdownTagEnd::TableCell,
        pulldown_cmark::TagEnd::Emphasis => MarkdownTagEnd::Emphasis,
        pulldown_cmark::TagEnd::Strong => MarkdownTagEnd::Strong,
        pulldown_cmark::TagEnd::Strikethrough => MarkdownTagEnd::Strikethrough,
        pulldown_cmark::TagEnd::Link => MarkdownTagEnd::Link,
        pulldown_cmark::TagEnd::Image => MarkdownTagEnd::Image,
        pulldown_cmark::TagEnd::MetadataBlock(_) => MarkdownTagEnd::MetadataBlock,
    }
}

fn markdown_event(event: pulldown_cmark::Event<'_>) -> MarkdownEvent {
    match event {
        pulldown_cmark::Event::Start(tag) => MarkdownEvent::Start(markdown_tag(tag)),
        pulldown_cmark::Event::End(tag) => MarkdownEvent::End(markdown_tag_end(tag)),
        pulldown_cmark::Event::Text(text) => MarkdownEvent::Text(text.to_string()),
        pulldown_cmark::Event::Code(text) => MarkdownEvent::Code(text.to_string()),
        pulldown_cmark::Event::Html(html) => MarkdownEvent::Html(html.to_string()),
        pulldown_cmark::Event::InlineHtml(html) => MarkdownEvent::InlineHtml(html.to_string()),
        pulldown_cmark::Event::FootnoteReference(label) => MarkdownEvent::FootnoteReference(label.to_string()),
        pulldown_cmark::Event::SoftBreak => MarkdownEvent::SoftBreak,
        pulldown_cmark::Event::HardBreak => MarkdownEvent::HardBreak,
        pulldown_cmark::Event::Rule => MarkdownEvent::Rule,
        pulldown_cmark::Event::TaskListMarker(checked) => MarkdownEvent::TaskListMarker(checked),
    }
}

fn markdown_parse(input: &str) -> Vec<Event> {
    let opts = pulldown_cmark::Options::ENABLE_TABLES
        | pulldown_cmark::Options::ENABLE_FOOTNOTES
        | pulldown_cmark::Options::ENABLE_TASKLISTS
        | pulldown_cmark::Options::ENABLE_SMART_PUNCTUATION
        | pulldown_cmark::Options::ENABLE_HEADING_ATTRIBUTES;
    let events: Vec<MarkdownEvent> = pulldown_cmark::Parser::new_ext(input, opts).map(markdown_event).collect();
    markdown_to_ir(&events)
}

fn djot_test(input: &str, output: &str) {
    let mut s = String::new();
    let ir = djot_parse(input);
    push_html(&mut s, &ir);
    assert_eq!(s, output);
}

fn markdown_test(input: &str, output: &str) {
    let mut s = String::new();
    let ir = markdown_parse(input);
    push_html(&mut s, &ir);
    assert_eq!(s, output);
}

fn djot_markdown_equal(djot: &str, markdown: &str) {
    let djot = djot_parse(djot);
    let markdown = markdown_parse(markdown);

    let mut dhtml = String::new();
    push_html(&mut dhtml, &djot);

    let mut mhtml = String::new();
    push_html(&mut mhtml, &markdown);

    assert_eq!(dhtml, mhtml);
}

#[test]
fn empty() {
    djot_markdown_equal("", "");
}

#[test]
fn tests_table() {
    djot_markdown_equal(
        r#"
| head 1 | head 2 |
|--|--:|
| cell 1 | cell 2 |
"#,
        r#"
| head 1 | head 2 |
|---|--:|
| cell 1 | cell 2 |
"#,
    );
}

#[test]
fn doc() {
    djot_markdown_equal(
        r#"
# A document

With a paragraph
[containing a link](https://example.com)

<an-email-address@example.com>

![alt text](https://example.com/image.svg)

- a
- list

Some features:

1. ordinal list
1. _emphasis_
1. *bold*
1. "smart punctuation"
1. 'other smart punctuation'

## And a subheading

...
"#,
        r#"
# A document { #A-document }

With a paragraph
[containing a link](https://example.com)

<an-email-address@example.com>

![alt text](https://example.com/image.svg)

- a
- list

Some features:

1. ordinal list
1. *emphasis*
1. **bold**
1. "smart punctuation"
1. 'other smart punctuation'

## And a subheading { #And-a-subheading }

...
"#,
    );
}

#[test]
fn djot_paragraph() {
    djot_test(
        r##"
This is
a simple paragraph

This is a new paragraph
                "##,
        r##"<p>This is
a simple paragraph</p>
<p>This is a new paragraph</p>
"##,
    );
}

#[test]
fn heading() {
    djot_test(
        r##"
# This is a heading test

## With a nested heading

The following heading is equal to a previous one

# This is a heading test
"##,
        r##"<section id="This-is-a-heading-test">
<h1><a href="#This-is-a-heading-test">This is a heading test</a></h1>
<section id="With-a-nested-heading">
<h2><a href="#With-a-nested-heading">With a nested heading</a></h2>
<p>The following heading is equal to a previous one</p>
</section>
</section>
<section id="This-is-a-heading-test-1">
<h1><a href="#This-is-a-heading-test-1">This is a heading test</a></h1>
</section>
"##,
    )
}

#[test]
fn djot_blockquote() {
    djot_test(
        r##"
A paragraph

> And a
> blockquote
                "##,
        r##"<p>A paragraph</p>
<blockquote>
<p>And a
blockquote</p>
</blockquote>"##,
    );
}

#[test]
fn list() {
    djot_test(
        r##"
- item 1
- item 2

  1. a nested item
"##,
        r##"<ul>
<li>item 1</li>
<li>item 2
<ol>
<li>a nested item</li>
</ol>
</li>
</ul>
"##,
    )
}

#[test]
fn ordered_list() {
    djot_test(
        r##"
1. item 1
1. item 2

{}
3. item 1
3. item 2

{}
a. item 1
a. item 2

{}
I. item 1
I. item 2
"##,
        r##"<ol>
<li>item 1</li>
<li>item 2</li>
</ol>
<ol start="3">
<li>item 1</li>
<li>item 2</li>
</ol>
<ol type="a">
<li>item 1</li>
<li>item 2</li>
</ol>
<ol type="I">
<li>item 1</li>
<li>item 2</li>
</ol>
"##,
    )
}

#[test]
fn description_list() {
    djot_test(
        r##"
: term

  item

: term 2

  item 2
"##,
        r##"<dl>
<dt>term</dt>
<dd>
<p>item</p>
</dd>
<dt>term 2</dt>
<dd>
<p>item 2</p>
</dd>
</dl>
"##,
    )
}

#[test]
fn djot_task_list() {
    djot_test(
        r##"
- [ ] unchecked
- [x] checked
"##,
        r##"<ul class="task-list">
<li class="unchecked" data-checked="false">unchecked</li>
<li class="checked" data-checked="true">checked</li>
</ul>
"##,
    )
}

#[test]
fn characters() {
    djot_test(
        r##"
'does this work?'

"how about this...?"
"##,
        r##"<p>‘does this work?’</p>
<p>“how about this…?”</p>
"##,
    )
}

#[test]
fn markdown_paragraph() {
    markdown_test(
        r##"
This is
a simple paragraph

This is a new paragraph
                "##,
        r##"<p>This is
a simple paragraph</p>
<p>This is a new paragraph</p>
"##,
    );
}

#[test]
fn markdown_blockquote() {
    markdown_test(
        r##"
A paragraph

> And a
> blockquote
                "##,
        r##"<p>A paragraph</p>
<blockquote>
<p>And a
blockquote</p>
</blockquote>"##,
    );
}

#[test]
fn markdown_task_list() {
    markdown_test(
        r##"
- [ ] unchecked
- [x] checked
"##,
        r##"<ul>
<li>
<input type="checkbox" disabled="">
unchecked</li>
<li>
<input type="checkbox" disabled="" checked="">
checked</li>
</ul>
"##,
    )
}

fn highlighter() -> sprokkel::highlight::Highlighter {
    let mut highlighter = sprokkel::highlight::Highlighter::new();
    let mut rust = tree_sitter_highlight::HighlightConfiguration::new(
        tree_sitter_rust::language(),
        tree_sitter_rust::HIGHLIGHT_QUERY,
        tree_sitter_rust::INJECTIONS_QUERY,
        "",
    )
    .unwrap();
    rust.configure(&sprokkel::highlight::highlight_names());
    highlighter.register(sprokkel::highlight::Language::Rust, rust);
    highlighter
}

#[test]
fn code() {
    let input = r##"
```
plaintext <code />
```

```rust
enum A<T> {}
```
                "##;
    let output = r##"<pre>
<code>
plaintext &lt;code /&gt;
</code>
</pre>
<pre class="highlight">
<code data-lang="rust">
<span class="keyword">enum</span> <span class="type">A</span><span class="punctuation">&lt;</span><span class="type">T</span><span class="punctuation">&gt;</span> <span class="punctuation">{</span><span class="punctuation">}</span>
</code>
</pre>"##;
    let ir = markdown_parse(input);
    let (ir, warnings) = sprokkel::passes::code_pass(&ir, &highlighter()).unwrap();
    assert!(warnings.is_empty());
    let mut s = String::new();
    push_html(&mut s, &ir);
    assert_eq!(s, output);
}

#[test]
fn code_in_unknown_language_is_written_plain() {
    let ir = markdown_parse("```cobol\nADD 1 TO <X>.\n```\n");
    let (ir, warnings) = sprokkel::passes::code_pass(&ir, &highlighter()).unwrap();
    assert_eq!(
        warnings,
        vec![sprokkel::ir_markup::Warning::UnknownLanguage { language: "cobol".to_string() }]
    );
    let mut s = String::new();
    push_html(&mut s, &ir);
    assert_eq!(s, "<pre>\n<code>\nADD 1 TO &lt;X&gt;.\n</code>\n</pre>");
}

#[test]
fn code_pass_and_writer_agree_on_plain_code() {
    let ir = markdown_parse("```text\nlet x = \"1\";\n```\n");
    let mut direct = String::new();
    push_html(&mut direct, &ir);
    let (rewritten, _) = sprokkel::passes::code_pass(&ir, &highlighter()).unwrap();
    let mut passed = String::new();
    push_html(&mut passed, &rewritten);
    assert_eq!(direct, passed);
    assert_eq!(direct, "<pre>\n<code>\nlet x = &quot;1&quot;;\n</code>\n</pre>");
}

#[test]
fn djot_table() {
    djot_test(
        r##"
| head 1 | head 2 |
|--|--:|
| cell 1 | cell 2 |
"##,
        r##"<table>
<thead>
<tr>
<th>head 1</th>
<th style="text-align: right;">head 2</th>
</tr>
</thead>
<tbody>
<tr>
<td>cell 1</td>
<td style="text-align: right;">cell 2</td>
</tr>
</tbody>
</table>
"##,
    )
}

#[test]
fn djot_raw_html_is_kept_and_other_formats_are_dropped() {
    djot_test("`<b>x</b>`{=html} and `\\bf`{=latex}\n", "<p><b>x</b> and </p>\n");
    djot_test("`<i>y</i>`{=HtMl}\n", "<p><i>y</i></p>\n");
}

#[test]
fn djot_image_and_breaks() {
    djot_test(
        "![an _alt_ text](pic.png){.wide}\n",
        "<p>\n<img class=\"wide\" src=\"pic.png\" alt=\"an alt text\"></p>\n",
    );
    djot_test("a\\\nb\n", "<p>a<br />b</p>\n");
    djot_test("a\\ b\n", "<p>a&nbsp;b</p>\n");
    djot_test("a -- b --- c\n", "<p>a – b — c</p>\n");
}

#[test]
fn djot_div_class_joins_the_classes() {
    djot_test("{.a}\n::: note\ntext\n:::\n", "<div class=\"a note\">\n<p>text</p>\n</div>\n");
}

#[test]
fn markdown_sections_follow_heading_levels() {
    markdown_test(
        "# A {#a}\n\n## B {#b}\n\n### C {#c}\n\n## D {#d}\n\ntext\n\n# E\n",
        "<section id=\"a\">\n<h1><a href=\"#a\">A</a></h1>\n<section id=\"b\">\n<h2><a href=\"#b\">B</a></h2>\n<section id=\"c\">\n<h3><a href=\"#c\">C</a></h3>\n</section>\n</section>\n<section id=\"d\">\n<h2><a href=\"#d\">D</a></h2>\n<p>text</p>\n</section>\n</section>\n<section id=\"\">\n<h1><a href=\"#\">E</a></h1>\n</section>\n",
    );
}

#[test]
fn markdown_inline_markup() {
    markdown_test(
        "a `b<c` [e](http://f \"g\")\n\n---\n",
        "<p>a \n<code>b&lt;c</code> \n<a title=\"g\" href=\"http://f\">e</a></p>\n<hr />",
    );
}

#[test]
fn markdown_footnotes_are_numbered_by_first_use() {
    markdown_test(
        "x[^b] y[^a]\n\n[^a]: first\n\n[^b]: second\n",
        "<p>x<sup class=\"footnote-reference\"><a role=\"doc-noteref\" href=\"#fn-1\">1</a></sup> y<sup class=\"footnote-reference\"><a role=\"doc-noteref\" href=\"#fn-2\">2</a></sup></p>\n<hr><aside class=\"footnotes\" role=\"doc-endnotes\"><ol><li class=\"footnote-definition\" id=\"fn-1\" role=\"doc-footnote\">\n<p>second</p>\n</li>\n<li class=\"footnote-definition\" id=\"fn-2\" role=\"doc-footnote\">\n<p>first</p>\n</li>\n</ol>\n</aside>\n",
    );
}

#[test]
fn adapters_hand_out_events_as_soon_as_they_are_complete() {
    let input = "# T\n\n![a *b*](p.png) and `c`\n\n| h |\n|---|\n| d |\n";
    let events: Vec<DjotEvent> = jotdown::Parser::new(input).map(djot_event).collect();
    let mut adapter = sprokkel::djot::DjotAdapter::new();
    let mut out = Vec::new();
    let mut sizes = Vec::new();
    for event in &events {
        adapter.feed(event, &mut out);
        sizes.push(out.len());
    }
    adapter.finish(&mut out);
    assert_eq!(out, djot_to_ir(&events));
    assert!(sizes.windows(2).all(|pair| pair[0] <= pair[1]));
    assert_eq!(sizes[0], 1);

    let input = "# T\n\n![a *b*](p.png) and `c`\n\n```\ncode\n```\n";
    let opts = pulldown_cmark::Options::ENABLE_TABLES;
    let events: Vec<MarkdownEvent> = pulldown_cmark::Parser::new_ext(input, opts).map(markdown_event).collect();
    let mut adapter = sprokkel::markdown::MarkdownAdapter::new();
    let mut out = Vec::new();
    for event in &events {
        adapter.feed(event, &mut out);
    }
    let before_finish = out.len();
    adapter.finish(&mut out);
    assert_eq!(out.len(), before_finish + 1);
    assert_eq!(out, markdown_to_ir(&events));
}

#[test]
fn an_image_that_is_not_closed_takes_the_rest() {
    let events = vec![
        DjotEvent::Str("a".to_string()),
        DjotEvent::Start {
            container: sprokkel::djot::DjotContainer::Image { destination: "p.png".to_string() },
            attributes: Attributes::new(),
        },
        DjotEvent::Str("alt".to_string()),
        DjotEvent::Start { container: sprokkel::djot::DjotContainer::Emphasis, attributes: Attributes::new() },
        DjotEvent::Symbol("smile".to_string()),
        DjotEvent::End { container: sprokkel::djot::DjotContainer::Emphasis },
        DjotEvent::Ellipsis,
    ];
    let mut s = String::new();
    push_html(&mut s, &djot_to_ir(&events));
    assert_eq!(s, "a\n<img src=\"p.png\" alt=\"alt:smile:…\">");

    let stray = vec![
        DjotEvent::End { container: sprokkel::djot::DjotContainer::Image { destination: String::new() } },
        DjotEvent::End { container: sprokkel::djot::DjotContainer::Math { display: true } },
        DjotEvent::Str("x".to_string()),
    ];
    assert_eq!(djot_to_ir(&stray), vec![Event::Str("x".to_string())]);
}

#[test]
fn markdown_tags_without_parser() {
    let events = vec![
        MarkdownEvent::Start(MarkdownTag::Strikethrough),
        MarkdownEvent::Text("gone".to_string()),
        MarkdownEvent::End(MarkdownTagEnd::Strikethrough),
        MarkdownEvent::Start(MarkdownTag::MetadataBlock),
        MarkdownEvent::End(MarkdownTagEnd::MetadataBlock),
        MarkdownEvent::End(MarkdownTagEnd::Image),
        MarkdownEvent::End(MarkdownTagEnd::CodeBlock),
        MarkdownEvent::HardBreak,
        MarkdownEvent::Start(MarkdownTag::Heading { level: 2, id: None }),
    ];
    let mut s = String::new();
    push_html(&mut s, &markdown_to_ir(&events));
    assert_eq!(s, "<s>gone</s><br />\n<section id=\"\">\n<h2><a href=\"#\"></section>\n");
}

fn djot_start(container: DjotContainer) -> DjotEvent {
    DjotEvent::Start { container, attributes: Attributes::new() }
}

fn djot_end(container: DjotContainer) -> DjotEvent {
    DjotEvent::End { container }
}

fn djot_cell() -> DjotContainer {
    DjotContainer::TableCell { alignment: Alignment::Unspecified, head: false }
}

fn ir_cell() -> Container {
    Container::TableCell { alignment: Alignment::Unspecified, head: false }
}

#[test]
fn djot_table_in_a_cell_has_its_own_head_and_body() {
    let events = vec![
        djot_start(DjotContainer::Table),
        djot_start(DjotContainer::TableRow { head: false }),
        djot_start(djot_cell()),
        djot_start(DjotContainer::Table),
        djot_start(DjotContainer::TableRow { head: true }),
        djot_end(DjotContainer::TableRow { head: true }),
        djot_end(DjotContainer::Table),
        djot_end(djot_cell()),
        djot_end(DjotContainer::TableRow { head: false }),
        djot_start(DjotContainer::TableRow { head: false }),
        djot_end(DjotContainer::TableRow { head: false }),
        djot_end(DjotContainer::Table),
    ];
    let expected = vec![
        Event::start(Container::Table),
        Event::start(Container::TableBody),
        Event::start(Container::TableRow),
        Event::start(ir_cell()),
        Event::start(Container::Table),
        Event::start(Container::TableHead),
        Event::start(Container::TableRow),
        Event::end(ContainerEnd::TableRow),
        Event::end(ContainerEnd::TableHead),
        Event::start(Container::TableBody),
        Event::end(ContainerEnd::TableBody),
        Event::end(ContainerEnd::Table),
        Event::end(ContainerEnd::TableCell { head: false }),
        Event::end(ContainerEnd::TableRow),
        Event::start(Container::TableRow),
        Event::end(ContainerEnd::TableRow),
        Event::end(ContainerEnd::TableBody),
        Event::end(ContainerEnd::Table),
    ];
    assert_eq!(djot_to_ir(&events), expected);
}

#[test]
fn djot_empty_table_in_a_cell_leaves_the_outer_body_open() {
    let events = vec![
        djot_start(DjotContainer::Table),
        djot_start(DjotContainer::TableRow { head: false }),
        djot_start(djot_cell()),
        djot_start(DjotContainer::Table),
        djot_end(DjotContainer::Table),
        djot_end(djot_cell()),
        djot_end(DjotContainer::TableRow { head: false }),
        djot_end(DjotContainer::Table),
    ];
    let expected = vec![
        Event::start(Container::Table),
        Event::start(Container::TableBody),
        Event::start(Container::TableRow),
        Event::start(ir_cell()),
        Event::start(Container::Table),
        Event::start(Container::TableBody),
        Event::end(ContainerEnd::TableBody),
        Event::end(ContainerEnd::Table),
        Event::end(ContainerEnd::TableCell { head: false }),
        Event::end(ContainerEnd::TableRow),
        Event::end(ContainerEnd::TableBody),
        Event::end(ContainerEnd::Table),
    ];
    assert_eq!(djot_to_ir(&events), expected);
}

#[test]
fn djot_row_outside_of_a_table_stands_alone() {
    let events = vec![
        djot_start(DjotContainer::TableRow { head: true }),
        djot_end(DjotContainer::TableRow { head: true }),
        djot_start(DjotContainer::TableRow { head: false }),
        djot_end(DjotContainer::TableRow { head: false }),
    ];
    let expected = vec![
        Event::start(Container::TableRow),
        Event::end(ContainerEnd::TableRow),
        Event::start(Container::TableRow),
        Event::end(ContainerEnd::TableRow),
    ];
    assert_eq!(djot_to_ir(&events), expected);
}

#[test]
fn parsed_documents_are_written_with_well_nested_tags() {
    let documents = [
        "# Title\n\ntext with a note[^n] and `code`\n\n[^n]: the note\n\n    more of it\n",
        "- a\n- b\n\n  1. c\n  2. d\n\n> quote\n\n| h |\n|---|\n| c |\n",
        "term\n\n: details\n\n- [ ] open\n- [x] done\n\n::: note\n_em_ *strong* {=mark=}\n:::\n",
    ];
    for document in documents {
        let mut written = String::new();
        push_html(&mut written, &djot_parse(document));
        assert!(sprokkel::tags::has_well_nested_tags(&written), "{written}");
    }
}

fn closes(open: &Container, end: &ContainerEnd) -> bool {
    match (open, end) {
        (Container::List { kind, .. }, ContainerEnd::List { kind: closed }) => {
            matches!(kind, ListKind::Ordered { .. }) == matches!(closed, ListKind::Ordered { .. })
        }
        _ => open.end() == *end,
    }
}

fn is_balanced(events: &[Event]) -> bool {
    let mut open: Vec<&Container> = Vec::new();
    for event in events {
        match event {
            Event::Start { container, .. } => open.push(container),
            Event::End { container } => match open.pop() {
                Some(opened) if closes(opened, container) => {}
                _ => return false,
            },
            _ => {}
        }
    }
    open.is_empty()
}

#[test]
fn djot_documents_become_balanced_documents() {
    let documents = [
        "",
        "# Title\n\ntext with a note[^n] and `code`\n\n[^n]: the note\n",
        "| h | i |\n|---|--:|\n| c | d |\n\n| only | body |\n",
        "- a\n\n  > quote\n  > ## inner\n\n- b ![alt _text_](x.png)\n\n```rust\nfn main() {}\n```\n",
        "::: note\n$`x^2`\n\n{#id}\nterm\n\n: details\n:::\n",
    ];
    for document in documents {
        assert!(is_balanced(&djot_parse(document)), "{document}");
    }
    let nested = vec![
        djot_start(DjotContainer::Table),
        djot_start(DjotContainer::TableRow { head: true }),
        djot_start(djot_cell()),
        djot_start(DjotContainer::Table),
        djot_start(DjotContainer::TableRow { head: false }),
        djot_end(DjotContainer::TableRow { head: false }),
        djot_end(DjotContainer::Table),
        djot_end(djot_cell()),
        djot_end(DjotContainer::TableRow { head: true }),
        djot_end(DjotContainer::Table),
    ];
    assert!(is_balanced(&djot_to_ir(&nested)));
}

#[test]
fn markdown_documents_become_balanced_documents() {
    let documents = [
        "",
        "# A\n\n## B\n\ntext[^n]\n\n# C\n\n[^n]: note\n",
        "| h | i |\n|---|--:|\n| c | d |\n| e | f |\n",
        "- a\n  1. b\n  2. c\n\n> quote with `code` and ![alt](x.png \"t\")\n\n```rust\nfn main() {}\n```\n",
        "- [ ] open\n- [x] done\n\n*em* **strong** [link](http://a)\n",
    ];
    for document in documents {
        assert!(is_balanced(&markdown_parse(document)), "{document}");
    }
}

#[test]
fn markdown_heading_in_a_quote_opens_a_section_that_outlives_the_quote() {
    let events = markdown_parse("> # A\n\ntext\n");
    assert!(!is_balanced(&events));
    let starts = events.iter().filter(|e| matches!(e, Event::Start { .. })).count();
    let ends = events.iter().filter(|e| matches!(e, Event::End { .. })).count();
    assert_eq!(starts, ends);
}

fn ir_head_cell(alignment: Alignment, head: bool) -> Event {
    Event::start(Container::TableCell { alignment, head })
}

#[test]
fn markdown_table_without_head_has_a_body() {
    let events = vec![
        MarkdownEvent::Start(MarkdownTag::Table { alignments: vec![Alignment::Center] }),
        MarkdownEvent::Start(MarkdownTag::TableRow),
        MarkdownEvent::Start(MarkdownTag::TableCell),
        MarkdownEvent::Text("a".to_string()),
        MarkdownEvent::End(MarkdownTagEnd::TableCell),
        MarkdownEvent::Start(MarkdownTag::TableCell),
        MarkdownEvent::End(MarkdownTagEnd::TableCell),
        MarkdownEvent::End(MarkdownTagEnd::TableRow),
        MarkdownEvent::End(MarkdownTagEnd::Table),
    ];
    let expected = vec![
        Event::start(Container::Table),
        Event::start(Container::TableBody),
        Event::start(Container::TableRow),
        ir_head_cell(Alignment::Center, false),
        Event::Str("a".to_string()),
        Event::end(ContainerEnd::TableCell { head: false }),
        ir_head_cell(Alignment::Unspecified, false),
        Event::end(ContainerEnd::TableCell { head: false }),
        Event::end(ContainerEnd::TableRow),
        Event::end(ContainerEnd::TableBody),
        Event::end(ContainerEnd::Table),
    ];
    let ir = markdown_to_ir(&events);
    assert_eq!(ir, expected);
    assert!(is_balanced(&ir));
    let empty = vec![
        MarkdownEvent::Start(MarkdownTag::Table { alignments: vec![] }),
        MarkdownEvent::End(MarkdownTagEnd::Table),
    ];
    assert!(is_balanced(&markdown_to_ir(&empty)));
}

#[test]
fn markdown_table_in_a_cell_keeps_the_row_around_it() {
    let events = vec![
        MarkdownEvent::Start(MarkdownTag::Table { alignments: vec![Alignment::Left, Alignment::Right] }),
        MarkdownEvent::Start(MarkdownTag::TableHead),
        MarkdownEvent::Start(MarkdownTag::TableCell),
        MarkdownEvent::End(MarkdownTagEnd::TableCell),
        MarkdownEvent::Start(MarkdownTag::TableCell),
        MarkdownEvent::Start(MarkdownTag::Table { alignments: vec![] }),
        MarkdownEvent::Start(MarkdownTag::TableHead),
        MarkdownEvent::End(MarkdownTagEnd::TableHead),
        MarkdownEvent::Start(MarkdownTag::TableRow),
        MarkdownEvent::Start(MarkdownTag::TableCell),
        MarkdownEvent::End(MarkdownTagEnd::TableCell),
        MarkdownEvent::End(MarkdownTagEnd::TableRow),
        MarkdownEvent::End(MarkdownTagEnd::Table),
        MarkdownEvent::End(MarkdownTagEnd::TableCell),
        MarkdownEvent::End(MarkdownTagEnd::TableHead),
        MarkdownEvent::End(MarkdownTagEnd::Table),
    ];
    let expected = vec![
        Event::start(Container::Table),
        Event::start(Container::TableHead),
        Event::start(Container::TableRow),
        ir_head_cell(Alignment::Left, true),
        Event::end(ContainerEnd::TableCell { head: true }),
        ir_head_cell(Alignment::Right, true),
        Event::start(Container::Table),
        Event::start(Container::TableHead),
        Event::start(Container::TableRow),
        Event::end(ContainerEnd::TableRow),
        Event::end(ContainerEnd::TableHead),
        Event::start(Container::TableBody),
        Event::start(Container::TableRow),
        ir_head_cell(Alignment::Unspecified, false),
        Event::end(ContainerEnd::TableCell { head: false }),
        Event::end(ContainerEnd::TableRow),
        Event::end(ContainerEnd::TableBody),
        Event::end(ContainerEnd::Table),
        Event::end(ContainerEnd::TableCell { head: true }),
        Event::end(ContainerEnd::TableRow),
        Event::end(ContainerEnd::TableHead),
        Event::start(Container::TableBody),
        Event::end(ContainerEnd::TableBody),
        Event::end(ContainerEnd::Table),
    ];
    let ir = markdown_to_ir(&events);
    assert_eq!(ir, expected);
    assert!(is_balanced(&ir));
}
