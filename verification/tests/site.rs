use sprokkel::attributes::Attributes;
use sprokkel::cli::BuildKind;
use sprokkel::config::{Links, SiteConfig};
use sprokkel::ctx::Ctx;
use sprokkel::front_matter::{says_released, split_front_matter, FrontMatterFormat};
use sprokkel::groups::{retain_released, Group};
use sprokkel::highlight::Highlighter;
use sprokkel::ir_markup::{Container, ContainerEnd, Event, Warning};
use sprokkel::math::MathBackend;
use sprokkel::render::{find_marker, leading_zeros, render, render_events, Paginator};
use sprokkel::table::Table;

#[test]
fn filter_groups() {
    let mut group = Group::new("".to_owned(), 0..0);
    group.remove_idx(0);
    assert_eq!(group.range, 0..0);
    group.remove_idx(1);
    assert_eq!(group.range, 0..0);

    let mut group = Group::new("".to_owned(), 0..2);
    group.remove_idx(1);
    assert_eq!(group.range, 0..1);
    group.remove_idx(1);
    assert_eq!(group.range, 0..1);
    group.remove_idx(0);
    assert_eq!(group.range, 0..0);

    let mut group = Group::new("".to_owned(), 1..2);
    group.remove_idx(2);
    assert_eq!(group.range, 1..2);
    group.remove_idx(0);
    assert_eq!(group.range, 0..1);
}

#[test]
fn unreleased_entries_leave_their_groups() {
    let mut groups = vec![Group::new("a".to_owned(), 0..3), Group::new("b".to_owned(), 3..4), Group::new("c".to_owned(), 4..6)];
    let kept = retain_released(&mut groups, &vec![true, false, true, false, false, true]);
    assert_eq!(kept, vec![0, 2, 5]);
    assert_eq!(groups[0].range, 0..2);
    assert_eq!(groups[1].range, 2..2);
    assert_eq!(groups[2].range, 2..3);
    assert_eq!(groups[2].name, "c");
}

fn paragraph(s: &str) -> Vec<Event> {
    vec![
        Event::Start { container: Container::Paragraph, attributes: Attributes::new() },
        Event::Str(s.to_string()),
        Event::End { container: ContainerEnd::Paragraph },
    ]
}

fn document(paragraphs: &[&str]) -> Vec<Event> {
    paragraphs.iter().flat_map(|p| paragraph(p)).collect()
}

#[test]
fn document_is_split_at_the_marker() {
    let rendered = render_events(&document(&["first", "-more-", "second"]));
    assert_eq!(rendered.summary, "<p>first</p>\n");
    assert_eq!(rendered.rest, "<p>second</p>\n");
    assert!(rendered.warnings.is_empty());
}

#[test]
fn document_without_marker_is_all_summary() {
    let rendered = render_events(&document(&["first", "second"]));
    assert_eq!(rendered.summary, "<p>first</p>\n<p>second</p>\n");
    assert_eq!(rendered.rest, "");
    let rendered = render_events(&document(&["a -more- b", "-more- ", "-More-"]));
    assert_eq!(rendered.rest, "");
}

#[test]
fn only_the_first_marker_splits() {
    let events = document(&["-more-", "a", "-more-", "b"]);
    assert_eq!(find_marker(&events), 0);
    let rendered = render_events(&events);
    assert_eq!(rendered.summary, "");
    assert_eq!(rendered.rest, "<p>a</p>\n<p>-more-</p>\n<p>b</p>\n");
    assert_eq!(find_marker(&document(&["a", "b"])), 6);
}

#[test]
fn footnotes_of_the_summary_are_written_behind_the_rest() {
    let mut events = vec![Event::FootnoteReference { reference: "n".to_string() }];
    events.extend(document(&["-more-", "rest"]));
    let rendered = render_events(&events);
    assert_eq!(rendered.summary, "<sup class=\"footnote-reference\"><a role=\"doc-noteref\" href=\"#fn-1\">1</a></sup>");
    assert_eq!(
        rendered.rest,
        "<p>rest</p>\n<hr><aside class=\"footnotes\" role=\"doc-endnotes\"><ol>\n<li class=\"footnote-definition\" id=\"fn-1\" role=\"doc-footnote\"></ol>\n</aside>\n"
    );
    assert_eq!(rendered.warnings, vec![Warning::MissingFootnote { label: "n".to_string() }]);
}

#[test]
fn render_runs_the_passes() {
    let mut events = document(&["text"]);
    events.push(Event::Image { destination: "gone.png".to_string(), alt: String::new(), attributes: Attributes::new() });
    events.push(Event::CodeBlock { language: "zig".to_string(), code: "x".to_string(), attributes: Attributes::new() });
    let rendered = render(&events, &Table::new(), &Highlighter::new(), MathBackend::Latex2Mathml).unwrap();
    assert_eq!(rendered.summary, "<p>text</p>\n<pre>\n<code>\nx\n</code>\n</pre>");
    assert_eq!(rendered.rest, "");
    assert_eq!(
        rendered.warnings,
        vec![
            Warning::MissingImage { destination: "gone.png".to_string() },
            Warning::UnknownLanguage { language: "zig".to_string() }
        ]
    );
}

#[test]
fn front_matter_is_found() {
    let split = split_front_matter("+++\ntitle = \"x\"\n+++\nbody\n+++\n");
    assert_eq!(split.format, Some(FrontMatterFormat::Toml));
    assert_eq!(split.matter, "\ntitle = \"x\"\n");
    assert_eq!(split.rest, "\nbody\n+++\n");

    let split = split_front_matter("---\na: b\n---");
    assert_eq!(split.format, Some(FrontMatterFormat::Yaml));
    assert_eq!(split.matter, "\na: b\n");
    assert_eq!(split.rest, "");

    let split = split_front_matter("+++\n+++rest");
    assert_eq!((split.format, split.matter.as_str(), split.rest.as_str()), (Some(FrontMatterFormat::Toml), "\n", "rest"));
}

#[test]
fn files_without_closed_front_matter_are_all_content() {
    for content in ["", "body", "+++\nopen", "+++\n---\n", "---+++", "++", " +++\n+++", "++++++"] {
        let split = split_front_matter(content);
        assert_eq!(split.format, None);
        assert_eq!(split.matter, "");
        assert_eq!(split.rest, content);
    }
}

#[test]
fn release_settings() {
    assert!(says_released("true"));
    assert!(says_released("yes"));
    assert!(!says_released("Yes"));
    assert!(!says_released(""));
}

#[test]
fn numbers_are_padded_with_zeros() {
    assert_eq!(leading_zeros(7, 3), "007");
    assert_eq!(leading_zeros(123, 3), "123");
    assert_eq!(leading_zeros(1234, 3), "1234");
    assert_eq!(leading_zeros(0, 0), "0");
    assert_eq!(leading_zeros(0, 2), "00");
    assert_eq!(leading_zeros(18446744073709551615, 21), "018446744073709551615");
}

fn ctx() -> Ctx {
    let config = SiteConfig {
        base_url: "https://example.com".to_string(),
        base_url_develop: "..".to_string(),
        links: Links::default(),
    };
    Ctx::from_site_config(BuildKind::Production, &config)
}

fn page_path(page: u32) -> Vec<String> {
    if page == 0 {
        vec!["blog".to_string(), "index.html".to_string()]
    } else {
        vec!["blog".to_string(), format!("index-{}.html", page + 1)]
    }
}

#[test]
fn pages_show_their_part_of_the_items() {
    let mut paginator = Paginator::new(&ctx(), 10, 25, page_path);
    let first = paginator.window();
    assert_eq!((first.page_start, first.page_end, first.page_count, first.current_page), (0, 10, 3, 0));
    assert!(first.is_first_page && !first.is_last_page);
    assert_eq!(first.previous, None);
    assert_eq!(first.next, Some("https://example.com/blog/index-2.html".to_string()));

    assert!(paginator.paginate());
    let second = paginator.window();
    assert_eq!((second.page_start, second.page_end, second.item_count), (10, 20, 25));
    assert_eq!(second.previous, Some("https://example.com/blog".to_string()));
    assert_eq!(second.next, Some("https://example.com/blog/index-3.html".to_string()));

    assert!(paginator.paginate());
    let third = paginator.window();
    assert_eq!((third.page_start, third.page_end), (20, 25));
    assert!(!third.is_first_page && third.is_last_page);
    assert_eq!(third.next, None);
    assert!(!paginator.paginate());
}

#[test]
fn a_full_last_page_is_followed_by_an_empty_one() {
    let mut paginator = Paginator::new(&ctx(), 5, 10, page_path);
    assert!(paginator.paginate());
    assert!(paginator.paginate());
    let last = paginator.window();
    assert_eq!((last.page_start, last.page_end, last.page_count), (10, 10, 3));
    let empty = Paginator::new(&ctx(), 5, 0, page_path).window();
    assert_eq!((empty.page_start, empty.page_end, empty.page_count), (0, 0, 1));
    assert!(empty.is_first_page && empty.is_last_page);
}

#[test]
fn marker_in_a_section_splits_the_section() {
    let mut events = vec![Event::Start {
        container: Container::Section { id: "s".to_string() },
        attributes: Attributes::new(),
    }];
    events.extend(document(&["first", "-more-"]));
    events.push(Event::End { container: ContainerEnd::Section });
    let rendered = render_events(&events);
    assert_eq!(rendered.summary, "<section id=\"s\">\n<p>first</p>\n");
    assert_eq!(rendered.rest, "</section>\n");
}

#[test]
fn empty_text_alone_gives_an_empty_summary() {
    let rendered = render_events(&vec![Event::Str(String::new())]);
    assert_eq!(rendered.summary, "");
    assert_eq!(rendered.rest, "");
}
