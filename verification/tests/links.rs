use sprokkel::attributes::Attributes;
use sprokkel::ir_markup::{Container, ContainerEnd, Error, Event, Warning};
use sprokkel::links;
use sprokkel::links::{entries_table, insert_sorted, split_internal, EntryRef};
use sprokkel::span::{container_end_at, container_end_inside};
use sprokkel::table::Table;

fn start(container: Container) -> Event {
    Event::Start { container, attributes: Attributes::new() }
}

fn end(container: ContainerEnd) -> Event {
    Event::End { container }
}

fn text(s: &str) -> Event {
    Event::Str(s.to_string())
}

fn link(destination: &str) -> Event {
    start(Container::Link { destination: destination.to_string() })
}

fn image(destination: &str) -> Event {
    Event::Image { destination: destination.to_string(), alt: String::new(), attributes: Attributes::new() }
}

fn destination(event: &Event) -> &str {
    match event {
        Event::Start { container: Container::Link { destination }, .. } => destination,
        Event::Image { destination, .. } => destination,
        _ => panic!("no destination"),
    }
}

fn entries() -> Table<EntryRef> {
    let mut table = Table::new();
    table.insert("posts/example", EntryRef { index: 4, permalink: "2024/example.html".to_string() });
    table.insert("pages/about", EntryRef { index: 1, permalink: "about".to_string() });
    table.insert("", EntryRef { index: 9, permalink: "root".to_string() });
    table
}

#[test]
fn internal_link_is_resolved() {
    let mut events = vec![link("~/posts/example#section"), text("x"), end(ContainerEnd::Link)];
    let linked = links::rewrite_and_emit_internal_links(&mut events, &entries()).unwrap();
    assert_eq!(destination(&events[0]), "2024/example.html#section");
    assert_eq!(linked, vec![4]);
}

#[test]
fn unknown_internal_link_is_an_error() {
    let mut events = vec![link("~/pages/about"), link("~/posts/missing#a"), link("~/posts/also-missing")];
    let result = links::rewrite_and_emit_internal_links(&mut events, &entries());
    assert_eq!(result, Err(Error::UnknownInternalLink { destination: "~/posts/missing#a".to_string() }));
    assert_eq!(destination(&events[0]), "~/pages/about");
}

#[test]
fn linked_entries_come_sorted_and_once() {
    let mut events = vec![
        link("~/posts/example"),
        link("https://example.com/~/x"),
        link("~/pages/about#a#b"),
        image("~/pages/about"),
        image("~/#top"),
        link("~/posts/example#again"),
        link("~"),
        link(""),
        link("#only"),
    ];
    let linked = links::rewrite_and_emit_internal_links(&mut events, &entries()).unwrap();
    assert_eq!(linked, vec![1, 4]);
    let rewritten: Vec<&str> = events.iter().map(destination).collect();
    assert_eq!(
        rewritten,
        vec!["2024/example.html", "https://example.com/~/x", "about#a#b", "about", "root#top", "2024/example.html#again", "~", "", "#only"]
    );
}

#[test]
fn internal_destinations_are_split_at_the_first_hash() {
    assert_eq!(split_internal("~/a/b#c#d"), Some(("a/b".to_string(), "#c#d".to_string())));
    assert_eq!(split_internal("~/a"), Some(("a".to_string(), "".to_string())));
    assert_eq!(split_internal("~/"), Some(("".to_string(), "".to_string())));
    assert_eq!(split_internal("~/#"), Some(("".to_string(), "#".to_string())));
    assert_eq!(split_internal("~/é#ü"), Some(("é".to_string(), "#ü".to_string())));
    assert_eq!(split_internal("~"), None);
    assert_eq!(split_internal(""), None);
    assert_eq!(split_internal("/~/a"), None);
    assert_eq!(split_internal("~a/"), None);
}

#[test]
fn sorted_insertion_keeps_each_value_once() {
    let mut v = vec![];
    for x in [5, 1, 9, 5, 0, 9, 3] {
        insert_sorted(&mut v, x);
    }
    assert_eq!(v, vec![0, 1, 3, 5, 9]);
}

fn titled() -> Vec<Event> {
    vec![
        start(Container::Section { id: "t".to_string() }),
        start(Container::Heading { level: 1, id: "t".to_string() }),
        text("A <title> "),
        start(Container::Other { tag: "em".to_string() }),
        text("here"),
        end(ContainerEnd::Other { tag: "em".to_string() }),
        text(" \n"),
        end(ContainerEnd::Heading { level: 1 }),
        start(Container::Paragraph),
        text("body"),
        end(ContainerEnd::Paragraph),
        end(ContainerEnd::Section),
    ]
}

#[test]
fn title_is_rendered_and_removed() {
    let mut events = titled();
    let (title, warnings) = links::parse_and_render_title(&mut events);
    assert_eq!(title, Some("A &lt;title&gt; \n<em>here</em>".to_string()));
    assert_eq!(warnings, Vec::<Warning>::new());
    assert_eq!(events.len(), 5);
    let mut s = String::new();
    sprokkel::writer::push_html(&mut s, &events);
    assert_eq!(s, "<section id=\"t\">\n<p>body</p>\n</section>\n");
}

#[test]
fn documents_without_title_stay_as_they_are() {
    let mut no_section = titled();
    no_section.remove(0);
    let mut second_level = titled();
    second_level[1] = start(Container::Heading { level: 2, id: "t".to_string() });
    let mut paragraph_first = titled();
    paragraph_first.insert(1, text("x"));
    for mut events in [no_section, second_level, paragraph_first, vec![], vec![start(Container::Section { id: String::new() })]] {
        let before = events.len();
        assert_eq!(links::parse_and_render_title(&mut events).0, None);
        assert_eq!(events.len(), before);
    }
}

#[test]
fn unclosed_title_takes_the_rest() {
    let mut events = titled();
    events.truncate(5);
    assert_eq!(links::parse_and_render_title(&mut events).0, Some("A &lt;title&gt; \n<em>here".to_string()));
    assert_eq!(events.len(), 1);
}

#[test]
fn spans_end_at_the_matching_end() {
    let events = titled();
    assert_eq!(container_end_inside(&events, 1), 11);
    assert_eq!(container_end_inside(&events, 2), 7);
    assert_eq!(container_end_inside(&events, 4), 5);
    assert_eq!(container_end_inside(&events, 12), 12);
    assert_eq!(container_end_at(&events, 0), 11);
    assert_eq!(container_end_at(&events, 1), 7);
    assert_eq!(container_end_at(&events, 2), 2);
    assert_eq!(container_end_at(&events, 7), 7);
    assert_eq!(container_end_at(&events, 12), 12);
    assert_eq!(container_end_inside(&events[..5].to_vec(), 2), 5);
}

#[test]
fn title_loses_every_kind_of_white_space_at_its_end() {
    let mut events = vec![
        start(Container::Section { id: "t".to_string() }),
        start(Container::Heading { level: 1, id: "t".to_string() }),
        text("T \u{a0}\u{3000}\t\u{2009}\u{85}\n"),
        end(ContainerEnd::Heading { level: 1 }),
        end(ContainerEnd::Section),
    ];
    assert_eq!(links::parse_and_render_title(&mut events).0, Some("T".to_string()));
    let mut events = vec![
        start(Container::Section { id: "t".to_string() }),
        start(Container::Heading { level: 1, id: "t".to_string() }),
        text("T\u{200b}"),
        end(ContainerEnd::Heading { level: 1 }),
        end(ContainerEnd::Section),
    ];
    assert_eq!(links::parse_and_render_title(&mut events).0, Some("T\u{200b}".to_string()));
}

#[test]
fn title_comes_with_the_warnings_of_rendering_it() {
    let mut events = vec![
        start(Container::Section { id: "t".to_string() }),
        start(Container::Heading { level: 1, id: "t".to_string() }),
        text("T"),
        Event::FootnoteReference { reference: "gone".to_string() },
        end(ContainerEnd::Heading { level: 1 }),
        end(ContainerEnd::Section),
    ];
    let (title, warnings) = links::parse_and_render_title(&mut events);
    assert!(title.unwrap().starts_with("T"));
    assert_eq!(warnings, vec![Warning::MissingFootnote { label: "gone".to_string() }]);
    assert_eq!(events.len(), 2);
}

#[test]
fn document_without_title_warns_of_nothing() {
    let mut events = vec![start(Container::Paragraph), end(ContainerEnd::Paragraph)];
    assert_eq!(links::parse_and_render_title(&mut events), (None, vec![]));
}

fn strings(items: &[&str]) -> Vec<String> {
    items.iter().map(|s| s.to_string()).collect()
}

#[test]
fn entries_table_names_each_entry() {
    let names = strings(&["posts/a", "posts/b", "about"]);
    let permalinks = strings(&["/posts/a/", "/posts/b/", "/about/"]);
    let table = entries_table(&names, &permalinks).unwrap();
    assert_eq!(table.get("posts/a"), Some(&EntryRef { index: 0, permalink: "/posts/a/".to_string() }));
    assert_eq!(table.get("posts/b"), Some(&EntryRef { index: 1, permalink: "/posts/b/".to_string() }));
    assert_eq!(table.get("about"), Some(&EntryRef { index: 2, permalink: "/about/".to_string() }));
    assert_eq!(table.get("posts"), None);
    assert!(entries_table(&vec![], &vec![]).unwrap().get("about").is_none());
}

#[test]
fn entries_table_finds_the_first_repeated_name() {
    let names = strings(&["a", "b", "c", "b", "a", "c"]);
    let permalinks = strings(&["/1", "/2", "/3", "/4", "/5", "/6"]);
    assert_eq!(entries_table(&names, &permalinks).err(), Some(3));
    let names = strings(&["a", "a"]);
    let permalinks = strings(&["/1", "/2"]);
    assert_eq!(entries_table(&names, &permalinks).err(), Some(1));
}
