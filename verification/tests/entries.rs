use sprokkel::cli::BuildKind;
use sprokkel::config::{Links, SiteConfig};
use sprokkel::ctx::Ctx;
use sprokkel::entry::{split_extension, EntryError};
use sprokkel::images::{
    keeps_copy, keeps_reencoded, make_image_path_for_width, target_format, tries_reencoding, wants_copy,
    ImageFormat,
};
use sprokkel::links::back_references;
use sprokkel::types::{Date, EntryMeta, EntrySourceKind, Time};

fn parts(path: &str) -> Vec<String> {
    path.split('/').filter(|part| !part.is_empty()).map(|part| part.to_string()).collect()
}

fn ctx() -> Ctx {
    let config = SiteConfig {
        base_url: "https://example.com".to_string(),
        base_url_develop: "..".to_string(),
        links: Links { trim_index_html: None },
    };
    Ctx::from_site_config(BuildKind::Production, &config)
}

fn entry(path: &str) -> Result<EntryMeta, EntryError> {
    EntryMeta::entry_from_path(&ctx(), &parts("site/entries"), &parts(path))
}

#[test]
fn dated_entry_in_a_file() {
    let meta = entry("site/entries/posts/2024-10-02_foo-bar.dj").unwrap();
    assert_eq!(meta.source_kind, EntrySourceKind::Djot);
    assert_eq!(meta.group, "posts");
    assert_eq!(meta.sort_key, "2024-10-02_foo-bar");
    assert_eq!(meta.slug, "foo-bar");
    assert_eq!(meta.date, Some(Date::new(2024, 10, 2)));
    assert_eq!(meta.time, None);
    assert_eq!(meta.file_path, parts("site/entries/posts/2024-10-02_foo-bar.dj"));
    assert_eq!(meta.asset_dir, parts("site/entries/posts"));
    assert_eq!(meta.canonical_name, "posts/2024-10-02_foo-bar");
    assert_eq!(meta.out_file, parts("2024/foo-bar/index.html"));
    assert_eq!(meta.out_asset_dir, parts("2024/foo-bar"));
    assert_eq!(meta.permalink, "https://example.com/2024/foo-bar");
    assert_eq!(meta.asset_url, "https://example.com/2024/foo-bar");
}

#[test]
fn dated_entry_in_a_directory_of_its_own() {
    let meta = entry("site/entries/posts/2024-10-02T093000_foo/index.dj").unwrap();
    assert_eq!(meta.sort_key, "2024-10-02T093000_foo");
    assert_eq!(meta.time, Some(Time::new(9, 30, 0)));
    assert_eq!(meta.asset_dir, parts("site/entries/posts/2024-10-02T093000_foo"));
    assert_eq!(meta.canonical_name, "posts/2024-10-02T093000_foo");
    assert_eq!(meta.out_file, parts("2024/foo/index.html"));
}

#[test]
fn entries_without_date() {
    let meta = entry("site/entries/pages/baz.md").unwrap();
    assert_eq!(meta.source_kind, EntrySourceKind::CommonMark);
    assert_eq!((meta.date, meta.time), (None, None));
    assert_eq!(meta.slug, "baz");
    assert_eq!(meta.canonical_name, "pages/baz");
    assert_eq!(meta.out_file, parts("baz/index.html"));
    assert_eq!(meta.out_asset_dir, parts("baz"));
    assert_eq!(meta.permalink, "https://example.com/baz");

    let index = entry("site/entries/pages/index.dj").unwrap();
    assert_eq!(index.out_file, parts("index.html"));
    assert_eq!(index.out_asset_dir, parts("index"));
    assert_eq!(index.permalink, "https://example.com");
    assert_eq!(index.asset_url, "https://example.com/index");
    assert_eq!(index.canonical_name, "pages");

    let odd = entry("site/entries/pages/not-a-date_x.y.dj").unwrap();
    assert_eq!(odd.sort_key, "not-a-date_x.y");
    assert_eq!(odd.slug, "x.y");
    assert_eq!(odd.canonical_name, "pages/not-a-date_x.y");
}

#[test]
fn files_that_are_no_entries() {
    assert_eq!(entry("site/entries/posts/a.txt"), Err(EntryError::Extension));
    assert_eq!(entry("site/entries/posts/a"), Err(EntryError::Extension));
    assert_eq!(entry("site/entries/posts/.dj"), Err(EntryError::Extension));
    assert_eq!(entry(""), Err(EntryError::Extension));
    assert_eq!(entry("elsewhere/entries/posts/a.dj"), Err(EntryError::Prefix));
    assert_eq!(entry("site/a.dj"), Err(EntryError::Prefix));
    assert_eq!(entry("site/entries/a.dj"), Err(EntryError::Components));
    assert_eq!(entry("site/entries/posts/../a.dj"), Err(EntryError::FileName));
}

#[test]
fn names_are_split_at_the_last_dot() {
    let split = |name: &str| {
        let (stem, extension) = split_extension(name);
        (stem, extension)
    };
    assert_eq!(split("a.tar.gz"), ("a.tar".to_string(), Some("gz".to_string())));
    assert_eq!(split("a"), ("a".to_string(), None));
    assert_eq!(split(".hidden"), (".hidden".to_string(), None));
    assert_eq!(split(".hidden.x"), (".hidden".to_string(), Some("x".to_string())));
    assert_eq!(split("a."), ("a".to_string(), Some("".to_string())));
    assert_eq!(split(".."), ("..".to_string(), None));
    assert_eq!(split("..."), ("..".to_string(), Some("".to_string())));
    assert_eq!(split(""), ("".to_string(), None));
}

#[test]
fn copies_are_named_by_their_width() {
    assert_eq!(make_image_path_for_width("pic.png", 1536), Some("pic-1536.png".to_string()));
    assert_eq!(make_image_path_for_width("a.b.jpeg", 768), Some("a.b-768.jpeg".to_string()));
    assert_eq!(make_image_path_for_width("pic", 768), None);
    assert_eq!(make_image_path_for_width(".png", 768), None);
}

#[test]
fn rules_for_copies() {
    assert_eq!(target_format(ImageFormat::Jpeg), ImageFormat::Jpeg);
    assert_eq!(target_format(ImageFormat::Png), ImageFormat::Png);
    assert_eq!(target_format(ImageFormat::WebP), ImageFormat::WebP);
    assert_eq!(target_format(ImageFormat::Other), ImageFormat::Png);
    assert!(!tries_reencoding(ImageFormat::Jpeg));
    assert!(tries_reencoding(ImageFormat::Png) && tries_reencoding(ImageFormat::WebP) && tries_reencoding(ImageFormat::Other));
    assert!(keeps_reencoded(ImageFormat::Other, 10, 5));
    assert!(keeps_reencoded(ImageFormat::Png, 4, 5));
    assert!(!keeps_reencoded(ImageFormat::Png, 5, 5));
    assert!(wants_copy(1537, 1536) && !wants_copy(1536, 1536));
    assert!(keeps_copy(1, 2) && !keeps_copy(2, 2));
}

#[test]
fn links_are_turned_around() {
    let links = vec![vec![1, 2], vec![], vec![1, 0, 7], vec![2]];
    assert_eq!(back_references(4, &links), vec![vec![2], vec![0, 2], vec![0, 3], vec![]]);
    assert_eq!(back_references(0, &links), Vec::<Vec<usize>>::new());
    assert_eq!(back_references(2, &vec![]), vec![Vec::<usize>::new(), Vec::new()]);
}
