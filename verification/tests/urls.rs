use sprokkel::cli::BuildKind;
use sprokkel::config::{Links, SiteConfig};
use sprokkel::ctx::Ctx;
use sprokkel::render::Paginator;
use sprokkel::utils;

fn parts(path: &[&str]) -> Vec<String> {
    path.iter().map(|part| part.to_string()).collect()
}

#[test]
fn path_to_url() {
    assert_eq!(utils::path_to_url(None, &parts(&["index.html"])), "index.html");
    assert_eq!(
        utils::path_to_url(Some("https://example.com"), &parts(&["index.html"])),
        "https://example.com/index.html"
    );
    assert_eq!(
        utils::path_to_url(Some("https://example.com"), &parts(&["nested", "file.xml"])),
        "https://example.com/nested/file.xml"
    );
}

fn site_config() -> SiteConfig {
    SiteConfig {
        base_url: "http://localhost:8080".to_string(),
        base_url_develop: "..".to_string(),
        links: Links { trim_index_html: Some(true) },
    }
}

#[test]
fn path_to_absolute_url() {
    let ctx = Ctx::from_site_config(BuildKind::Production, &site_config());

    assert_eq!(ctx.path_to_absolute_url(&parts(&[])), "http://localhost:8080");
    assert_eq!(ctx.path_to_absolute_url(&parts(&["index.html"])), "http://localhost:8080");
    assert_eq!(
        ctx.path_to_absolute_url(&parts(&["a", "nested", "file.xml"])),
        "http://localhost:8080/a/nested/file.xml"
    );
    assert_eq!(
        ctx.path_to_absolute_url(&parts(&["a", "nested", "index.html"])),
        "http://localhost:8080/a/nested"
    );
    assert_eq!(ctx.path_to_absolute_url(&parts(&["no-extension"])), "http://localhost:8080/no-extension");
}

#[test]
fn develop_context_keeps_index_html_when_asked() {
    let mut config = site_config();
    config.links.trim_index_html = Some(false);
    let ctx = Ctx::from_site_config(BuildKind::Develop, &config);
    assert!(ctx.build_kind().is_develop());
    assert!(!ctx.build_kind().is_production());
    assert_eq!(ctx.base_url(), "..");
    assert_eq!(ctx.path_to_absolute_url(&parts(&["a", "index.html"])), "../a/index.html");

    config.links.trim_index_html = None;
    let ctx = Ctx::from_site_config(BuildKind::Production, &config);
    assert!(ctx.build_kind().is_production());
    assert_eq!(ctx.path_to_absolute_url(&parts(&["a", "index.html"])), "http://localhost:8080/a");
}

#[test]
fn relative_url_without_host() {
    assert_eq!(utils::path_to_url(None, &parts(&[])), "");
    assert_eq!(utils::path_to_url(None, &parts(&["a", "b", "c"])), "a/b/c");
    assert_eq!(utils::path_to_url(Some(""), &parts(&["a"])), "/a");
}

#[test]
fn paginator_counts_pages() {
    let ctx = Ctx::from_site_config(BuildKind::Production, &site_config());
    let mut paginator = Paginator::new(&ctx, 10, 25, |page| {
        if page == 0 {
            parts(&["blog", "index.html"])
        } else {
            vec!["blog".to_string(), format!("page-{}.html", page + 1)]
        }
    });
    assert!(paginator.paginate());
    assert!(paginator.paginate());
    assert!(!paginator.paginate());
}
