use vstd::prelude::*;

verus! {

/// How links are written.
#[derive(Clone, Debug, PartialEq, Eq, Default)]
pub struct Links {
    /// Whether a link to `dir/index.html` is written as a link to `dir`. Absent means yes.
    pub trim_index_html: Option<bool>,
}

/// The settings of a site.
#[derive(Clone, Debug, PartialEq, Eq)]
pub struct SiteConfig {
    pub base_url: String,
    pub base_url_develop: String,
    pub links: Links,
}

} // verus!
