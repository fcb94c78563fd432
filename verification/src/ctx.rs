use crate::cli::BuildKind;
use crate::config::SiteConfig;
use crate::utils::{parts_view, path_to_url, url_text};
use vstd::prelude::*;
use vstd::string::*;

verus! {

/// Whether `s` ends with `suffix`.
pub open spec fn ends_with(s: Seq<char>, suffix: Seq<char>) -> bool {
    suffix.len() <= s.len() && s.subrange(s.len() - suffix.len(), s.len() as int) == suffix
}

/// What stands before `suffix` in `s`, if `s` ends with it.
///
/// Wraps `str::strip_suffix` of the standard library, called with a string as pattern.
#[verifier::external_body]
pub(crate) fn strip_suffix<'a>(s: &'a str, suffix: &str) -> (r: Option<&'a str>)
    ensures
        match r {
            Some(p) => p@ + suffix@ == s@,
            None => !ends_with(s@, suffix@),
        },
{
    s.strip_suffix(suffix)
}

/// What a build needs to know of the site.
#[derive(Clone, Debug)]
pub struct Ctx {
    build_kind: BuildKind,
    base_url: String,
    trim_index_html: bool,
}

/// The URL of a file of the output: the base URL, a slash and the path; a path that ends
/// in `/index.html` is cut before it where the site asks for that.
pub open spec fn absolute_url(base_url: Seq<char>, trim: bool, parts: Seq<Seq<char>>) -> Seq<
    char,
> {
    let url = url_text(Some(base_url), parts);
    if trim && ends_with(url, "/index.html"@) {
        url.take(url.len() - "/index.html"@.len())
    } else {
        url
    }
}

impl Ctx {
    pub closed spec fn kind(&self) -> BuildKind {
        self.build_kind
    }

    pub closed spec fn base(&self) -> Seq<char> {
        self.base_url@
    }

    pub closed spec fn trims_index_html(&self) -> bool {
        self.trim_index_html
    }

    /// The context of a build of the given kind: a production build uses the base URL of
    /// the site, a development build the one for development.
    pub fn from_site_config(build_kind: BuildKind, site_config: &SiteConfig) -> (ctx: Ctx)
        ensures
            ctx.kind() == build_kind,
            ctx.base() == if build_kind is Production {
                site_config.base_url@
            } else {
                site_config.base_url_develop@
            },
            ctx.trims_index_html() == match site_config.links.trim_index_html {
                Some(trim) => trim,
                None => true,
            },
    {
        let base_url = if build_kind.is_production() {
            site_config.base_url.clone()
        } else {
            site_config.base_url_develop.clone()
        };
        let trim_index_html = match site_config.links.trim_index_html {
            Some(trim) => trim,
            None => true,
        };
        Ctx { build_kind, base_url, trim_index_html }
    }

    pub fn build_kind(&self) -> (r: BuildKind)
        ensures
            r == self.kind(),
    {
        self.build_kind
    }

    pub fn base_url(&self) -> (r: &str)
        ensures
            r@ == self.base(),
    {
        self.base_url.as_str()
    }

    /// Turns a path relative to the output directory, given by its parts, into an
    /// absolute URL.
    pub fn path_to_absolute_url(&self, path: &Vec<String>) -> (url: String)
        ensures
            url@ == absolute_url(self.base(), self.trims_index_html(), parts_view(path@)),
    {
        let url = path_to_url(Some(self.base_url.as_str()), path);
        if self.trim_index_html {
            match strip_suffix(url.as_str(), "/index.html") {
                Some(head) => {
                    proof {
                        let tail = "/index.html"@;
                        assert((head@ + tail).subrange(head@.len() as int, url@.len() as int)
                            =~= tail);
                        assert(url@.take(url@.len() - tail.len()) =~= head@);
                    }
                    return head.to_owned();
                },
                None => {},
            }
        }
        url
    }
}

} // verus!
