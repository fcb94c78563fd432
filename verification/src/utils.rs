use vstd::prelude::*;
use vstd::string::*;

verus! {

/// The text before the first part of a URL: the scheme and host, if given.
pub open spec fn url_prefix(scheme_and_host: Option<Seq<char>>) -> Seq<char> {
    match scheme_and_host {
        Some(s) => s,
        None => Seq::empty(),
    }
}

/// The URL of a path: its parts joined by slashes, behind the scheme and host and a slash
/// where a scheme and host is given.
pub open spec fn url_text(scheme_and_host: Option<Seq<char>>, parts: Seq<Seq<char>>) -> Seq<char>
    decreases parts.len(),
{
    if parts.len() == 0 {
        url_prefix(scheme_and_host)
    } else {
        let before = url_text(scheme_and_host, parts.drop_last());
        if parts.len() > 1 || scheme_and_host is Some {
            before + "/"@ + parts.last()
        } else {
            before + parts.last()
        }
    }
}

/// The parts of a path as mathematical values.
pub open spec fn parts_view(path: Seq<String>) -> Seq<Seq<char>> {
    path.map_values(|part: String| part@)
}

/// Turns a path, given by its parts, into a URL. With a scheme and host the URL is
/// absolute.
pub fn path_to_url(scheme_and_host: Option<&str>, path: &Vec<String>) -> (url: String)
    ensures
        url@ == url_text(
            match scheme_and_host {
                Some(s) => Some(s@),
                None => None,
            },
            parts_view(path@),
        ),
{
    let ghost prefix: Option<Seq<char>> = match scheme_and_host {
        Some(s) => Some(s@),
        None => None,
    };
    let ghost parts = parts_view(path@);
    let mut builder = String::new();
    if let Some(s) = scheme_and_host {
        builder.append(s);
    }
    assert(builder@ =~= url_prefix(prefix));
    assert(parts.take(0) =~= Seq::empty());
    let n = path.len();
    let mut idx: usize = 0;
    while idx < n
        invariant
            idx <= n,
            n == path@.len(),
            parts == parts_view(path@),
            prefix is Some == scheme_and_host is Some,
            builder@ == url_text(prefix, parts.take(idx as int)),
        decreases n - idx,
    {
        proof {
            let next = parts.take(idx + 1);
            assert(next.drop_last() =~= parts.take(idx as int));
            assert(next.last() == path@[idx as int]@);
        }
        if idx > 0 || scheme_and_host.is_some() {
            builder.append("/");
        }
        builder.append(path[idx].as_str());
        idx += 1;
    }
    assert(parts.take(n as int) =~= parts);
    builder
}

} // verus!
