//! What the place of a file says of the entry that it holds.

use crate::ctx::{absolute_url, Ctx};
use crate::front_matter::{chars_of, string_of};
use crate::order::same_text;
use crate::text::{decimal, push_decimal};
use crate::types::{
    date_part, file_name_into_date_and_slug, first_underscore, parsed_date_time, slug_part, Date,
    EntryMeta, EntrySourceKind, Time,
};
use crate::utils::{parts_view, path_to_url, url_text};
use vstd::prelude::*;
use vstd::string::*;
use vstd::utf8::encode_utf8;

verus! {

/// Why a file is not an entry.
#[derive(Clone, Copy, Debug, PartialEq, Eq, Structural)]
pub enum EntryError {
    /// The name of the file does not end in `.dj` or `.md`.
    Extension,
    /// The file does not lie below the directory of the entries.
    Prefix,
    /// The file does not lie in a group.
    Components,
    /// The file has no name.
    FileName,
}

/// The position of the last dot of a name; -1 where it has none.
pub open spec fn last_dot(name: Seq<char>) -> int
    decreases name.len(),
{
    if name.len() == 0 {
        -1
    } else if name.last() == '.' {
        name.len() - 1
    } else {
        last_dot(name.drop_last())
    }
}

/// Whether a name is the name of a file: `..` is not.
pub open spec fn is_file_name(name: Seq<char>) -> bool {
    !(name.len() == 2 && name[0] == '.' && name[1] == '.')
}

/// Whether a file name has an extension: it has a dot that is not its first character.
pub open spec fn has_extension(name: Seq<char>) -> bool {
    is_file_name(name) && last_dot(name) > 0
}

/// A file name without its extension.
pub open spec fn file_stem(name: Seq<char>) -> Seq<char> {
    if has_extension(name) {
        name.take(last_dot(name))
    } else {
        name
    }
}

/// The extension of a file name: what follows its last dot.
pub open spec fn extension(name: Seq<char>) -> Option<Seq<char>> {
    if has_extension(name) {
        Some(name.skip(last_dot(name) + 1))
    } else {
        None
    }
}

/// The markup that a file with the given extension is written in.
pub open spec fn kind_of(extension: Option<Seq<char>>) -> Option<EntrySourceKind> {
    match extension {
        Some(e) => if e == "dj"@ {
            Some(EntrySourceKind::Djot)
        } else if e == "md"@ {
            Some(EntrySourceKind::CommonMark)
        } else {
            None
        },
        None => None,
    }
}

/// Whether `path` lies below `prefix`.
pub open spec fn starts_with_parts(path: Seq<Seq<char>>, prefix: Seq<Seq<char>>) -> bool {
    prefix.len() <= path.len() && path.take(prefix.len() as int) == prefix
}

/// Why the file at `path` is not an entry below `prefix`; nothing where it is one.
pub open spec fn entry_error(prefix: Seq<Seq<char>>, path: Seq<Seq<char>>) -> Option<EntryError> {
    if path.len() == 0 || kind_of(extension(path.last())) is None {
        Some(EntryError::Extension)
    } else if !starts_with_parts(path, prefix) {
        Some(EntryError::Prefix)
    } else if path.len() - prefix.len() < 2 {
        Some(EntryError::Components)
    } else if !is_file_name(path[prefix.len() as int + 1]) {
        Some(EntryError::FileName)
    } else {
        None
    }
}

/// The parts of the name by which other entries refer to the entry at `relative`: an
/// entry in a directory of its own is named by the directory, any other by its file
/// without extension.
pub open spec fn canonical_parts(relative: Seq<Seq<char>>) -> Seq<Seq<char>> {
    if relative.len() == 0 {
        relative
    } else if relative.last() == "index.dj"@ {
        relative.drop_last()
    } else {
        relative.drop_last().push(file_stem(relative.last()))
    }
}

/// The date and time that a file name starts with.
pub open spec fn name_date(name: Seq<char>) -> Option<(Date, Option<Time>)> {
    if first_underscore(name, 0) < name.len() {
        match parsed_date_time(encode_utf8(date_part(name))) {
            Ok(d) => Some(d),
            Err(e) => None,
        }
    } else {
        None
    }
}

/// The directory that the assets of an entry are written to: the year and the slug for
/// an entry with a date, the slug for any other.
pub open spec fn out_dir_parts(name: Seq<char>) -> Seq<Seq<char>> {
    match name_date(name) {
        Some(d) => seq![decimal(d.0.year as nat), slug_part(name)],
        None => seq![slug_part(name)],
    }
}

/// The file that an entry is written to: `index.html` in its directory. An entry
/// without date whose slug is `index` is written to `index.html` itself.
pub open spec fn out_file_parts(name: Seq<char>) -> Seq<Seq<char>> {
    if name_date(name) is None && slug_part(name) == "index"@ {
        seq!["index.html"@]
    } else {
        out_dir_parts(name).push("index.html"@)
    }
}

proof fn lemma_last_dot_bounds(name: Seq<char>)
    ensures
        -1 <= last_dot(name) < name.len(),
        last_dot(name) >= 0 ==> name[last_dot(name)] == '.',
        forall|j: int| last_dot(name) < j < name.len() ==> name[j] != '.',
    decreases name.len(),
{
    if name.len() > 0 && name.last() != '.' {
        lemma_last_dot_bounds(name.drop_last());
        assert forall|j: int| last_dot(name) < j < name.len() implies name[j] != '.' by {
            if j < name.len() - 1 {
                assert(name.drop_last()[j] == name[j]);
            }
        }
    }
}

/// Splits a file name into its stem and its extension.
pub fn split_extension(name: &str) -> (r: (String, Option<String>))
    ensures
        r.0@ == file_stem(name@),
        match r.1 {
            Some(e) => extension(name@) == Some(e@),
            None => extension(name@) is None,
        },
{
    let chars = chars_of(name);
    let n = chars.len();
    let mut i = n;
    proof {
        lemma_last_dot_bounds(name@);
    }
    while i > 0 && chars[i - 1] != '.'
        invariant
            i <= n,
            n == chars@.len(),
            chars@ == name@,
            forall|j: int| i <= j < n ==> chars@[j] != '.',
        decreases i,
    {
        i -= 1;
    }
    proof {
        if i > 0 {
            if last_dot(name@) < i - 1 {
                assert(name@[i - 1] == '.');
            }
            assert(last_dot(name@) == i - 1);
        } else {
            assert(last_dot(name@) == -1);
        }
    }
    let parent = n == 2 && chars[0] == '.' && chars[1] == '.';
    if i > 1 && !parent {
        let stem = string_of(&chars, 0, i - 1);
        let ext = string_of(&chars, i, n);
        assert(chars@.subrange(0, i - 1) =~= name@.take(i - 1));
        assert(chars@.subrange(i as int, n as int) =~= name@.skip(i as int));
        (stem, Some(ext))
    } else {
        (name.to_owned(), None)
    }
}

/// A copy of the parts from position `from` up to position `to`.
pub fn copy_parts(parts: &Vec<String>, from: usize, to: usize) -> (r: Vec<String>)
    requires
        from <= to <= parts@.len(),
    ensures
        parts_view(r@) == parts_view(parts@).subrange(from as int, to as int),
{
    let mut r: Vec<String> = Vec::new();
    let mut i = from;
    while i < to
        invariant
            from <= i <= to,
            to <= parts@.len(),
            r@.len() == i - from,
            forall|j: int| 0 <= j < r@.len() ==> (#[trigger] r@[j])@ == parts@[j + from]@,
        decreases to - i,
    {
        r.push(parts[i].clone());
        i += 1;
    }
    assert(parts_view(r@) =~= parts_view(parts@).subrange(from as int, to as int));
    r
}

fn below(path: &Vec<String>, prefix: &Vec<String>) -> (r: bool)
    ensures
        r == starts_with_parts(parts_view(path@), parts_view(prefix@)),
{
    if prefix.len() > path.len() {
        return false;
    }
    let ghost p = parts_view(path@);
    let ghost q = parts_view(prefix@);
    let mut i: usize = 0;
    while i < prefix.len()
        invariant
            i <= prefix@.len() <= path@.len(),
            p == parts_view(path@),
            q == parts_view(prefix@),
            forall|j: int| 0 <= j < i ==> p[j] == q[j],
        decreases prefix@.len() - i,
    {
        if !same_text(path[i].as_str(), prefix[i].as_str()) {
            assert(p.take(q.len() as int)[i as int] != q[i as int]);
            return false;
        }
        i += 1;
    }
    assert(p.take(q.len() as int) =~= q);
    true
}

fn part(s: &str) -> (r: String)
    ensures
        r@ == s@,
{
    s.to_owned()
}

impl EntryMeta {
    /// What the place of a file says of its entry. `path` is the path of the file and
    /// `path_prefix` the directory of all entries, both given by their parts: below it
    /// stands the group of the entry, and in the group the file or a directory that
    /// holds it.
    pub fn entry_from_path(ctx: &Ctx, path_prefix: &Vec<String>, path: &Vec<String>) -> (r: Result<
        EntryMeta,
        EntryError,
    >)
        ensures
            match r {
                Err(e) => entry_error(parts_view(path_prefix@), parts_view(path@)) == Some(e),
                Ok(meta) => {
                    let relative = parts_view(path@).skip(path_prefix@.len() as int);
                    let name = file_stem(relative[1]);
                    &&& entry_error(parts_view(path_prefix@), parts_view(path@)) is None
                    &&& Some(meta.source_kind) == kind_of(extension(parts_view(path@).last()))
                    &&& meta.group@ == relative[0]
                    &&& meta.sort_key@ == name
                    &&& meta.slug@ == slug_part(name)
                    &&& meta.date == match name_date(name) {
                        Some(d) => Some(d.0),
                        None => None,
                    }
                    &&& meta.time == match name_date(name) {
                        Some(d) => d.1,
                        None => None,
                    }
                    &&& parts_view(meta.file_path@) == parts_view(path@)
                    &&& parts_view(meta.asset_dir@) == parts_view(path@).drop_last()
                    &&& meta.canonical_name@ == url_text(None, canonical_parts(relative))
                    &&& parts_view(meta.out_file@) == out_file_parts(name)
                    &&& parts_view(meta.out_asset_dir@) == out_dir_parts(name)
                    &&& meta.permalink@ == absolute_url(
                        ctx.base(),
                        ctx.trims_index_html(),
                        out_file_parts(name),
                    )
                    &&& meta.asset_url@ == absolute_url(
                        ctx.base(),
                        ctx.trims_index_html(),
                        out_dir_parts(name),
                    )
                },
            },
    {
        let ghost p = parts_view(path@);
        let ghost q = parts_view(path_prefix@);
        let n = path.len();
        if n == 0 {
            return Err(EntryError::Extension);
        }
        assert(p.last() == path@[n - 1]@);
        let (last_stem, last_extension) = split_extension(path[n - 1].as_str());
        let source_kind = match &last_extension {
            Some(e) => {
                if same_text(e.as_str(), "dj") {
                    EntrySourceKind::Djot
                } else if same_text(e.as_str(), "md") {
                    EntrySourceKind::CommonMark
                } else {
                    return Err(EntryError::Extension);
                }
            },
            None => {
                return Err(EntryError::Extension);
            },
        };
        if !below(path, path_prefix) {
            return Err(EntryError::Prefix);
        }
        let skip = path_prefix.len();
        if n - skip < 2 {
            return Err(EntryError::Components);
        }
        let ghost relative = p.skip(skip as int);
        assert(relative[0] == path@[skip as int]@);
        assert(relative[1] == path@[skip + 1]@);
        assert(p[skip + 1] == path@[skip + 1]@);
        let group = path[skip].clone();
        let second = path[skip + 1].as_str();
        if same_text(second, "..") {
            proof {
                reveal_strlit("..");
            }
            return Err(EntryError::FileName);
        }
        proof {
            reveal_strlit("..");
            if !is_file_name(second@) {
                assert(second@ =~= ".."@);
            }
        }
        let (file_name, _) = split_extension(second);
        let asset_dir = copy_parts(path, 0, n - 1);
        assert(p.subrange(0, n - 1) =~= p.drop_last());
        let mut canonical = copy_parts(path, skip, n - 1);
        assert(p.subrange(skip as int, n - 1) =~= relative.drop_last());
        assert(relative.last() == p.last());
        if !same_text(path[n - 1].as_str(), "index.dj") {
            let ghost before = parts_view(canonical@);
            canonical.push(last_stem);
            assert(parts_view(canonical@) =~= before.push(file_stem(p.last())));
        }
        assert(parts_view(canonical@) == canonical_parts(relative));
        let canonical_name = path_to_url(None, &canonical);
        let (dt, slug) = file_name_into_date_and_slug(file_name.as_str());
        let ghost name = file_name@;
        let mut out_asset_dir: Vec<String> = Vec::new();
        let (date, time) = match dt {
            Some((date, time)) => {
                let mut year = String::new();
                push_decimal(&mut year, date.year as u64);
                assert(year@ =~= decimal(date.year as nat));
                out_asset_dir.push(year);
                (Some(date), time)
            },
            None => (None, None),
        };
        out_asset_dir.push(slug.clone());
        assert(parts_view(out_asset_dir@) =~= out_dir_parts(name));
        let out_file = if dt.is_none() && same_text(slug.as_str(), "index") {
            let mut out_file: Vec<String> = Vec::new();
            out_file.push(part("index.html"));
            assert(parts_view(out_file@) =~= out_file_parts(name));
            out_file
        } else {
            let mut out_file = copy_parts(&out_asset_dir, 0, out_asset_dir.len());
            assert(parts_view(out_file@) =~= parts_view(out_asset_dir@));
            let ghost before = parts_view(out_file@);
            out_file.push(part("index.html"));
            assert(parts_view(out_file@) =~= before.push("index.html"@));
            out_file
        };
        let permalink = ctx.path_to_absolute_url(&out_file);
        let asset_url = ctx.path_to_absolute_url(&out_asset_dir);
        let file_path = copy_parts(path, 0, n);
        assert(p.subrange(0, n as int) =~= p);
        Ok(
            EntryMeta {
                sort_key: file_name,
                date,
                time,
                group,
                slug,
                source_kind,
                file_path,
                asset_dir,
                canonical_name,
                out_file,
                out_asset_dir,
                asset_url,
                permalink,
            },
        )
    }
}

} // verus!
