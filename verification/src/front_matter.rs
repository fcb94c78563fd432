//! Finding the front matter of an entry: a block of metadata between two lines of `+++`
//! (TOML) or `---` (YAML) at the start of the file.

use crate::text::push_char;
use vstd::prelude::*;
use vstd::string::*;

verus! {

/// The notation that front matter is written in.
#[derive(Clone, Copy, Debug, PartialEq, Eq, Structural)]
pub enum FrontMatterFormat {
    Toml,
    Yaml,
}

/// The character that the delimiter of a format is made of.
pub open spec fn mark_of(format: FrontMatterFormat) -> char {
    match format {
        FrontMatterFormat::Toml => '+',
        FrontMatterFormat::Yaml => '-',
    }
}

/// Whether `content` starts with three times `mark`.
pub open spec fn opens_with(content: Seq<char>, mark: char) -> bool {
    content.len() >= 3 && content[0] == mark && content[1] == mark && content[2] == mark
}

/// The format that the start of a file announces.
pub open spec fn announced(content: Seq<char>) -> Option<FrontMatterFormat> {
    if opens_with(content, '+') {
        Some(FrontMatterFormat::Toml)
    } else if opens_with(content, '-') {
        Some(FrontMatterFormat::Yaml)
    } else {
        None
    }
}

/// Whether a line break followed by three times `mark` stands at position `p`.
pub open spec fn closes_at(content: Seq<char>, mark: char, p: int) -> bool {
    0 <= p && p + 3 < content.len() && content[p] == '\n' && content[p + 1] == mark && content[p
        + 2] == mark && content[p + 3] == mark
}

/// The position of the first closing delimiter from `i` on; the length of the content
/// where there is none.
pub open spec fn closing(content: Seq<char>, mark: char, i: int) -> int
    decreases content.len() - i,
{
    if i < 0 || i >= content.len() {
        content.len() as int
    } else if closes_at(content, mark, i) {
        i
    } else {
        closing(content, mark, i + 1)
    }
}

/// A file taken apart.
pub struct FrontMatterSplit {
    /// The format of the front matter, if the file has front matter.
    pub format: Option<FrontMatterFormat>,
    /// The front matter without its delimiters, up to and with the line break before
    /// the closing delimiter. Empty for a file without front matter.
    pub matter: String,
    /// What follows the closing delimiter; the whole file where it has no front matter.
    pub rest: String,
}

/// Whether a file has front matter: it announces a format and the block is closed.
pub open spec fn has_front_matter(content: Seq<char>) -> bool {
    announced(content) matches Some(format) && closing(content, mark_of(format), 3) < content.len()
}

pub open spec fn matter_of(content: Seq<char>) -> Seq<char> {
    if has_front_matter(content) {
        content.subrange(3, closing(content, mark_of(announced(content)->0), 3) + 1)
    } else {
        Seq::empty()
    }
}

pub open spec fn rest_of(content: Seq<char>) -> Seq<char> {
    if has_front_matter(content) {
        content.skip(closing(content, mark_of(announced(content)->0), 3) + 4)
    } else {
        content
    }
}

/// The characters of a string.
pub fn chars_of(s: &str) -> (v: Vec<char>)
    ensures
        v@ == s@,
{
    let mut v: Vec<char> = Vec::new();
    for c in it: s.chars()
        invariant
            v@ == it.seq().take(it.index() as int),
    {
        v.push(c);
        assert(v@ =~= it.seq().take(it.index() + 1));
    }
    assert(v@ =~= s@);
    v
}

/// The characters from position `from` up to position `to` as a string.
pub fn string_of(chars: &Vec<char>, from: usize, to: usize) -> (s: String)
    requires
        from <= to <= chars@.len(),
    ensures
        s@ == chars@.subrange(from as int, to as int),
{
    let mut s = String::new();
    let mut i = from;
    assert(s@ =~= chars@.subrange(from as int, from as int));
    while i < to
        invariant
            from <= i <= to,
            to <= chars@.len(),
            s@ == chars@.subrange(from as int, i as int),
        decreases to - i,
    {
        push_char(&mut s, chars[i]);
        assert(s@ =~= chars@.subrange(from as int, i + 1));
        i += 1;
    }
    s
}

fn find_closing(chars: &Vec<char>, mark: char) -> (p: usize)
    ensures
        p == closing(chars@, mark, 3),
        p <= chars@.len(),
        p < chars@.len() ==> p + 4 <= chars@.len() && p >= 3,
{
    let n = chars.len();
    if n < 3 {
        return n;
    }
    let mut i: usize = 3;
    while i < n
        invariant
            3 <= i <= n,
            n == chars@.len(),
            closing(chars@, mark, 3) == closing(chars@, mark, i as int),
        decreases n - i,
    {
        if n - i > 3 && chars[i] == '\n' && chars[i + 1] == mark && chars[i + 2] == mark && chars[i
            + 3] == mark {
            return i;
        }
        i += 1;
    }
    n
}

/// Takes a file apart into its front matter and the rest.
pub fn split_front_matter(content: &str) -> (r: FrontMatterSplit)
    ensures
        r.format == if has_front_matter(content@) {
            announced(content@)
        } else {
            None
        },
        r.matter@ == matter_of(content@),
        r.rest@ == rest_of(content@),
{
    let chars = chars_of(content);
    let n = chars.len();
    let format = if n >= 3 && chars[0] == '+' && chars[1] == '+' && chars[2] == '+' {
        Some(FrontMatterFormat::Toml)
    } else if n >= 3 && chars[0] == '-' && chars[1] == '-' && chars[2] == '-' {
        Some(FrontMatterFormat::Yaml)
    } else {
        None
    };
    match format {
        Some(format) => {
            let mark = match format {
                FrontMatterFormat::Toml => '+',
                FrontMatterFormat::Yaml => '-',
            };
            let p = find_closing(&chars, mark);
            if p < n {
                let matter = string_of(&chars, 3, p + 1);
                let rest = string_of(&chars, p + 4, n);
                assert(chars@.subrange(p + 4, n as int) =~= chars@.skip(p + 4));
                return FrontMatterSplit { format: Some(format), matter, rest };
            }
        },
        None => {},
    }
    FrontMatterSplit { format: None, matter: String::new(), rest: content.to_owned() }
}

/// Whether the text of a `release` setting says that an entry is released.
pub fn says_released(value: &str) -> (r: bool)
    ensures
        r == (value@ == "true"@ || value@ == "yes"@),
{
    crate::order::same_text(value, "true") || crate::order::same_text(value, "yes")
}

} // verus!
