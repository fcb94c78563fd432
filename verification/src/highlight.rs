//! Syntax highlighting of code blocks.

use crate::order::same_text;
use crate::text::{escape_attr, escape_attr_text};
use tree_sitter_highlight::{HighlightConfiguration, HighlightEvent};
use vstd::prelude::*;
use vstd::string::*;
use vstd::utf8::{
    decode_utf8, encode_utf8, encode_utf8_decode_utf8, encode_utf8_valid_utf8, is_char_boundary,
    is_char_boundary_iff_not_is_continuation_byte, is_char_boundary_start_end_of_seq,
    valid_utf8_split,
};

verus! {

#[verifier::external_type_specification]
#[verifier::external_body]
pub struct ExHighlightConfiguration(HighlightConfiguration);

/// Why code could not be highlighted.
#[derive(Clone, Copy, Debug, PartialEq, Eq, Structural)]
pub enum Error {
    /// No grammar is known for the language.
    InvalidLanguage,
    Other,
}

/// A language that code can be highlighted in.
#[derive(Clone, Copy, Debug, PartialEq, Eq, Structural)]
pub enum Language {
    Bash,
    C,
    Cpp,
    Djot,
    Nix,
    Python,
    Rust,
    Toml,
    Typescript,
}

/// The language that a name given to a code block stands for.
pub open spec fn language_named(name: Seq<char>) -> Option<Language> {
    if name == "bash"@ || name == "sh"@ || name == "shell"@ {
        Some(Language::Bash)
    } else if name == "c"@ {
        Some(Language::C)
    } else if name == "cpp"@ || name == "c++"@ {
        Some(Language::Cpp)
    } else if name == "djot"@ {
        Some(Language::Djot)
    } else if name == "nix"@ {
        Some(Language::Nix)
    } else if name == "python"@ {
        Some(Language::Python)
    } else if name == "rust"@ {
        Some(Language::Rust)
    } else if name == "toml"@ {
        Some(Language::Toml)
    } else if name == "typescript"@ || name == "ts"@ || name == "javascript"@ || name == "js"@ {
        Some(Language::Typescript)
    } else {
        None
    }
}

/// The language that a name given to a code block stands for.
pub fn language_of(name: &str) -> (r: Option<Language>)
    ensures
        r == language_named(name@),
{
    if same_text(name, "bash") || same_text(name, "sh") || same_text(name, "shell") {
        Some(Language::Bash)
    } else if same_text(name, "c") {
        Some(Language::C)
    } else if same_text(name, "cpp") || same_text(name, "c++") {
        Some(Language::Cpp)
    } else if same_text(name, "djot") {
        Some(Language::Djot)
    } else if same_text(name, "nix") {
        Some(Language::Nix)
    } else if same_text(name, "python") {
        Some(Language::Python)
    } else if same_text(name, "rust") {
        Some(Language::Rust)
    } else if same_text(name, "toml") {
        Some(Language::Toml)
    } else if same_text(name, "typescript") || same_text(name, "ts") || same_text(
        name,
        "javascript",
    ) || same_text(name, "js") {
        Some(Language::Typescript)
    } else {
        None
    }
}

/// The name of the highlight with the given number, as grammars write it: the parts of
/// a name are divided by dots.
pub open spec fn highlight_name(highlight: nat) -> Option<Seq<char>> {
    if highlight == 0 {
        Some("attribute"@)
    } else if highlight == 1 {
        Some("constant"@)
    } else if highlight == 2 {
        Some("comment"@)
    } else if highlight == 3 {
        Some("function.builtin"@)
    } else if highlight == 4 {
        Some("function"@)
    } else if highlight == 5 {
        Some("keyword"@)
    } else if highlight == 6 {
        Some("operator"@)
    } else if highlight == 7 {
        Some("property"@)
    } else if highlight == 8 {
        Some("punctuation"@)
    } else if highlight == 9 {
        Some("string"@)
    } else if highlight == 10 {
        Some("string.special"@)
    } else if highlight == 11 {
        Some("tag"@)
    } else if highlight == 12 {
        Some("type"@)
    } else if highlight == 13 {
        Some("variable"@)
    } else {
        None
    }
}

/// A name with a space in the place of every dot.
pub open spec fn spaced(name: Seq<char>) -> Seq<char> {
    name.map_values(|c: char| if c == '.' {
        ' '
    } else {
        c
    })
}

/// The highlight names that are told apart, in the order in which a grammar is to be
/// configured with them: the name at each position is the name of the highlight with
/// that number.
pub fn highlight_names() -> (names: [&'static str; 14])
    ensures
        forall|i: int|
            0 <= i < 14 ==> highlight_name(i as nat) == Some((#[trigger] names@[i])@),
{
    [
        "attribute",
        "constant",
        "comment",
        "function.builtin",
        "function",
        "keyword",
        "operator",
        "property",
        "punctuation",
        "string",
        "string.special",
        "tag",
        "type",
        "variable",
    ]
}

/// The classes that the highlight with the given number is written with: its name, with
/// a space where the name has a dot.
pub open spec fn highlight_class(highlight: nat) -> Option<Seq<char>> {
    if highlight == 0 {
        Some("attribute"@)
    } else if highlight == 1 {
        Some("constant"@)
    } else if highlight == 2 {
        Some("comment"@)
    } else if highlight == 3 {
        Some("function builtin"@)
    } else if highlight == 4 {
        Some("function"@)
    } else if highlight == 5 {
        Some("keyword"@)
    } else if highlight == 6 {
        Some("operator"@)
    } else if highlight == 7 {
        Some("property"@)
    } else if highlight == 8 {
        Some("punctuation"@)
    } else if highlight == 9 {
        Some("string"@)
    } else if highlight == 10 {
        Some("string special"@)
    } else if highlight == 11 {
        Some("tag"@)
    } else if highlight == 12 {
        Some("type"@)
    } else if highlight == 13 {
        Some("variable"@)
    } else {
        None
    }
}

/// The classes of a highlight are its name with a space in the place of every dot, and
/// the numbers that have a name are those that have classes.
pub proof fn lemma_class_is_spaced_name(highlight: nat)
    ensures
        highlight_class(highlight) == match highlight_name(highlight) {
            Some(name) => Some(spaced(name)),
            None => None,
        },
{
    reveal_strlit("attribute");
    reveal_strlit("constant");
    reveal_strlit("comment");
    reveal_strlit("function.builtin");
    reveal_strlit("function builtin");
    reveal_strlit("function");
    reveal_strlit("keyword");
    reveal_strlit("operator");
    reveal_strlit("property");
    reveal_strlit("punctuation");
    reveal_strlit("string");
    reveal_strlit("string.special");
    reveal_strlit("string special");
    reveal_strlit("tag");
    reveal_strlit("type");
    reveal_strlit("variable");
    match highlight_name(highlight) {
        Some(name) => {
            assert(spaced(name) =~= highlight_class(highlight)->0);
        },
        None => {},
    }
}

fn highlight_class_of(highlight: usize) -> (r: Option<&'static str>)
    ensures
        match r {
            Some(class) => highlight_class(highlight as nat) == Some(class@),
            None => highlight_class(highlight as nat) is None,
        },
{
    if highlight == 0 {
        Some("attribute")
    } else if highlight == 1 {
        Some("constant")
    } else if highlight == 2 {
        Some("comment")
    } else if highlight == 3 {
        Some("function builtin")
    } else if highlight == 4 {
        Some("function")
    } else if highlight == 5 {
        Some("keyword")
    } else if highlight == 6 {
        Some("operator")
    } else if highlight == 7 {
        Some("property")
    } else if highlight == 8 {
        Some("punctuation")
    } else if highlight == 9 {
        Some("string")
    } else if highlight == 10 {
        Some("string special")
    } else if highlight == 11 {
        Some("tag")
    } else if highlight == 12 {
        Some("type")
    } else if highlight == 13 {
        Some("variable")
    } else {
        None
    }
}

/// One step of a highlighter's walk through a piece of code.
#[derive(Clone, Copy, Debug, PartialEq, Eq, Structural)]
pub enum HighlightStep {
    /// The bytes of the code from `start` up to `end`.
    Source { start: usize, end: usize },
    /// What follows has the highlight with the given number.
    Start(usize),
    /// The innermost highlight ends.
    End,
}

/// Whether the bytes from `start` up to `end` are a piece of the text with the given
/// encoding.
pub open spec fn is_piece(bytes: Seq<u8>, start: int, end: int) -> bool {
    0 <= start <= end <= bytes.len() && is_char_boundary(bytes, start) && is_char_boundary(
        bytes,
        end,
    )
}

/// What one step adds to the highlighted code; nothing where the step does not fit the
/// code or names no highlight.
pub open spec fn step_text(code: Seq<char>, step: HighlightStep) -> Option<Seq<char>> {
    match step {
        HighlightStep::Source { start, end } => if is_piece(
            encode_utf8(code),
            start as int,
            end as int,
        ) {
            Some(escape_attr(decode_utf8(encode_utf8(code).subrange(start as int, end as int))))
        } else {
            None
        },
        HighlightStep::Start(highlight) => match highlight_class(highlight as nat) {
            Some(class) => Some("<span class=\""@ + class + "\">"@),
            None => None,
        },
        HighlightStep::End => Some("</span>"@),
    }
}

/// The HTML of highlighted code: the pieces of the code, escaped, between the tags that
/// mark the highlights. An error where a step does not fit.
pub open spec fn highlighted(code: Seq<char>, steps: Seq<HighlightStep>) -> Result<
    Seq<char>,
    Error,
>
    decreases steps.len(),
{
    if steps.len() == 0 {
        Ok(Seq::empty())
    } else {
        match (highlighted(code, steps.drop_last()), step_text(code, steps.last())) {
            (Ok(before), Some(text)) => Ok(before + text),
            _ => Err(Error::Other),
        }
    }
}

/// Whether `html` is `code` with highlights: what some steps over the code write out
/// as.
pub open spec fn is_highlight_of(code: Seq<char>, html: Seq<char>) -> bool {
    exists|steps: Seq<HighlightStep>| highlighted(code, steps) == Ok::<Seq<char>, Error>(html)
}

/// The piece of `code` from byte `start` up to byte `end`, if both stand between
/// characters.
fn piece_of(code: &str, start: usize, end: usize) -> (r: Option<&str>)
    ensures
        match r {
            Some(piece) => is_piece(encode_utf8(code@), start as int, end as int) && piece@
                == decode_utf8(encode_utf8(code@).subrange(start as int, end as int)),
            None => !is_piece(encode_utf8(code@), start as int, end as int),
        },
{
    let ghost bytes = encode_utf8(code@);
    if start > end || end > code.as_bytes().len() {
        return None;
    }
    if !code.is_char_boundary(start) || !code.is_char_boundary(end) {
        return None;
    }
    proof {
        encode_utf8_valid_utf8(code@);
        valid_utf8_split(bytes, end as int);
    }
    let (head, _) = code.split_at(end);
    let ghost head_bytes = bytes.subrange(0, end as int);
    proof {
        assert(head.spec_bytes() =~= head_bytes);
        if start == end {
            is_char_boundary_start_end_of_seq(head_bytes);
        } else {
            is_char_boundary_iff_not_is_continuation_byte(bytes, start as int);
            is_char_boundary_iff_not_is_continuation_byte(head_bytes, start as int);
        }
    }
    let (_, piece) = head.split_at(start);
    proof {
        assert(piece.spec_bytes() =~= bytes.subrange(start as int, end as int));
        encode_utf8_decode_utf8(piece@);
    }
    Some(piece)
}

/// Writes out highlighted code: the pieces of the code that the steps name, escaped, and
/// a `span` with the classes of the highlight around what is highlighted.
pub fn render_highlights(code: &str, steps: &Vec<HighlightStep>) -> (r: Result<String, Error>)
    ensures
        match r {
            Ok(html) => highlighted(code@, steps@) == Ok::<Seq<char>, Error>(html@),
            Err(e) => e == Error::Other && highlighted(code@, steps@) is Err,
        },
{
    let mut buf = String::new();
    let n = steps.len();
    let mut i: usize = 0;
    assert(steps@.take(0) =~= Seq::empty());
    while i < n
        invariant
            i <= n,
            n == steps@.len(),
            highlighted(code@, steps@.take(i as int)) == Ok::<Seq<char>, Error>(buf@),
        decreases n - i,
    {
        proof {
            let next = steps@.take(i + 1);
            assert(next.drop_last() =~= steps@.take(i as int));
            assert(next.last() == steps@[i as int]);
        }
        let ghost before = buf@;
        let fits = match steps[i] {
            HighlightStep::Source { start, end } => match piece_of(code, start, end) {
                Some(piece) => {
                    escape_attr_text(&mut buf, piece);
                    true
                },
                None => false,
            },
            HighlightStep::Start(highlight) => match highlight_class_of(highlight) {
                Some(class) => {
                    let mut tag = String::new();
                    tag.append("<span class=\"");
                    tag.append(class);
                    tag.append("\">");
                    assert(tag@ =~= "<span class=\""@ + class@ + "\">"@);
                    buf.append(tag.as_str());
                    true
                },
                None => false,
            },
            HighlightStep::End => {
                buf.append("</span>");
                true
            },
        };
        if !fits {
            proof {
                lemma_error_stays(code@, steps@, i + 1);
            }
            return Err(Error::Other);
        }
        i += 1;
    }
    assert(steps@.take(n as int) =~= steps@);
    Ok(buf)
}

/// Once a step does not fit, no later step mends it.
proof fn lemma_error_stays(code: Seq<char>, steps: Seq<HighlightStep>, i: int)
    requires
        0 <= i <= steps.len(),
        highlighted(code, steps.take(i)) is Err,
    ensures
        highlighted(code, steps) is Err,
    decreases steps.len() - i,
{
    if i < steps.len() {
        assert(steps.take(i + 1).drop_last() =~= steps.take(i));
        lemma_error_stays(code, steps, i + 1);
    } else {
        assert(steps.take(i) =~= steps);
    }
}

/// The first position from `i` on at which `language` stands; the length of the list
/// where it does not.
pub open spec fn first_position(languages: Seq<Language>, language: Language, i: int) -> int
    decreases languages.len() - i,
{
    if i < 0 || i >= languages.len() {
        languages.len() as int
    } else if languages[i] == language {
        i
    } else {
        first_position(languages, language, i + 1)
    }
}

/// The grammars that code can be highlighted with, each under the language it is for.
pub struct Highlighter {
    configurations: Vec<(Language, HighlightConfiguration)>,
}

impl Highlighter {
    /// The languages that a grammar has been registered for, in the order in which they
    /// were registered.
    pub closed spec fn languages(&self) -> Seq<Language> {
        self.configurations@.map_values(|entry: (Language, HighlightConfiguration)| entry.0)
    }

    /// The grammar that was registered at position `i`.
    pub closed spec fn grammar_at(&self, i: int) -> HighlightConfiguration {
        self.configurations@[i].1
    }

    /// A highlighter that knows no grammar yet.
    pub fn new() -> (r: Highlighter)
        ensures
            r.languages().len() == 0,
    {
        Highlighter { configurations: Vec::new() }
    }

    /// Makes a grammar known under a language. Of two grammars registered for one
    /// language the first counts.
    pub fn register(&mut self, language: Language, configuration: HighlightConfiguration)
        ensures
            final(self).languages() == old(self).languages().push(language),
            final(self).grammar_at(old(self).languages().len() as int) == configuration,
            forall|i: int|
                0 <= i < old(self).languages().len() ==> final(self).grammar_at(i) == old(
                    self,
                ).grammar_at(i),
    {
        self.configurations.push((language, configuration));
        assert(self.languages() =~= old(self).languages().push(language));
    }

    /// Whether a grammar is known for the language that `name` stands for.
    pub open spec fn knows(&self, name: Seq<char>) -> bool {
        match language_named(name) {
            Some(language) => self.languages().contains(language),
            None => false,
        }
    }

    /// The grammar that code in the language that `name` stands for is highlighted with:
    /// the first one that was registered for the language.
    pub open spec fn grammar_for(&self, name: Seq<char>) -> Option<HighlightConfiguration> {
        if self.knows(name) {
            Some(self.grammar_at(first_position(self.languages(), language_named(name)->0, 0)))
        } else {
            None
        }
    }

    /// The grammar for the language that `name` stands for.
    pub fn configuration_for(&self, name: &str) -> (r: Option<&HighlightConfiguration>)
        ensures
            r is Some == self.knows(name@),
            match r {
                Some(c) => self.grammar_for(name@) == Some(*c),
                None => self.grammar_for(name@) is None,
            },
    {
        let language = match language_of(name) {
            Some(language) => language,
            None => {
                return None;
            },
        };
        let mut i: usize = 0;
        while i < self.configurations.len()
            invariant
                i <= self.configurations@.len(),
                self.languages().len() == self.configurations@.len(),
                language_named(name@) == Some(language),
                forall|j: int| 0 <= j < i ==> self.languages()[j] != language,
                first_position(self.languages(), language, 0) == first_position(
                    self.languages(),
                    language,
                    i as int,
                ),
            decreases self.configurations@.len() - i,
        {
            if self.configurations[i].0 == language {
                assert(self.languages()[i as int] == language);
                assert(self.languages().contains(language));
                return Some(&self.configurations[i].1);
            }
            assert(self.languages()[i as int] != language);
            i += 1;
        }
        None
    }

    /// The steps of the highlighter's walk through `code`.
    ///
    /// Wraps `tree_sitter_highlight::Highlighter::highlight` on a fresh highlighter, with
    /// the grammars of `self` for the languages that the code embeds, and collects the
    /// events that it yields, each copied field by field. A failure is passed on:
    /// `InvalidLanguage` as such, any other as `Other`. Nothing is claimed of the steps.
    #[verifier::external_body]
    fn steps(&self, configuration: &HighlightConfiguration, code: &str) -> (r: Result<
        Vec<HighlightStep>,
        Error,
    >) {
        let fail = |e| match e {
            tree_sitter_highlight::Error::InvalidLanguage => Error::InvalidLanguage,
            _ => Error::Other,
        };
        let mut highlighter = tree_sitter_highlight::Highlighter::new();
        let known = |name: &str| self.configuration_for(name);
        let events = highlighter.highlight(configuration, code.as_bytes(), None, known);
        let steps = events.map_err(fail)?.map(|event| match event.map_err(fail)? {
            HighlightEvent::Source { start, end } => Ok(HighlightStep::Source { start, end }),
            HighlightEvent::HighlightStart(h) => Ok(HighlightStep::Start(h.0)),
            HighlightEvent::HighlightEnd => Ok(HighlightStep::End),
        }).collect();
        steps
    }

    /// Highlights `code` as code in the language that `language` names. Where no grammar
    /// is known for the language the result is `InvalidLanguage`; otherwise the
    /// highlighter is run with the grammar that `grammar_for` gives, and the result is
    /// what its steps write out as.
    pub fn highlight(&self, code: &str, language: &str) -> (r: Result<String, Error>)
        ensures
            !self.knows(language@) ==> r == Err::<String, Error>(Error::InvalidLanguage),
            r matches Ok(html) ==> is_highlight_of(code@, html@),
    {
        let configuration = match self.configuration_for(language) {
            Some(configuration) => configuration,
            None => {
                return Err(Error::InvalidLanguage);
            },
        };
        match self.steps(configuration, code) {
            Ok(steps) => render_highlights(code, &steps),
            Err(e) => Err(e),
        }
    }
}

} // verus!
