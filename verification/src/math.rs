//! Typesetting of formulas.

use crate::front_matter::chars_of;
use crate::ir_markup::MathKind;
use vstd::prelude::*;
use vstd::string::*;

verus! {

/// What formulas are converted with.
#[derive(Clone, Copy, Debug, PartialEq, Eq, Structural)]
pub enum MathBackend {
    /// Formulas stay as they are written.
    Passthrough,
    /// Formulas are converted to MathML.
    Latex2Mathml,
}

/// The MathML that the converter makes of a formula written in LaTeX, as a block or in
/// line; nothing where it rejects the formula.
pub uninterp spec fn mathml_of(latex: Seq<char>, display: bool) -> Option<Seq<char>>;

/// The command that the converter does not take in every place.
pub open spec fn middle_command() -> Seq<char> {
    seq!['\\', 'm', 'i', 'd', 'd', 'l', 'e']
}

/// Whether the text `\middle` stands at position `i` of a formula.
pub open spec fn middle_at(latex: Seq<char>, i: int) -> bool {
    0 <= i && i + 7 <= latex.len() && latex.subrange(i, i + 7) == middle_command()
}

/// Whether the converter passes over a character between two tokens.
pub open spec fn is_blank(c: char) -> bool {
    c == ' ' || c == '\t' || c == '\n' || c == '\r'
}

/// Whether a character may follow the command `\middle`: a parenthesis, a bracket, a
/// bar or a full stop.
pub open spec fn is_fence(c: char) -> bool {
    c == '|' || c == '(' || c == ')' || c == '[' || c == ']' || c == '.'
}

/// The position of the first character from `i` on that the converter does not pass
/// over; the length of the formula where there is none.
pub open spec fn first_visible(latex: Seq<char>, i: int) -> int
    decreases latex.len() - i,
{
    if i < 0 || i >= latex.len() {
        latex.len() as int
    } else if is_blank(latex[i]) {
        first_visible(latex, i + 1)
    } else {
        i
    }
}

/// Whether the text `\middle` at position `i` is followed by what the converter takes:
/// directly by a fence, and behind the fence not by a prime.
pub open spec fn middle_is_fenced(latex: Seq<char>, i: int) -> bool {
    &&& i + 7 < latex.len()
    &&& is_fence(latex[i + 7])
    &&& first_visible(latex, i + 8) < latex.len() ==> latex[first_visible(latex, i + 8)] != '\''
}

/// Whether a formula can be handed to the converter: wherever it holds the text
/// `\middle`, a fence follows.
pub open spec fn is_convertible(latex: Seq<char>) -> bool {
    forall|i: int| middle_at(latex, i) ==> middle_is_fenced(latex, i)
}

/// Converts a formula written in LaTeX to MathML.
///
/// Wraps `latex2mathml::latex_to_mathml`, called with the style `Block` for a displayed
/// formula and `Inline` for one in line. The result is a function of the formula and
/// the style; a rejected formula gives `None`. The converter gives up without a result
/// where the command `\middle` is followed by anything but a single operator or
/// parenthesis. It reads that command only from the text `\middle`, the token behind it
/// from the character that follows, and a prime from the next character that it does
/// not pass over; formulas in which the text is not followed by a fence alone are not
/// handed to it.
#[verifier::external_body]
pub(crate) fn latex_to_mathml(latex: &str, kind: MathKind) -> (r: Option<String>)
    requires
        is_convertible(latex@),
    ensures
        match r {
            Some(mathml) => mathml_of(latex@, kind is Display) == Some(mathml@),
            None => mathml_of(latex@, kind is Display) is None,
        },
{
    let style = match kind {
        MathKind::Display => latex2mathml::DisplayStyle::Block,
        MathKind::Inline => latex2mathml::DisplayStyle::Inline,
    };
    latex2mathml::latex_to_mathml(latex, style).ok()
}

fn blank(c: char) -> (r: bool)
    ensures
        r == is_blank(c),
{
    c == ' ' || c == '\t' || c == '\n' || c == '\r'
}

fn fence(c: char) -> (r: bool)
    ensures
        r == is_fence(c),
{
    c == '|' || c == '(' || c == ')' || c == '[' || c == ']' || c == '.'
}

/// Whether the text `\middle` stands at position `i`.
fn middle_starts(chars: &Vec<char>, i: usize) -> (r: bool)
    requires
        i + 7 <= chars@.len(),
    ensures
        r == middle_at(chars@, i as int),
{
    let n = chars.len();
    let r = chars[i] == '\\' && chars[i + 1] == 'm' && chars[i + 2] == 'i' && chars[i + 3] == 'd'
        && chars[i + 4] == 'd' && chars[i + 5] == 'l' && chars[i + 6] == 'e';
    proof {
        let part = chars@.subrange(i as int, i + 7);
        if r {
            assert(part =~= middle_command());
        } else {
            assert(part[0] == chars@[i as int]);
            assert(part[1] == chars@[i + 1]);
            assert(part[2] == chars@[i + 2]);
            assert(part[3] == chars@[i + 3]);
            assert(part[4] == chars@[i + 4]);
            assert(part[5] == chars@[i + 5]);
            assert(part[6] == chars@[i + 6]);
        }
    }
    r
}

/// Whether the text `\middle` at position `i` is followed by a fence alone.
fn fenced(chars: &Vec<char>, i: usize) -> (r: bool)
    requires
        i + 7 <= chars@.len(),
    ensures
        r == middle_is_fenced(chars@, i as int),
{
    let n = chars.len();
    if n - i <= 7 || !fence(chars[i + 7]) {
        return false;
    }
    let mut k = i + 8;
    while k < n && blank(chars[k])
        invariant
            i + 8 <= k <= n,
            n == chars@.len(),
            first_visible(chars@, i + 8) == first_visible(chars@, k as int),
        decreases n - k,
    {
        k += 1;
    }
    !(k < n && chars[k] == '\'')
}

/// Whether a formula can be handed to the converter.
pub fn convertible(latex: &str) -> (r: bool)
    ensures
        r == is_convertible(latex@),
{
    let chars = chars_of(latex);
    let n = chars.len();
    if n < 7 {
        return true;
    }
    let mut i: usize = 0;
    while i <= n - 7
        invariant
            7 <= n,
            n == chars@.len(),
            chars@ == latex@,
            i <= n - 6,
            forall|j: int| 0 <= j < i && middle_at(latex@, j) ==> middle_is_fenced(latex@, j),
        decreases n - 6 - i,
    {
        if middle_starts(&chars, i) && !fenced(&chars, i) {
            return false;
        }
        i += 1;
    }
    true
}

/// The markup of a formula: what the backend makes of it. Without a backend there is
/// none, and a formula that cannot be handed to the converter counts as rejected.
pub open spec fn math_markup(backend: MathBackend, latex: Seq<char>, kind: MathKind) -> Option<
    Seq<char>,
> {
    match backend {
        MathBackend::Passthrough => None,
        MathBackend::Latex2Mathml => if is_convertible(latex) {
            mathml_of(latex, kind is Display)
        } else {
            None
        },
    }
}

/// Converts a formula with the backend given. `None` where there is no backend, where
/// the command `\middle` is not followed by a fence, or where the backend rejects the
/// formula.
pub fn render_latex(backend: MathBackend, latex: &str, kind: MathKind) -> (r: Option<String>)
    ensures
        match r {
            Some(markup) => math_markup(backend, latex@, kind) == Some(markup@),
            None => math_markup(backend, latex@, kind) is None,
        },
{
    match backend {
        MathBackend::Passthrough => None,
        MathBackend::Latex2Mathml => {
            if convertible(latex) {
                latex_to_mathml(latex, kind)
            } else {
                None
            }
        },
    }
}

} // verus!
