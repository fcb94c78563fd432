use vstd::prelude::*;
use vstd::string::*;

verus! {

/// Appends one character to a string.
///
/// Wraps `String::push` of the standard library: the buffer afterwards holds its earlier
/// characters followed by `c`.
#[verifier::external_body]
pub(crate) fn push_char(buf: &mut String, c: char)
    ensures
        final(buf)@ == old(buf)@.push(c),
{
    buf.push(c)
}

/// How one character of body text is written into HTML.
pub open spec fn escape_body_char(c: char) -> Seq<char> {
    if c == '<' {
        "&lt;"@
    } else if c == '>' {
        "&gt;"@
    } else if c == '&' {
        "&amp;"@
    } else if c == '"' {
        "&quot;"@
    } else if c == '\'' {
        "&#x27;"@
    } else {
        seq![c]
    }
}

/// Body text with every character that HTML reserves replaced by its entity.
pub open spec fn escape_body(s: Seq<char>) -> Seq<char>
    decreases s.len(),
{
    if s.len() == 0 {
        Seq::empty()
    } else {
        escape_body(s.drop_last()) + escape_body_char(s.last())
    }
}

/// Whether a character can open or close a tag or end a quoted attribute value.
pub open spec fn is_markup_char(c: char) -> bool {
    c == '<' || c == '>' || c == '"' || c == '\''
}

/// Escaped body text holds no character that could be taken for markup: whatever the
/// text, what is written for it opens no tag, closes none and ends no attribute value.
pub proof fn lemma_escaped_body_is_inert(s: Seq<char>)
    ensures
        forall|i: int| 0 <= i < escape_body(s).len() ==> !is_markup_char(#[trigger] escape_body(s)[i]),
    decreases s.len(),
{
    reveal_strlit("&lt;");
    reveal_strlit("&gt;");
    reveal_strlit("&amp;");
    reveal_strlit("&quot;");
    reveal_strlit("&#x27;");
    if s.len() > 0 {
        lemma_escaped_body_is_inert(s.drop_last());
        let head = escape_body(s.drop_last());
        let tail = escape_body_char(s.last());
        assert forall|j: int| 0 <= j < tail.len() implies !is_markup_char(#[trigger] tail[j]) by {}
        assert forall|i: int| 0 <= i < escape_body(s).len() implies !is_markup_char(
            #[trigger] escape_body(s)[i],
        ) by {
            if i < head.len() {
                assert(escape_body(s)[i] == head[i]);
            } else {
                assert(escape_body(s)[i] == tail[i - head.len()]);
            }
        }
    }
}

/// Text without characters that HTML reserves is written as it is.
pub proof fn lemma_plain_text_is_kept(s: Seq<char>)
    requires
        forall|i: int| 0 <= i < s.len() ==> !is_markup_char(#[trigger] s[i]) && s[i] != '&',
    ensures
        escape_body(s) == s,
    decreases s.len(),
{
    if s.len() > 0 {
        assert forall|i: int| 0 <= i < s.drop_last().len() implies !is_markup_char(
            #[trigger] s.drop_last()[i],
        ) && s.drop_last()[i] != '&' by {
            assert(s.drop_last()[i] == s[i]);
        }
        lemma_plain_text_is_kept(s.drop_last());
        assert(!is_markup_char(s[s.len() - 1]));
        assert(escape_body(s) =~= s);
    }
}

/// Appends `s` to `buf` as HTML body text.
pub fn escape_body_text(buf: &mut String, s: &str)
    ensures
        final(buf)@ == old(buf)@ + escape_body(s@),
{
    let ghost before = buf@;
    for c in it: s.chars()
        invariant
            it.seq() == s@,
            buf@ == before + escape_body(s@.take(it.index() as int)),
    {
        proof {
            let k = it.index() as int;
            assert(s@.take(k + 1).drop_last() =~= s@.take(k));
            assert(s@.take(k + 1).last() == c);
        }
        if c == '<' {
            buf.append("&lt;");
        } else if c == '>' {
            buf.append("&gt;");
        } else if c == '&' {
            buf.append("&amp;");
        } else if c == '"' {
            buf.append("&quot;");
        } else if c == '\'' {
            buf.append("&#x27;");
        } else {
            push_char(buf, c);
        }
    }
    proof {
        assert(s@.take(s@.len() as int) =~= s@);
    }
}

/// How one character of an attribute value is written between double quotes.
pub open spec fn escape_attr_char(c: char) -> Seq<char> {
    if c == '&' {
        "&amp;"@
    } else if c == '<' {
        "&lt;"@
    } else if c == '>' {
        "&gt;"@
    } else if c == '"' {
        "&quot;"@
    } else if c == '\'' {
        "&#39;"@
    } else {
        seq![c]
    }
}

/// An attribute value with every character that HTML reserves replaced by its entity.
pub open spec fn escape_attr(s: Seq<char>) -> Seq<char>
    decreases s.len(),
{
    if s.len() == 0 {
        Seq::empty()
    } else {
        escape_attr(s.drop_last()) + escape_attr_char(s.last())
    }
}

/// Appends `s` to `buf`, escaped for use inside a quoted attribute.
///
/// Wraps `pulldown_cmark_escape::escape_html`, which copies `s` and replaces each of
/// `&`, `<`, `>`, `"` and `'` by `&amp;`, `&lt;`, `&gt;`, `&quot;` and `&#39;`. Writing
/// into a `String` cannot fail, so its result carries nothing.
#[verifier::external_body]
pub(crate) fn escape_attr_text(buf: &mut String, s: &str)
    ensures
        final(buf)@ == old(buf)@ + escape_attr(s@),
{
    let _ = pulldown_cmark_escape::escape_html(buf, s);
}

/// Whether `s` ends with the character `c`.
///
/// Wraps `str::ends_with` of the standard library, called with a single character.
#[verifier::external_body]
pub(crate) fn ends_with_char(s: &str, c: char) -> (r: bool)
    ensures
        r == (s@.len() > 0 && s@.last() == c),
{
    s.ends_with(c)
}

/// Whether Unicode counts `c` as white space: the 25 characters with the property
/// `White_Space`.
pub open spec fn is_white_space(c: char) -> bool {
    let n = c as u32;
    ||| 0x09 <= n <= 0x0d
    ||| n == 0x20
    ||| n == 0x85
    ||| n == 0xa0
    ||| n == 0x1680
    ||| 0x2000 <= n <= 0x200a
    ||| n == 0x2028
    ||| n == 0x2029
    ||| n == 0x202f
    ||| n == 0x205f
    ||| n == 0x3000
}

/// `s` without the white space at its end.
pub open spec fn without_trailing_space(s: Seq<char>) -> Seq<char>
    decreases s.len(),
{
    if s.len() > 0 && is_white_space(s.last()) {
        without_trailing_space(s.drop_last())
    } else {
        s
    }
}

/// The part of `s` before its trailing white space.
///
/// Wraps `str::trim_end` of the standard library, which removes the longest suffix made of
/// characters with the Unicode property `White_Space`.
#[verifier::external_body]
pub(crate) fn trim_end(s: &str) -> (r: &str)
    ensures
        r@ == without_trailing_space(s@),
{
    s.trim_end()
}

/// The character for one decimal digit.
pub open spec fn digit_char(d: nat) -> char {
    if d == 0 {
        '0'
    } else if d == 1 {
        '1'
    } else if d == 2 {
        '2'
    } else if d == 3 {
        '3'
    } else if d == 4 {
        '4'
    } else if d == 5 {
        '5'
    } else if d == 6 {
        '6'
    } else if d == 7 {
        '7'
    } else if d == 8 {
        '8'
    } else {
        '9'
    }
}

/// A number written in decimal, without leading zeros.
pub open spec fn decimal(n: nat) -> Seq<char>
    decreases n,
{
    if n < 10 {
        seq![digit_char(n)]
    } else {
        decimal(n / 10).push(digit_char(n % 10))
    }
}

fn digit_of(d: u64) -> (c: char)
    requires
        d < 10,
    ensures
        c == digit_char(d as nat),
{
    if d == 0 {
        '0'
    } else if d == 1 {
        '1'
    } else if d == 2 {
        '2'
    } else if d == 3 {
        '3'
    } else if d == 4 {
        '4'
    } else if d == 5 {
        '5'
    } else if d == 6 {
        '6'
    } else if d == 7 {
        '7'
    } else if d == 8 {
        '8'
    } else {
        '9'
    }
}

/// Appends `n` in decimal to `buf`.
pub fn push_decimal(buf: &mut String, n: u64)
    ensures
        final(buf)@ == old(buf)@ + decimal(n as nat),
    decreases n,
{
    if n >= 10 {
        push_decimal(buf, n / 10);
    }
    push_char(buf, digit_of(n % 10));
    proof {
        if n >= 10 {
            assert(old(buf)@ + decimal(n as nat) =~= (old(buf)@ + decimal((n / 10) as nat)).push(
                digit_char((n % 10) as nat),
            ));
        } else {
            assert(old(buf)@ + decimal(n as nat) =~= old(buf)@.push(digit_char(n as nat)));
        }
    }
}

/// Whether `s` is empty or ends with a line feed.
pub fn at_line_start(s: &str) -> (r: bool)
    ensures
        r == (s@.len() == 0 || s@.last() == '\n'),
{
    s.is_empty() || ends_with_char(s, '\n')
}

} // verus!
