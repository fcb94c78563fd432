//! The tags of a text, and that the tags which the writer writes are well nested.

use crate::attributes::AttributeSeq;
use crate::front_matter::chars_of;
use crate::ir_markup::{ContainerEndView, ContainerView, EventView, ListKind};
use crate::laws::{balanced, closes, holds_footnote, open_containers, tight_flags, well_nested};
use crate::markup::{
    alignment_text, attr_text, attrs_text, end_text, footnote_attrs_text, footnote_id, heading_tag,
    list_start_text, numbering_text, open_text, start_text, task_text,
};
use crate::text::{decimal, escape_attr, escape_attr_char, escape_body};
use crate::writer::{
    apply, apply_all, code_line_end, current, defined, end_tag, footnote_number,
    footnote_position, footnotes_text, in_tight_list, initial, on_new_line,
    reference_text, registered, rendered, start_tag, writer_ok, written, FootnoteView, WriterView,
};
use vstd::prelude::*;
use vstd::string::*;

verus! {

/// Where a reader of tags stands in a text.
pub struct Scan {
    /// The names of the elements that are open, outermost first.
    pub open: Seq<Seq<char>>,
    /// Whether every closing tag so far closed the element opened last.
    pub ok: bool,
    /// What has been read of the tag at hand, without its `<`; nothing between tags.
    pub tag: Option<Seq<char>>,
}

/// Whether an element of this name has no content and no closing tag: `img`, `hr` and
/// `br` are such.
pub open spec fn is_void(name: Seq<char>) -> bool {
    ||| name.len() == 3 && name[0] == 'i' && name[1] == 'm' && name[2] == 'g'
    ||| name.len() == 2 && name[0] == 'h' && name[1] == 'r'
    ||| name.len() == 2 && name[0] == 'b' && name[1] == 'r'
}

/// Whether a character ends the name of an element inside a tag.
pub open spec fn ends_name(c: char) -> bool {
    c == ' ' || c == '\n' || c == '\t' || c == '/'
}

/// The length of the name that a tag starts with: the name ends before the first
/// character that ends a name.
pub open spec fn name_len(tag: Seq<char>) -> int
    decreases tag.len(),
{
    if tag.len() == 0 {
        0
    } else {
        let before = name_len(tag.drop_last());
        if before < tag.len() - 1 || ends_name(tag.last()) {
            before
        } else {
            before + 1
        }
    }
}

/// The reader between tags, with the given elements open.
pub open spec fn between(open: Seq<Seq<char>>) -> Scan {
    Scan { open, ok: true, tag: None }
}

/// The reader after a tag that held `tag` between `<` and `>`. A tag that starts with
/// `/` closes the element of the name that follows, which has to be the one opened last;
/// any other tag opens an element, unless the element is void.
pub open spec fn after_tag(s: Scan, tag: Seq<char>) -> Scan {
    if tag.len() > 0 && tag[0] == '/' {
        if s.open.len() > 0 && s.open.last() == tag.skip(1) {
            Scan { open: s.open.drop_last(), tag: None, ..s }
        } else {
            Scan { ok: false, tag: None, ..s }
        }
    } else if is_void(tag.take(name_len(tag))) {
        Scan { tag: None, ..s }
    } else {
        Scan { open: s.open.push(tag.take(name_len(tag))), tag: None, ..s }
    }
}

/// The reader after one more character.
pub open spec fn scan_step(s: Scan, c: char) -> Scan {
    if !s.ok {
        s
    } else {
        match s.tag {
            None => if c == '<' {
                Scan { tag: Some(Seq::empty()), ..s }
            } else {
                s
            },
            Some(tag) => if c == '>' {
                after_tag(s, tag)
            } else {
                Scan { tag: Some(tag.push(c)), ..s }
            },
        }
    }
}

/// The reader after a text.
pub open spec fn scan_from(s: Scan, text: Seq<char>) -> Scan
    decreases text.len(),
{
    if text.len() == 0 {
        s
    } else {
        scan_step(scan_from(s, text.drop_last()), text.last())
    }
}

/// The reader after a text that it read from the start.
pub open spec fn scan(text: Seq<char>) -> Scan {
    scan_from(between(Seq::empty()), text)
}

/// Whether the tags of a text are well nested: each closing tag closes the element that
/// was opened last and is still open, the text does not end inside a tag, and no element
/// stays open.
pub open spec fn tags_well_nested(text: Seq<char>) -> bool {
    scan(text) == between(Seq::empty())
}

/// Whether a text holds neither `<` nor `>`.
pub open spec fn is_inert(text: Seq<char>) -> bool {
    forall|i: int| 0 <= i < text.len() ==> #[trigger] text[i] != '<' && text[i] != '>'
}

/// Whether a text can be the name of an element that has content: it is not empty, no
/// character of it ends a name or belongs to a tag's brackets, and the element is not
/// void.
pub open spec fn is_element_name(name: Seq<char>) -> bool {
    &&& name.len() > 0
    &&& is_inert(name)
    &&& forall|i: int| 0 <= i < name.len() ==> !ends_name(#[trigger] name[i])
    &&& !is_void(name)
}

/// Whether a text can follow the name inside a tag: it is inert and, unless it is
/// empty, starts with a space.
pub open spec fn is_tag_rest(text: Seq<char>) -> bool {
    is_inert(text) && (text.len() > 0 ==> text[0] == ' ')
}

/// Reading a text in two parts is reading it as one.
pub proof fn lemma_scan_in_parts(s: Scan, a: Seq<char>, b: Seq<char>)
    ensures
        scan_from(s, a + b) == scan_from(scan_from(s, a), b),
    decreases b.len(),
{
    if b.len() == 0 {
        assert(a + b =~= a);
    } else {
        lemma_scan_in_parts(s, a, b.drop_last());
        assert((a + b).drop_last() =~= a + b.drop_last());
    }
}

/// Text without `<` between tags changes nothing.
proof fn lemma_scan_text(open: Seq<Seq<char>>, text: Seq<char>)
    requires
        is_inert(text),
    ensures
        scan_from(between(open), text) == between(open),
    decreases text.len(),
{
    if text.len() > 0 {
        lemma_scan_text(open, text.drop_last());
        assert(text.last() == text[text.len() - 1]);
    }
}

/// Text without `>` inside a tag is added to the tag.
proof fn lemma_scan_inside(open: Seq<Seq<char>>, tag: Seq<char>, text: Seq<char>)
    requires
        is_inert(text),
    ensures
        scan_from(Scan { open, ok: true, tag: Some(tag) }, text) == (Scan {
            open,
            ok: true,
            tag: Some(tag + text),
        }),
    decreases text.len(),
{
    if text.len() == 0 {
        assert(tag + text =~= tag);
    } else {
        lemma_scan_inside(open, tag, text.drop_last());
        assert(text.last() == text[text.len() - 1]);
        assert((tag + text.drop_last()).push(text.last()) =~= tag + text);
    }
}

/// A whole tag: what stands between `<` and `>` decides.
proof fn lemma_scan_tag(open: Seq<Seq<char>>, tag: Seq<char>)
    requires
        is_inert(tag),
    ensures
        scan_from(between(open), "<"@ + tag + ">"@) == after_tag(between(open), tag),
{
    reveal_strlit("<");
    reveal_strlit(">");
    let text = "<"@ + tag + ">"@;
    lemma_scan_in_parts(between(open), "<"@ + tag, ">"@);
    lemma_scan_in_parts(between(open), "<"@, tag);
    assert("<"@.drop_last() =~= Seq::<char>::empty());
    assert(">"@.drop_last() =~= Seq::<char>::empty());
    assert(scan_from(between(open), "<"@.drop_last()) == between(open));
    assert(scan_from(between(open), "<"@) == (Scan { open, ok: true, tag: Some(Seq::empty()) }));
    lemma_scan_inside(open, Seq::empty(), tag);
    assert(Seq::<char>::empty() + tag =~= tag);
    let inside = Scan { open, ok: true, tag: Some(tag) };
    assert(scan_from(inside, ">"@.drop_last()) == inside);
}

/// The name of a tag that holds a name and, behind it, nothing or something that starts
/// with a space.
proof fn lemma_name_len(name: Seq<char>, rest: Seq<char>)
    requires
        forall|i: int| 0 <= i < name.len() ==> !ends_name(#[trigger] name[i]),
        rest.len() > 0 ==> ends_name(rest[0]),
    ensures
        name_len(name + rest) == name.len(),
    decreases rest.len(), name.len(),
{
    let tag = name + rest;
    if rest.len() > 0 {
        assert(tag.drop_last() =~= name + rest.drop_last());
        if rest.len() == 1 {
            assert(rest.drop_last() =~= Seq::<char>::empty());
            lemma_name_len(name, rest.drop_last());
        } else {
            assert(rest.drop_last()[0] == rest[0]);
            lemma_name_len(name, rest.drop_last());
        }
    } else if name.len() > 0 {
        assert(tag =~= name);
        assert(name.drop_last() + rest =~= name.drop_last());
        assert forall|i: int| 0 <= i < name.drop_last().len() implies !ends_name(
            #[trigger] name.drop_last()[i],
        ) by {
            assert(name.drop_last()[i] == name[i]);
        }
        lemma_name_len(name.drop_last(), rest);
        assert(name.last() == name[name.len() - 1]);
    } else {
        assert(tag =~= Seq::<char>::empty());
    }
}

/// An opening tag opens its element.
proof fn lemma_scan_open(open: Seq<Seq<char>>, name: Seq<char>, rest: Seq<char>)
    requires
        is_element_name(name),
        is_tag_rest(rest),
    ensures
        scan_from(between(open), open_text(name, rest)) == between(open.push(name)),
{
    let tag = name + rest;
    assert(open_text(name, rest) =~= "<"@ + tag + ">"@);
    lemma_scan_tag(open, tag);
    lemma_name_len(name, rest);
    assert(tag.take(name.len() as int) =~= name);
    assert(tag[0] == name[0]);
}

/// The opening tag of a void element opens nothing.
proof fn lemma_scan_void(open: Seq<Seq<char>>, name: Seq<char>, rest: Seq<char>)
    requires
        is_void(name),
        is_tag_rest(rest),
    ensures
        scan_from(between(open), open_text(name, rest)) == between(open),
{
    let tag = name + rest;
    assert(open_text(name, rest) =~= "<"@ + tag + ">"@);
    lemma_scan_tag(open, tag);
    lemma_name_len(name, rest);
    assert(tag.take(name.len() as int) =~= name);
    assert(tag[0] == name[0]);
}

/// A closing tag closes the element opened last, if it has its name.
proof fn lemma_scan_close(open: Seq<Seq<char>>, name: Seq<char>)
    requires
        is_inert(name),
    ensures
        scan_from(between(open.push(name)), "</"@ + name + ">"@) == between(open),
{
    reveal_strlit("</");
    reveal_strlit("<");
    reveal_strlit("/");
    let tag = "/"@ + name;
    assert("</"@ + name + ">"@ =~= "<"@ + tag + ">"@);
    lemma_scan_tag(open.push(name), tag);
    assert(tag.skip(1) =~= name);
    assert(open.push(name).drop_last() =~= open);
}

/// The reader with `base` open below what it holds open.
pub open spec fn above(base: Seq<Seq<char>>, s: Scan) -> Scan {
    Scan { open: base + s.open, ..s }
}

/// What is read with nothing open is read alike above open elements.
proof fn lemma_scan_above(base: Seq<Seq<char>>, s: Scan, text: Seq<char>)
    requires
        scan_from(s, text).ok,
    ensures
        scan_from(above(base, s), text) == above(base, scan_from(s, text)),
    decreases text.len(),
{
    if text.len() > 0 {
        let before = scan_from(s, text.drop_last());
        assert(before.ok);
        lemma_scan_above(base, s, text.drop_last());
        let c = text.last();
        match before.tag {
            Some(tag) => {
                if c == '>' {
                    if tag.len() > 0 && tag[0] == '/' {
                        assert((base + before.open).drop_last() =~= base + before.open.drop_last());
                    } else {
                        let name = tag.take(name_len(tag));
                        assert((base + before.open).push(name) =~= base + before.open.push(name));
                    }
                }
            },
            None => {},
        }
    }
}

/// An escaped attribute value holds neither `<` nor `>`.
proof fn lemma_escaped_attr_is_inert(s: Seq<char>)
    ensures
        is_inert(escape_attr(s)),
    decreases s.len(),
{
    reveal_strlit("&lt;");
    reveal_strlit("&gt;");
    reveal_strlit("&amp;");
    reveal_strlit("&quot;");
    reveal_strlit("&#39;");
    if s.len() > 0 {
        lemma_escaped_attr_is_inert(s.drop_last());
        lemma_inert_joined(escape_attr(s.drop_last()), escape_attr_char(s.last()));
    }
}

/// Escaped body text holds neither `<` nor `>`.
proof fn lemma_escaped_body_is_inert(s: Seq<char>)
    ensures
        is_inert(escape_body(s)),
{
    crate::text::lemma_escaped_body_is_inert(s);
}

proof fn lemma_inert_joined(a: Seq<char>, b: Seq<char>)
    requires
        is_inert(a),
        is_inert(b),
    ensures
        is_inert(a + b),
{
    assert forall|i: int| 0 <= i < (a + b).len() implies #[trigger] (a + b)[i] != '<' && (a + b)[i]
        != '>' by {
        if i < a.len() {
            assert((a + b)[i] == a[i]);
        } else {
            assert((a + b)[i] == b[i - a.len()]);
        }
    }
}

proof fn lemma_rest_joined(a: Seq<char>, b: Seq<char>)
    requires
        is_tag_rest(a),
        is_tag_rest(b),
    ensures
        is_tag_rest(a + b),
{
    lemma_inert_joined(a, b);
    if a.len() > 0 {
        assert((a + b)[0] == a[0]);
    } else {
        assert(a + b =~= b);
    }
}

/// A number in decimal holds neither `<` nor `>`.
proof fn lemma_decimal_is_inert(n: nat)
    ensures
        is_inert(decimal(n)),
    decreases n,
{
    if n >= 10 {
        lemma_decimal_is_inert(n / 10);
    }
}

/// One attribute can follow the name inside a tag, if its name is inert.
proof fn lemma_attr_is_rest(name: Seq<char>, value: Seq<char>)
    requires
        is_inert(name),
    ensures
        is_tag_rest(attr_text(name, value)),
{
    reveal_strlit(" ");
    reveal_strlit("=\"");
    reveal_strlit("\"");
    lemma_escaped_attr_is_inert(value);
    lemma_inert_joined(" "@, name);
    lemma_inert_joined(" "@ + name, "=\""@);
    lemma_inert_joined(" "@ + name + "=\""@, escape_attr(value));
    lemma_inert_joined(" "@ + name + "=\""@ + escape_attr(value), "\""@);
    assert(attr_text(name, value)[0] == ' ');
}

/// Whether the names of the attributes hold neither `<` nor `>`.
pub open spec fn has_inert_names(attrs: AttributeSeq) -> bool {
    forall|i: int| 0 <= i < attrs.len() ==> is_inert(#[trigger] attrs[i].0)
}

/// Attributes with inert names can follow the name inside a tag.
proof fn lemma_attrs_are_rest(attrs: AttributeSeq)
    requires
        has_inert_names(attrs),
    ensures
        is_tag_rest(attrs_text(attrs)),
    decreases attrs.len(),
{
    if attrs.len() > 0 {
        assert forall|i: int| 0 <= i < attrs.drop_last().len() implies is_inert(
            #[trigger] attrs.drop_last()[i].0,
        ) by {
            assert(attrs.drop_last()[i] == attrs[i]);
        }
        lemma_attrs_are_rest(attrs.drop_last());
        assert(is_inert(attrs[attrs.len() - 1].0));
        lemma_attr_is_rest(attrs.last().0, attrs.last().1.text());
        lemma_rest_joined(
            attrs_text(attrs.drop_last()),
            attr_text(attrs.last().0, attrs.last().1.text()),
        );
    }
}

/// The names of attributes that the writer adds by itself are inert.
proof fn lemma_own_attribute_names()
    ensures
        is_inert("href"@),
        is_inert("id"@),
        is_inert("class"@),
        is_inert("style"@),
        is_inert("type"@),
        is_inert("start"@),
        is_inert("role"@),
        is_inert("data-checked"@),
        is_inert("src"@),
        is_inert("alt"@),
{
    reveal_strlit("href");
    reveal_strlit("id");
    reveal_strlit("class");
    reveal_strlit("style");
    reveal_strlit("type");
    reveal_strlit("start");
    reveal_strlit("role");
    reveal_strlit("data-checked");
    reveal_strlit("src");
    reveal_strlit("alt");
}

/// The names of the elements that a container is written as, outermost first.
pub open spec fn element_names(c: ContainerView) -> Seq<Seq<char>> {
    match c {
        ContainerView::Blockquote => seq!["blockquote"@],
        ContainerView::DescriptionList => seq!["dl"@],
        ContainerView::DescriptionTerm => seq!["dt"@],
        ContainerView::DescriptionDetails => seq!["dd"@],
        ContainerView::Heading { level, id } => seq![heading_tag(level), "a"@],
        ContainerView::Section { id } => seq!["section"@],
        ContainerView::Div => seq!["div"@],
        ContainerView::Paragraph => seq!["p"@],
        ContainerView::Link { destination } => seq!["a"@],
        ContainerView::List { kind, tight } => if kind is Ordered {
            seq!["ol"@]
        } else {
            seq!["ul"@]
        },
        ContainerView::ListItem => seq!["li"@],
        ContainerView::TaskListItem { checked } => seq!["li"@],
        ContainerView::Table => seq!["table"@],
        ContainerView::TableHead => seq!["thead"@],
        ContainerView::TableBody => seq!["tbody"@],
        ContainerView::TableRow => seq!["tr"@],
        ContainerView::TableCell { alignment, head } => if head {
            seq!["th"@]
        } else {
            seq!["td"@]
        },
        ContainerView::Footnote { label } => seq!["li"@],
        ContainerView::Other { tag } => seq![tag],
    }
}

/// The names of the elements that the writer knows are names of elements.
proof fn lemma_block_names()
    ensures
        is_element_name("blockquote"@),
        is_element_name("dl"@),
        is_element_name("dt"@),
        is_element_name("dd"@),
        is_element_name("section"@),
        is_element_name("div"@),
        is_element_name("p"@),
        is_element_name("a"@),
        is_element_name("ol"@),
        is_element_name("ul"@),
        is_element_name("li"@),
{
    reveal_strlit("blockquote");
    reveal_strlit("dl");
    reveal_strlit("dt");
    reveal_strlit("dd");
    reveal_strlit("section");
    reveal_strlit("div");
    reveal_strlit("p");
    reveal_strlit("a");
    reveal_strlit("ol");
    reveal_strlit("ul");
    reveal_strlit("li");
}

proof fn lemma_table_names()
    ensures
        is_element_name("table"@),
        is_element_name("thead"@),
        is_element_name("tbody"@),
        is_element_name("tr"@),
        is_element_name("th"@),
        is_element_name("td"@),
        is_element_name("span"@),
        is_element_name("pre"@),
        is_element_name("code"@),
        is_element_name("sup"@),
        is_element_name("aside"@),
{
    reveal_strlit("table");
    reveal_strlit("thead");
    reveal_strlit("tbody");
    reveal_strlit("tr");
    reveal_strlit("th");
    reveal_strlit("td");
    reveal_strlit("span");
    reveal_strlit("pre");
    reveal_strlit("code");
    reveal_strlit("sup");
    reveal_strlit("aside");
}

proof fn lemma_heading_names(level: u16)
    ensures
        is_element_name(heading_tag(level)),
{
    reveal_strlit("h1");
    reveal_strlit("h2");
    reveal_strlit("h3");
    reveal_strlit("h4");
    reveal_strlit("h5");
    reveal_strlit("h6");
}

/// A closing tag with the given name.
pub open spec fn close_text(name: Seq<char>) -> Seq<char> {
    "</"@ + name + ">"@
}

proof fn lemma_opens(open: Seq<Seq<char>>, name: Seq<char>, rest: Seq<char>)
    requires
        is_element_name(name),
        is_tag_rest(rest),
    ensures
        scan_from(between(open), open_text(name, rest)) == between(open + seq![name]),
{
    lemma_scan_open(open, name, rest);
    assert(open.push(name) =~= open + seq![name]);
}

/// A closing tag, with or without a line break behind it, closes the element opened
/// last, if it has its name.
proof fn lemma_closes_line(open: Seq<Seq<char>>, name: Seq<char>, text: Seq<char>)
    requires
        is_inert(name),
        text == close_text(name) || text == close_text(name) + "\n"@,
    ensures
        scan_from(between(open + seq![name]), text) == between(open),
{
    reveal_strlit("\n");
    assert(open + seq![name] =~= open.push(name));
    lemma_scan_close(open, name);
    if text != close_text(name) {
        lemma_scan_in_parts(between(open.push(name)), close_text(name), "\n"@);
        lemma_scan_text(open, "\n"@);
    }
}

/// The opening tag of a container opens the elements of the container.
#[verifier::rlimit(30)]
proof fn lemma_start_opens(
    open: Seq<Seq<char>>,
    c: ContainerView,
    attrs: AttributeSeq,
    number: nat,
)
    requires
        has_inert_names(attrs),
        c matches ContainerView::Other { tag } ==> is_element_name(tag),
    ensures
        scan_from(between(open), start_text(c, attrs, number)) == between(open + element_names(c)),
{
    lemma_block_names();
    lemma_table_names();
    lemma_own_attribute_names();
    lemma_attrs_are_rest(attrs);
    let rest = attrs_text(attrs);
    let none = Seq::<char>::empty();
    match c {
        ContainerView::Blockquote => lemma_opens(open, "blockquote"@, rest),
        ContainerView::DescriptionList => lemma_opens(open, "dl"@, rest),
        ContainerView::DescriptionTerm => lemma_opens(open, "dt"@, rest),
        ContainerView::DescriptionDetails => lemma_opens(open, "dd"@, rest),
        ContainerView::Heading { level, id } => {
            let h = heading_tag(level);
            let link = attr_text("href"@, "#"@ + id);
            lemma_heading_names(level);
            lemma_attr_is_rest("href"@, "#"@ + id);
            lemma_scan_in_parts(between(open), open_text(h, rest), open_text("a"@, link));
            lemma_scan_open(open, h, rest);
            lemma_scan_open(open.push(h), "a"@, link);
            assert(open.push(h).push("a"@) =~= open + seq![h, "a"@]);
        },
        ContainerView::Section { id } => {
            lemma_attr_is_rest("id"@, id);
            lemma_rest_joined(rest, attr_text("id"@, id));
            lemma_opens(open, "section"@, rest + attr_text("id"@, id));
        },
        ContainerView::Div => lemma_opens(open, "div"@, rest),
        ContainerView::Paragraph => lemma_opens(open, "p"@, rest),
        ContainerView::Link { destination } => {
            lemma_attr_is_rest("href"@, destination);
            lemma_rest_joined(rest, attr_text("href"@, destination));
            lemma_opens(open, "a"@, rest + attr_text("href"@, destination));
        },
        ContainerView::List { kind, tight } => {
            match kind {
                ListKind::Unordered => lemma_opens(open, "ul"@, rest),
                ListKind::Ordered { numbering, start } => {
                    lemma_attr_is_rest("type"@, "a"@);
                    lemma_attr_is_rest("type"@, "A"@);
                    lemma_attr_is_rest("type"@, "i"@);
                    lemma_attr_is_rest("type"@, "I"@);
                    lemma_attr_is_rest("start"@, decimal(start as nat));
                    assert(is_tag_rest(none));
                    lemma_rest_joined(rest, numbering_text(numbering));
                    lemma_rest_joined(rest + numbering_text(numbering), list_start_text(start));
                    lemma_opens(
                        open,
                        "ol"@,
                        rest + numbering_text(numbering) + list_start_text(start),
                    );
                },
                ListKind::Task => {
                    lemma_attr_is_rest("class"@, "task-list"@);
                    lemma_rest_joined(rest, attr_text("class"@, "task-list"@));
                    lemma_opens(open, "ul"@, rest + attr_text("class"@, "task-list"@));
                },
            }
        },
        ContainerView::ListItem => lemma_opens(open, "li"@, rest),
        ContainerView::TaskListItem { checked } => {
            lemma_attr_is_rest("class"@, "checked"@);
            lemma_attr_is_rest("class"@, "unchecked"@);
            lemma_attr_is_rest("data-checked"@, "true"@);
            lemma_attr_is_rest("data-checked"@, "false"@);
            lemma_rest_joined(
                attr_text("class"@, "checked"@),
                attr_text("data-checked"@, "true"@),
            );
            lemma_rest_joined(
                attr_text("class"@, "unchecked"@),
                attr_text("data-checked"@, "false"@),
            );
            lemma_rest_joined(rest, task_text(checked));
            lemma_opens(open, "li"@, rest + task_text(checked));
        },
        ContainerView::Table => lemma_opens(open, "table"@, rest),
        ContainerView::TableHead => lemma_opens(open, "thead"@, rest),
        ContainerView::TableBody => lemma_opens(open, "tbody"@, rest),
        ContainerView::TableRow => lemma_opens(open, "tr"@, rest),
        ContainerView::TableCell { alignment, head } => {
            lemma_attr_is_rest("style"@, "text-align: left;"@);
            lemma_attr_is_rest("style"@, "text-align: center;"@);
            lemma_attr_is_rest("style"@, "text-align: right;"@);
            assert(is_tag_rest(none));
            if head {
                lemma_opens(open, "th"@, alignment_text(alignment));
            } else {
                lemma_opens(open, "td"@, alignment_text(alignment));
            }
        },
        ContainerView::Footnote { label } => {
            lemma_footnote_attrs_are_rest(attrs, number);
            lemma_opens(open, "li"@, footnote_attrs_text(attrs, number));
        },
        ContainerView::Other { tag } => lemma_opens(open, tag, rest),
    }
}

/// The attributes of the opening tag of a footnote definition can follow a name.
proof fn lemma_footnote_attrs_are_rest(attrs: AttributeSeq, number: nat)
    requires
        has_inert_names(attrs),
    ensures
        is_tag_rest(footnote_attrs_text(attrs, number)),
{
    lemma_own_attribute_names();
    lemma_attrs_are_rest(attrs);
    let a = attr_text("class"@, "footnote-definition"@);
    let b = attr_text("id"@, footnote_id(number));
    let c = attr_text("role"@, "doc-footnote"@);
    lemma_attr_is_rest("class"@, "footnote-definition"@);
    lemma_attr_is_rest("id"@, footnote_id(number));
    lemma_attr_is_rest("role"@, "doc-footnote"@);
    lemma_rest_joined(attrs_text(attrs), a);
    lemma_rest_joined(attrs_text(attrs) + a, b);
    lemma_rest_joined(attrs_text(attrs) + a + b, c);
}

proof fn lemma_block_ends()
    ensures
        "</blockquote>"@ == close_text("blockquote"@),
        "</dl>\n"@ == close_text("dl"@) + "\n"@,
        "</dt>"@ == close_text("dt"@),
        "</dd>"@ == close_text("dd"@),
        "</section>\n"@ == close_text("section"@) + "\n"@,
        "</div>\n"@ == close_text("div"@) + "\n"@,
        "</p>\n"@ == close_text("p"@) + "\n"@,
        "</a>"@ == close_text("a"@),
        "</ol>\n"@ == close_text("ol"@) + "\n"@,
        "</ul>\n"@ == close_text("ul"@) + "\n"@,
        "</li>\n"@ == close_text("li"@) + "\n"@,
{
    reveal_strlit("</");
    reveal_strlit(">");
    reveal_strlit("\n");
    reveal_strlit("blockquote");
    reveal_strlit("dl");
    reveal_strlit("dt");
    reveal_strlit("dd");
    reveal_strlit("section");
    reveal_strlit("div");
    reveal_strlit("p");
    reveal_strlit("a");
    reveal_strlit("ol");
    reveal_strlit("ul");
    reveal_strlit("li");
    reveal_strlit("</blockquote>");
    reveal_strlit("</dl>\n");
    reveal_strlit("</dt>");
    reveal_strlit("</dd>");
    reveal_strlit("</section>\n");
    reveal_strlit("</div>\n");
    reveal_strlit("</p>\n");
    reveal_strlit("</a>");
    reveal_strlit("</ol>\n");
    reveal_strlit("</ul>\n");
    reveal_strlit("</li>\n");
    assert("</blockquote>"@ =~= close_text("blockquote"@));
    assert("</dl>\n"@ =~= close_text("dl"@) + "\n"@);
    assert("</dt>"@ =~= close_text("dt"@));
    assert("</dd>"@ =~= close_text("dd"@));
    assert("</section>\n"@ =~= close_text("section"@) + "\n"@);
    assert("</div>\n"@ =~= close_text("div"@) + "\n"@);
    assert("</p>\n"@ =~= close_text("p"@) + "\n"@);
    assert("</a>"@ =~= close_text("a"@));
    assert("</ol>\n"@ =~= close_text("ol"@) + "\n"@);
    assert("</ul>\n"@ =~= close_text("ul"@) + "\n"@);
    assert("</li>\n"@ =~= close_text("li"@) + "\n"@);
}

proof fn lemma_table_ends()
    ensures
        "</table>\n"@ == close_text("table"@) + "\n"@,
        "</thead>\n"@ == close_text("thead"@) + "\n"@,
        "</tbody>\n"@ == close_text("tbody"@) + "\n"@,
        "</tr>\n"@ == close_text("tr"@) + "\n"@,
        "</th>\n"@ == close_text("th"@) + "\n"@,
        "</td>\n"@ == close_text("td"@) + "\n"@,
{
    reveal_strlit("</");
    reveal_strlit(">");
    reveal_strlit("\n");
    reveal_strlit("table");
    reveal_strlit("thead");
    reveal_strlit("tbody");
    reveal_strlit("tr");
    reveal_strlit("th");
    reveal_strlit("td");
    reveal_strlit("</table>\n");
    reveal_strlit("</thead>\n");
    reveal_strlit("</tbody>\n");
    reveal_strlit("</tr>\n");
    reveal_strlit("</th>\n");
    reveal_strlit("</td>\n");
    assert("</table>\n"@ =~= close_text("table"@) + "\n"@);
    assert("</thead>\n"@ =~= close_text("thead"@) + "\n"@);
    assert("</tbody>\n"@ =~= close_text("tbody"@) + "\n"@);
    assert("</tr>\n"@ =~= close_text("tr"@) + "\n"@);
    assert("</th>\n"@ =~= close_text("th"@) + "\n"@);
    assert("</td>\n"@ =~= close_text("td"@) + "\n"@);
}

/// The closing tags of a heading close the link in it and the heading.
proof fn lemma_heading_end_closes(open: Seq<Seq<char>>, level: u16)
    ensures
        scan_from(
            between(open + seq![heading_tag(level), "a"@]),
            end_text(ContainerEndView::Heading { level }),
        ) == between(open),
{
    let h = heading_tag(level);
    lemma_heading_names(level);
    lemma_block_names();
    reveal_strlit("</a></");
    reveal_strlit("</");
    reveal_strlit(">");
    reveal_strlit(">\n");
    reveal_strlit("\n");
    reveal_strlit("a");
    let text = end_text(ContainerEndView::Heading { level });
    assert(text =~= close_text("a"@) + (close_text(h) + "\n"@));
    let inner = open + seq![h];
    assert(open + seq![h, "a"@] =~= inner + seq!["a"@]);
    lemma_scan_in_parts(between(inner + seq!["a"@]), close_text("a"@), close_text(h) + "\n"@);
    lemma_closes_line(inner, "a"@, close_text("a"@));
    lemma_closes_line(open, h, close_text(h) + "\n"@);
}

/// The closing tag of a container closes the elements of the container.
proof fn lemma_end_closes(open: Seq<Seq<char>>, c: ContainerView, end: ContainerEndView)
    requires
        closes(c, end),
        c matches ContainerView::Other { tag } ==> is_element_name(tag),
    ensures
        scan_from(between(open + element_names(c)), end_text(end)) == between(open),
{
    lemma_block_names();
    lemma_table_names();
    lemma_block_ends();
    lemma_table_ends();
    let text = end_text(end);
    match c {
        ContainerView::Heading { level, id } => lemma_heading_end_closes(open, level),
        ContainerView::Other { tag } => lemma_closes_line(open, tag, text),
        _ => lemma_closes_line(open, element_names(c)[0], text),
    }
}

/// Reading one text after another.
proof fn lemma_scan_then(
    x: Seq<Seq<char>>,
    a: Seq<char>,
    y: Seq<Seq<char>>,
    b: Seq<char>,
    z: Seq<Seq<char>>,
)
    requires
        scan_from(between(x), a) == between(y),
        scan_from(between(y), b) == between(z),
    ensures
        scan_from(between(x), a + b) == between(z),
{
    lemma_scan_in_parts(between(x), a, b);
}

/// Whether the writer writes the event as tags that a reader can follow: the names of
/// its attributes hold no `<` and no `>`, a container that is written under a name of
/// its own has the name of an element, a single tag is the tag of a void element, and
/// the event is not raw HTML.
pub open spec fn is_tidy(e: EventView) -> bool {
    match e {
        EventView::Start { container, attributes } => has_inert_names(attributes) && (
        container matches ContainerView::Other { tag } ==> is_element_name(tag)),
        EventView::Image { destination, alt, attributes } => has_inert_names(attributes),
        EventView::CodeBlock { language, code, attributes } => has_inert_names(attributes),
        EventView::Math { kind, math, attributes } => has_inert_names(attributes),
        EventView::TagWithAttribute { tag, attributes } => is_void(tag) && has_inert_names(
            attributes,
        ),
        EventView::HtmlBlock { content, attributes } => false,
        EventView::HtmlInline { content, attributes } => false,
        _ => true,
    }
}

/// What the writer writes for an event that is no start and no end of a container.
spec fn leaf_text(e: EventView, number: nat) -> Seq<char> {
    match e {
        EventView::Str(s) => escape_body(s),
        EventView::Image { destination, alt, attributes } => open_text(
            "img"@,
            attrs_text(attributes) + attr_text("src"@, destination) + attr_text("alt"@, alt),
        ),
        EventView::CodeBlock { language, code, attributes } => open_text(
            "pre"@,
            attrs_text(attributes),
        ) + "\n<code>\n"@ + escape_body(code) + code_line_end(escape_body(code))
            + "</code>\n</pre>"@,
        EventView::Math { kind, math, attributes } => open_text(
            "span"@,
            attrs_text(attributes) + attr_text("class"@, "math"@),
        ) + escape_body(math) + "</span>"@,
        EventView::TagWithAttribute { tag, attributes } => open_text(tag, attrs_text(attributes)),
        EventView::FootnoteReference { reference } => reference_text(number),
        _ => Seq::empty(),
    }
}

proof fn lemma_code_reads(open: Seq<Seq<char>>, code: Seq<char>, attributes: AttributeSeq)
    requires
        has_inert_names(attributes),
    ensures
        scan_from(
            between(open),
            leaf_text(EventView::CodeBlock { language: Seq::empty(), code, attributes }, 0),
        ) == between(open),
{
    lemma_table_names();
    lemma_attrs_are_rest(attributes);
    lemma_escaped_body_is_inert(code);
    reveal_strlit("\n<code>\n");
    reveal_strlit("</code>\n</pre>");
    reveal_strlit("</");
    reveal_strlit("<");
    reveal_strlit(">");
    reveal_strlit("\n");
    reveal_strlit("code");
    reveal_strlit("pre");
    let none = Seq::<char>::empty();
    let a = open_text("pre"@, attrs_text(attributes));
    let b = "\n"@ + open_text("code"@, none);
    let c = "\n"@ + escape_body(code) + code_line_end(escape_body(code));
    let d = close_text("code"@) + "\n"@;
    let e = close_text("pre"@);
    let p = open + seq!["pre"@];
    let q = p + seq!["code"@];
    assert(leaf_text(EventView::CodeBlock { language: Seq::empty(), code, attributes }, 0) =~= a
        + b + c + d + e);
    lemma_opens(open, "pre"@, attrs_text(attributes));
    lemma_scan_text(p, "\n"@);
    lemma_opens(p, "code"@, none);
    lemma_scan_then(p, "\n"@, p, open_text("code"@, none), q);
    lemma_inert_joined("\n"@, escape_body(code));
    lemma_inert_joined("\n"@ + escape_body(code), code_line_end(escape_body(code)));
    lemma_scan_text(q, c);
    lemma_closes_line(p, "code"@, d);
    lemma_closes_line(open, "pre"@, e);
    lemma_scan_then(open, a, p, b, q);
    lemma_scan_then(open, a + b, q, c, q);
    lemma_scan_then(open, a + b + c, q, d, p);
    lemma_scan_then(open, a + b + c + d, p, e, open);
}

proof fn lemma_math_reads(open: Seq<Seq<char>>, math: Seq<char>, attributes: AttributeSeq)
    requires
        has_inert_names(attributes),
    ensures
        scan_from(
            between(open),
            open_text("span"@, attrs_text(attributes) + attr_text("class"@, "math"@)) + escape_body(
                math,
            ) + "</span>"@,
        ) == between(open),
{
    lemma_table_names();
    lemma_own_attribute_names();
    lemma_attrs_are_rest(attributes);
    lemma_attr_is_rest("class"@, "math"@);
    lemma_rest_joined(attrs_text(attributes), attr_text("class"@, "math"@));
    lemma_escaped_body_is_inert(math);
    reveal_strlit("</span>");
    reveal_strlit("</");
    reveal_strlit(">");
    reveal_strlit("span");
    assert("</span>"@ =~= close_text("span"@));
    let a = open_text("span"@, attrs_text(attributes) + attr_text("class"@, "math"@));
    let p = open + seq!["span"@];
    lemma_opens(open, "span"@, attrs_text(attributes) + attr_text("class"@, "math"@));
    lemma_scan_text(p, escape_body(math));
    lemma_closes_line(open, "span"@, "</span>"@);
    lemma_scan_then(open, a, p, escape_body(math), p);
    lemma_scan_then(open, a + escape_body(math), p, "</span>"@, open);
}

proof fn lemma_image_reads(
    open: Seq<Seq<char>>,
    destination: Seq<char>,
    alt: Seq<char>,
    attributes: AttributeSeq,
)
    requires
        has_inert_names(attributes),
    ensures
        scan_from(
            between(open),
            open_text(
                "img"@,
                attrs_text(attributes) + attr_text("src"@, destination) + attr_text("alt"@, alt),
            ),
        ) == between(open),
{
    lemma_own_attribute_names();
    lemma_attrs_are_rest(attributes);
    lemma_attr_is_rest("src"@, destination);
    lemma_attr_is_rest("alt"@, alt);
    lemma_rest_joined(attrs_text(attributes), attr_text("src"@, destination));
    lemma_rest_joined(
        attrs_text(attributes) + attr_text("src"@, destination),
        attr_text("alt"@, alt),
    );
    reveal_strlit("img");
    lemma_scan_void(
        open,
        "img"@,
        attrs_text(attributes) + attr_text("src"@, destination) + attr_text("alt"@, alt),
    );
}

proof fn lemma_reference_reads(open: Seq<Seq<char>>, number: nat)
    ensures
        scan_from(between(open), reference_text(number)) == between(open),
{
    lemma_block_names();
    lemma_table_names();
    lemma_own_attribute_names();
    lemma_decimal_is_inert(number);
    reveal_strlit("<sup class=\"footnote-reference\">");
    reveal_strlit(" class=\"footnote-reference\"");
    reveal_strlit("</a></sup>");
    reveal_strlit("</");
    reveal_strlit("<");
    reveal_strlit(">");
    reveal_strlit("sup");
    reveal_strlit("a");
    let rest = " class=\"footnote-reference\""@;
    let link = attr_text("role"@, "doc-noteref"@) + attr_text("href"@, "#"@ + footnote_id(number));
    lemma_attr_is_rest("role"@, "doc-noteref"@);
    lemma_attr_is_rest("href"@, "#"@ + footnote_id(number));
    lemma_rest_joined(
        attr_text("role"@, "doc-noteref"@),
        attr_text("href"@, "#"@ + footnote_id(number)),
    );
    let a = open_text("sup"@, rest);
    let b = open_text("a"@, link);
    let c = decimal(number);
    let d = close_text("a"@);
    let e = close_text("sup"@);
    let p = open + seq!["sup"@];
    let q = p + seq!["a"@];
    assert("<sup class=\"footnote-reference\">"@ =~= a);
    assert("</a></sup>"@ =~= d + e);
    assert(reference_text(number) =~= a + b + c + d + e);
    lemma_opens(open, "sup"@, rest);
    lemma_opens(p, "a"@, link);
    lemma_scan_text(q, c);
    lemma_closes_line(p, "a"@, d);
    lemma_closes_line(open, "sup"@, e);
    lemma_scan_then(open, a, p, b, q);
    lemma_scan_then(open, a + b, q, c, q);
    lemma_scan_then(open, a + b + c, q, d, p);
    lemma_scan_then(open, a + b + c + d, p, e, open);
}

/// What the writer writes for an event that is no start and no end of a container opens
/// nothing that it does not close.
proof fn lemma_leaf_reads(open: Seq<Seq<char>>, e: EventView, number: nat)
    requires
        is_tidy(e),
        !(e is Start),
        !(e is End),
    ensures
        scan_from(between(open), leaf_text(e, number)) == between(open),
{
    match e {
        EventView::Str(s) => {
            lemma_escaped_body_is_inert(s);
            lemma_scan_text(open, escape_body(s));
        },
        EventView::Image { destination, alt, attributes } => {
            lemma_image_reads(open, destination, alt, attributes);
        },
        EventView::CodeBlock { language, code, attributes } => {
            lemma_code_reads(open, code, attributes);
        },
        EventView::Math { kind, math, attributes } => {
            lemma_math_reads(open, math, attributes);
        },
        EventView::TagWithAttribute { tag, attributes } => {
            lemma_attrs_are_rest(attributes);
            lemma_scan_void(open, tag, attrs_text(attributes));
        },
        EventView::FootnoteReference { reference } => {
            lemma_reference_reads(open, number);
        },
        _ => {},
    }
}

/// Whether the innermost list among the containers is tight.
spec fn tight_at(open: Seq<ContainerView>) -> bool {
    tight_flags(open).len() > 0 && tight_flags(open).last()
}

/// The names of the elements that the writer opens for a container: a paragraph in a
/// tight list is written without tags.
spec fn written_names(c: ContainerView, tight: bool) -> Seq<Seq<char>> {
    if c is Paragraph && tight {
        Seq::empty()
    } else {
        element_names(c)
    }
}

/// The elements that are open in the buffer that the writer writes to, while the
/// containers are open: a footnote definition starts a buffer of its own.
spec fn names_here(open: Seq<ContainerView>) -> Seq<Seq<char>>
    decreases open.len(),
{
    if open.len() == 0 {
        Seq::empty()
    } else if open.last() is Footnote {
        seq!["li"@]
    } else {
        names_here(open.drop_last()) + written_names(open.last(), tight_at(open.drop_last()))
    }
}

/// The elements that are open in the main output, while the containers are open.
spec fn names_in_main(open: Seq<ContainerView>) -> Seq<Seq<char>>
    decreases open.len(),
{
    if open.len() == 0 {
        Seq::empty()
    } else if holds_footnote(open) {
        names_in_main(open.drop_last())
    } else {
        names_in_main(open.drop_last()) + written_names(open.last(), tight_at(open.drop_last()))
    }
}

/// No footnote definition stands in another, and every container that is written under
/// a name of its own has the name of an element.
spec fn is_proper(open: Seq<ContainerView>) -> bool
    decreases open.len(),
{
    open.len() == 0 || (is_proper(open.drop_last()) && (open.last() is Footnote
        ==> !holds_footnote(open.drop_last())) && (open.last() matches ContainerView::Other {
        tag,
    } ==> is_element_name(tag)))
}

/// The buffers of the writer as a reader of tags finds them: `here` is open in the
/// buffer that the writer writes to, `main` in the main output, and nothing in a
/// footnote that is not being written.
spec fn reads_as(w: WriterView, main: Seq<Seq<char>>, here: Seq<Seq<char>>) -> bool {
    &&& writer_ok(w)
    &&& scan(current(w)) == between(here)
    &&& w.target is Some ==> scan(w.buf) == between(main)
    &&& forall|j: int|
        0 <= j < w.footnotes.len() && w.target != Some(j) ==> scan((#[trigger] w.footnotes[j]).buf)
            == between(Seq::empty())
}

/// The state of the writer fits the containers that are open.
spec fn fits(open: Seq<ContainerView>, w: WriterView) -> bool {
    &&& w.tightness == tight_flags(open)
    &&& holds_footnote(open) == (w.target is Some)
    &&& is_proper(open)
    &&& reads_as(w, names_in_main(open), names_here(open))
}

proof fn lemma_footnote_pushed(open: Seq<ContainerView>, c: ContainerView)
    ensures
        holds_footnote(open.push(c)) == (holds_footnote(open) || c is Footnote),
{
    let more = open.push(c);
    if holds_footnote(open) {
        let i = choose|i: int| 0 <= i < open.len() && #[trigger] open[i] is Footnote;
        assert(more[i] is Footnote);
    }
    if c is Footnote {
        assert(more[open.len() as int] is Footnote);
    }
    if holds_footnote(more) {
        let i = choose|i: int| 0 <= i < more.len() && #[trigger] more[i] is Footnote;
        if i < open.len() {
            assert(open[i] is Footnote);
        }
    }
}

proof fn lemma_footnote_dropped(open: Seq<ContainerView>)
    requires
        open.len() > 0,
    ensures
        holds_footnote(open) == (holds_footnote(open.drop_last()) || open.last() is Footnote),
{
    lemma_footnote_pushed(open.drop_last(), open.last());
    assert(open.drop_last().push(open.last()) =~= open);
}

/// Outside of footnote definitions the buffer at hand is the main output.
proof fn lemma_main_is_here(open: Seq<ContainerView>)
    requires
        !holds_footnote(open),
    ensures
        names_in_main(open) == names_here(open),
    decreases open.len(),
{
    if open.len() > 0 {
        lemma_footnote_dropped(open);
        lemma_main_is_here(open.drop_last());
    }
}

/// Writing a text that leads a reader from `here` to `there`.
proof fn lemma_write_reads(
    w: WriterView,
    main: Seq<Seq<char>>,
    here: Seq<Seq<char>>,
    text: Seq<char>,
    there: Seq<Seq<char>>,
)
    requires
        reads_as(w, main, here),
        scan_from(between(here), text) == between(there),
    ensures
        reads_as(crate::writer::write(w, text), main, there),
        crate::writer::write(w, text).target == w.target,
        crate::writer::write(w, text).tightness == w.tightness,
{
    let after = crate::writer::write(w, text);
    assert(current(after) =~= current(w) + text);
    lemma_scan_in_parts(between(Seq::empty()), current(w), text);
    assert forall|j: int| 0 <= j < after.footnotes.len() && after.target != Some(j) implies scan(
        (#[trigger] after.footnotes[j]).buf,
    ) == between(Seq::empty()) by {
        assert(after.footnotes[j] == w.footnotes[j]);
    }
}

/// Starting a line changes nothing for a reader of tags.
proof fn lemma_new_line_reads(w: WriterView, main: Seq<Seq<char>>, here: Seq<Seq<char>>)
    requires
        reads_as(w, main, here),
    ensures
        reads_as(on_new_line(w), main, here),
        on_new_line(w).target == w.target,
        on_new_line(w).tightness == w.tightness,
{
    reveal_strlit("\n");
    lemma_scan_text(here, "\n"@);
    lemma_write_reads(w, main, here, "\n"@, here);
}

/// Starting a line and writing a text that leads a reader from `here` to `there`.
proof fn lemma_line_reads(
    w: WriterView,
    main: Seq<Seq<char>>,
    here: Seq<Seq<char>>,
    text: Seq<char>,
    there: Seq<Seq<char>>,
)
    requires
        reads_as(w, main, here),
        scan_from(between(here), text) == between(there),
    ensures
        reads_as(crate::writer::write(on_new_line(w), text), main, there),
        crate::writer::write(on_new_line(w), text).target == w.target,
        crate::writer::write(on_new_line(w), text).tightness == w.tightness,
{
    lemma_new_line_reads(w, main, here);
    lemma_write_reads(on_new_line(w), main, here, text, there);
}

proof fn lemma_position_in_registry(fs: Seq<FootnoteView>, label: Seq<char>, i: int)
    requires
        0 <= i <= fs.len(),
    ensures
        i <= footnote_position(fs, label, i) <= fs.len(),
    decreases fs.len() - i,
{
    if i < fs.len() && fs[i].label != label {
        lemma_position_in_registry(fs, label, i + 1);
    }
}

/// Registering a label changes nothing for a reader of tags: a new footnote is empty.
proof fn lemma_registered_reads(
    w: WriterView,
    main: Seq<Seq<char>>,
    here: Seq<Seq<char>>,
    label: Seq<char>,
)
    requires
        reads_as(w, main, here),
    ensures
        reads_as(WriterView { footnotes: registered(w.footnotes, label), ..w }, main, here),
{
    let after = WriterView { footnotes: registered(w.footnotes, label), ..w };
    assert forall|j: int| 0 <= j < after.footnotes.len() && after.target != Some(j) implies scan(
        (#[trigger] after.footnotes[j]).buf,
    ) == between(Seq::empty()) by {
        if j < w.footnotes.len() {
            assert(after.footnotes[j] == w.footnotes[j]);
        }
    }
    match w.target {
        Some(i) => {
            assert(after.footnotes[i] == w.footnotes[i]);
        },
        None => {},
    }
}

/// An event that is no start and no end of a container keeps the state fitting.
#[verifier::rlimit(30)]
proof fn lemma_leaf_fits(open: Seq<ContainerView>, w: WriterView, e: EventView)
    requires
        fits(open, w),
        is_tidy(e),
        !(e is Start),
        !(e is End),
    ensures
        fits(open, apply(w, e)),
{
    let main = names_in_main(open);
    let here = names_here(open);
    match e {
        EventView::Str(s) => {
            lemma_leaf_reads(here, e, 0);
            lemma_write_reads(w, main, here, leaf_text(e, 0), here);
        },
        EventView::FootnoteReference { reference } => {
            let number = footnote_number(w.footnotes, reference);
            let noted = WriterView { footnotes: registered(w.footnotes, reference), ..w };
            lemma_registered_reads(w, main, here, reference);
            lemma_leaf_reads(here, e, number);
            lemma_write_reads(noted, main, here, leaf_text(e, number), here);
        },
        _ => {
            lemma_leaf_reads(here, e, 0);
            lemma_line_reads(w, main, here, leaf_text(e, 0), here);
        },
    }
}

/// The start of a container keeps the state fitting.
#[verifier::rlimit(30)]
proof fn lemma_start_fits(
    open: Seq<ContainerView>,
    w: WriterView,
    c: ContainerView,
    attrs: AttributeSeq,
)
    requires
        fits(open, w),
        has_inert_names(attrs),
        c matches ContainerView::Other { tag } ==> is_element_name(tag),
        c is Footnote ==> !holds_footnote(open),
    ensures
        fits(open.push(c), start_tag(w, c, attrs)),
{
    let more = open.push(c);
    let main = names_in_main(open);
    let here = names_here(open);
    let after = start_tag(w, c, attrs);
    assert(more.drop_last() =~= open);
    lemma_footnote_pushed(open, c);
    match c {
        ContainerView::Footnote { label } => {
            let p = footnote_position(w.footnotes, label, 0);
            let number = footnote_number(w.footnotes, label);
            let none = Seq::<Seq<char>>::empty();
            lemma_position_in_registry(w.footnotes, label, 0);
            lemma_main_is_here(open);
            let noted = WriterView { target: Some(p), ..defined(w, label) };
            assert forall|j: int|
                0 <= j < noted.footnotes.len() implies scan((#[trigger] noted.footnotes[j]).buf)
                == between(none) by {
                if j < w.footnotes.len() {
                    assert(noted.footnotes[j].buf == w.footnotes[j].buf);
                }
            }
            assert(reads_as(noted, here, none));
            lemma_start_opens(none, c, attrs, number);
            assert(none + element_names(c) =~= seq!["li"@]);
            lemma_line_reads(noted, here, none, start_text(c, attrs, number), seq!["li"@]);
        },
        ContainerView::Paragraph => {
            if in_tight_list(w) {
                assert(here + written_names(c, true) =~= here);
                assert(main + written_names(c, true) =~= main);
            } else {
                lemma_start_opens(here, c, attrs, 0);
                lemma_line_reads(w, main, here, start_text(c, attrs, 0), here + element_names(c));
            }
        },
        ContainerView::List { kind, tight } => {
            let listed = WriterView { tightness: w.tightness.push(tight), ..w };
            assert(reads_as(listed, main, here));
            lemma_start_opens(here, c, attrs, 0);
            lemma_line_reads(listed, main, here, start_text(c, attrs, 0), here + element_names(c));
        },
        _ => {
            lemma_start_opens(here, c, attrs, 0);
            lemma_line_reads(w, main, here, start_text(c, attrs, 0), here + element_names(c));
        },
    }
}

/// The end of the container opened last keeps the state fitting.
#[verifier::rlimit(30)]
proof fn lemma_end_fits(open: Seq<ContainerView>, w: WriterView, end: ContainerEndView)
    requires
        fits(open, w),
        open.len() > 0,
        closes(open.last(), end),
    ensures
        fits(open.drop_last(), end_tag(w, end)),
{
    let c = open.last();
    let less = open.drop_last();
    let main = names_in_main(open);
    let here = names_here(open);
    let below = names_here(less);
    lemma_footnote_dropped(open);
    match c {
        ContainerView::Footnote { label } => {
            let none = Seq::<Seq<char>>::empty();
            lemma_end_closes(none, c, end);
            assert(none + element_names(c) =~= seq!["li"@]);
            lemma_line_reads(w, main, here, end_text(end), none);
            lemma_main_is_here(less);
            let closed = crate::writer::write(on_new_line(w), end_text(end));
            let after = WriterView { target: None, ..closed };
            assert(current(after) == closed.buf);
        },
        ContainerView::Paragraph => {
            if in_tight_list(w) {
                assert(below + written_names(c, true) =~= below);
            } else {
                lemma_end_closes(below, c, end);
                lemma_write_reads(w, main, here, end_text(end), below);
            }
        },
        ContainerView::List { kind, tight } => {
            let listed = WriterView { tightness: w.tightness.drop_last(), ..w };
            assert(tight_flags(less).push(tight).drop_last() =~= tight_flags(less));
            assert(reads_as(listed, main, here));
            lemma_end_closes(below, c, end);
            lemma_write_reads(listed, main, here, end_text(end), below);
        },
        ContainerView::DescriptionList => {
            lemma_end_closes(below, c, end);
            lemma_line_reads(w, main, here, end_text(end), below);
        },
        _ => {
            lemma_end_closes(below, c, end);
            lemma_write_reads(w, main, here, end_text(end), below);
        },
    }
}

/// Whether an event starts a footnote definition.
pub open spec fn starts_footnote(e: EventView) -> bool {
    e matches EventView::Start { container: ContainerView::Footnote { label }, attributes }
}

/// Whether no footnote definition starts inside another.
pub open spec fn footnotes_stand_alone(events: Seq<EventView>) -> bool {
    forall|i: int|
        0 <= i < events.len() && starts_footnote(#[trigger] events[i]) ==> !holds_footnote(
            open_containers(events.take(i))->0,
        )
}

/// Whether the writer writes every event as tags that a reader can follow.
pub open spec fn all_tidy(events: Seq<EventView>) -> bool {
    forall|i: int| 0 <= i < events.len() ==> is_tidy(#[trigger] events[i])
}

/// Whether every footnote that the events refer to is defined by them.
pub open spec fn footnotes_are_defined(buf: Seq<char>, events: Seq<EventView>) -> bool {
    forall|j: int|
        0 <= j < written(buf, events).footnotes.len() ==> (#[trigger] written(
            buf,
            events,
        ).footnotes[j]).defined
}

/// After each part of a well-nested document the state of the writer fits the
/// containers that are open.
#[verifier::rlimit(30)]
proof fn lemma_run_fits(buf: Seq<char>, events: Seq<EventView>, k: int)
    requires
        tags_well_nested(buf),
        well_nested(events),
        all_tidy(events),
        footnotes_stand_alone(events),
        0 <= k <= events.len(),
    ensures
        open_containers(events.take(k)) is Some,
        fits(open_containers(events.take(k))->0, apply_all(initial(buf), events.take(k))),
    decreases k,
{
    let part = events.take(k);
    crate::laws::lemma_prefix_well_nested(events, k);
    if k == 0 {
        assert(part =~= Seq::<EventView>::empty());
        let none = Seq::<ContainerView>::empty();
        assert(!holds_footnote(none));
        assert(current(initial(buf)) == buf);
    } else {
        lemma_run_fits(buf, events, k - 1);
        assert(part.drop_last() =~= events.take(k - 1));
        assert(part.last() == events[k - 1]);
        let open = open_containers(events.take(k - 1))->0;
        let w = apply_all(initial(buf), events.take(k - 1));
        let e = events[k - 1];
        assert(is_tidy(e));
        match e {
            EventView::Start { container, attributes } => {
                assert(starts_footnote(e) ==> !holds_footnote(open));
                lemma_start_fits(open, w, container, attributes);
            },
            EventView::End { container } => {
                lemma_end_fits(open, w, container);
            },
            _ => {
                lemma_leaf_fits(open, w, e);
            },
        }
    }
}

/// Footnotes that are defined and hold well-nested tags add well-nested tags.
proof fn lemma_footnotes_read(start: Seq<char>, fs: Seq<FootnoteView>, base: Seq<Seq<char>>)
    requires
        scan(start) == between(base),
        forall|j: int|
            0 <= j < fs.len() ==> (#[trigger] fs[j]).defined && scan(fs[j].buf) == between(
                Seq::empty(),
            ),
    ensures
        scan(footnotes_text(start, fs)) == between(base),
    decreases fs.len(),
{
    if fs.len() > 0 {
        let before = footnotes_text(start, fs.drop_last());
        let none = Seq::<Seq<char>>::empty();
        assert forall|j: int| 0 <= j < fs.drop_last().len() implies (#[trigger] fs.drop_last()[j]).defined
            && scan(fs.drop_last()[j].buf) == between(Seq::empty()) by {
            assert(fs.drop_last()[j] == fs[j]);
        }
        lemma_footnotes_read(start, fs.drop_last(), base);
        assert(fs.last() == fs[fs.len() - 1]);
        lemma_scan_in_parts(between(none), before, fs.last().buf);
        lemma_scan_above(base, between(none), fs.last().buf);
        assert(base + none =~= base);
    }
}

/// What opens the section of footnotes opens an `aside` and a list in it.
proof fn lemma_section_opens(open: Seq<Seq<char>>)
    ensures
        scan_from(
            between(open),
            "<hr><aside class=\"footnotes\" role=\"doc-endnotes\"><ol>"@,
        ) == between(open + seq!["aside"@, "ol"@]),
{
    lemma_block_names();
    lemma_table_names();
    reveal_strlit("<hr><aside class=\"footnotes\" role=\"doc-endnotes\"><ol>");
    reveal_strlit(" class=\"footnotes\" role=\"doc-endnotes\"");
    reveal_strlit("<");
    reveal_strlit(">");
    reveal_strlit("hr");
    reveal_strlit("aside");
    reveal_strlit("ol");
    let none = Seq::<char>::empty();
    let rest = " class=\"footnotes\" role=\"doc-endnotes\""@;
    let a = open_text("hr"@, none);
    let b = open_text("aside"@, rest);
    let c = open_text("ol"@, none);
    assert("<hr><aside class=\"footnotes\" role=\"doc-endnotes\"><ol>"@ =~= a + b + c);
    lemma_scan_void(open, "hr"@, none);
    lemma_opens(open, "aside"@, rest);
    lemma_opens(open + seq!["aside"@], "ol"@, none);
    lemma_scan_then(open, a, open, b, open + seq!["aside"@]);
    lemma_scan_then(open, a + b, open + seq!["aside"@], c, open + seq!["aside"@] + seq!["ol"@]);
    assert(open + seq!["aside"@] + seq!["ol"@] =~= open + seq!["aside"@, "ol"@]);
}

/// What closes the section of footnotes closes the list and the `aside`.
proof fn lemma_section_closes(open: Seq<Seq<char>>)
    ensures
        scan_from(between(open + seq!["aside"@, "ol"@]), "</ol>\n</aside>\n"@) == between(open),
{
    lemma_block_names();
    lemma_table_names();
    reveal_strlit("</ol>\n</aside>\n");
    reveal_strlit("</");
    reveal_strlit(">");
    reveal_strlit("\n");
    reveal_strlit("aside");
    reveal_strlit("ol");
    let a = close_text("ol"@) + "\n"@;
    let b = close_text("aside"@) + "\n"@;
    assert("</ol>\n</aside>\n"@ =~= a + b);
    assert(open + seq!["aside"@, "ol"@] =~= open + seq!["aside"@] + seq!["ol"@]);
    lemma_closes_line(open + seq!["aside"@], "ol"@, a);
    lemma_closes_line(open, "aside"@, b);
    lemma_scan_then(open + seq!["aside"@] + seq!["ol"@], a, open + seq!["aside"@], b, open);
}

/// Whether the document is one whose tags a reader can follow when it is written to
/// `buf`: the tags of `buf` are well nested, the containers of the document are
/// balanced, it holds no raw HTML and no footnote definition inside another, its tag and
/// attribute names are names, and it defines every footnote that it refers to.
pub open spec fn is_tidy_document(buf: Seq<char>, events: Seq<EventView>) -> bool {
    &&& tags_well_nested(buf)
    &&& balanced(events)
    &&& all_tidy(events)
    &&& footnotes_stand_alone(events)
    &&& footnotes_are_defined(buf, events)
}

/// The tags of what the writer writes are well nested: in the text that the writer makes
/// of a tidy document, each closing tag closes the element that was opened last and is
/// still open, and no element stays open at the end.
pub proof fn lemma_tags_are_well_nested(buf: Seq<char>, events: Seq<EventView>)
    requires
        is_tidy_document(buf, events),
    ensures
        tags_well_nested(rendered(buf, events)),
{
    let w = written(buf, events);
    let none = Seq::<Seq<char>>::empty();
    lemma_run_fits(buf, events, events.len() as int);
    assert(events.take(events.len() as int) =~= events);
    let open = Seq::<ContainerView>::empty();
    assert(fits(open, w));
    assert(!holds_footnote(open));
    assert(scan(w.buf) == between(none));
    if w.footnotes.len() > 0 {
        let head = "<hr><aside class=\"footnotes\" role=\"doc-endnotes\"><ol>"@;
        let tail = "</ol>\n</aside>\n"@;
        let base = seq!["aside"@, "ol"@];
        lemma_section_opens(none);
        lemma_section_closes(none);
        assert(none + base =~= base);
        lemma_scan_in_parts(between(none), w.buf, head);
        assert forall|j: int| 0 <= j < w.footnotes.len() implies (#[trigger] w.footnotes[j]).defined
            && scan(w.footnotes[j].buf) == between(Seq::empty()) by {}
        lemma_footnotes_read(w.buf + head, w.footnotes, base);
        lemma_scan_in_parts(between(none), footnotes_text(w.buf + head, w.footnotes), tail);
    }
}

/// The names of open elements as mathematical values.
pub open spec fn names_view(open: Seq<Vec<char>>) -> Seq<Seq<char>> {
    open.map_values(|name: Vec<char>| name@)
}

fn is_void_name(name: &Vec<char>) -> (r: bool)
    ensures
        r == is_void(name@),
{
    let n = name.len();
    (n == 3 && name[0] == 'i' && name[1] == 'm' && name[2] == 'g') || (n == 2 && name[0] == 'h'
        && name[1] == 'r') || (n == 2 && name[0] == 'b' && name[1] == 'r')
}

fn ends_a_name(c: char) -> (r: bool)
    ensures
        r == ends_name(c),
{
    c == ' ' || c == '\n' || c == '\t' || c == '/'
}

/// The name that a tag starts with.
fn name_of(tag: &Vec<char>) -> (name: Vec<char>)
    ensures
        name@ == tag@.take(name_len(tag@)),
{
    let n = tag.len();
    let mut name: Vec<char> = Vec::new();
    let mut i: usize = 0;
    while i < n && !ends_a_name(tag[i])
        invariant
            i <= n,
            n == tag@.len(),
            name@ == tag@.take(i as int),
            forall|j: int| 0 <= j < i ==> !ends_name(#[trigger] tag@[j]),
        decreases n - i,
    {
        name.push(tag[i]);
        i += 1;
        assert(name@ =~= tag@.take(i as int));
    }
    proof {
        assert(tag@ =~= tag@.take(i as int) + tag@.skip(i as int));
        lemma_name_len(tag@.take(i as int), tag@.skip(i as int));
    }
    name
}

/// Whether `tag`, without its first character, is `name`.
fn closes_name(tag: &Vec<char>, name: &Vec<char>) -> (r: bool)
    requires
        tag@.len() > 0,
    ensures
        r == (name@ == tag@.skip(1)),
{
    let n = name.len();
    if tag.len() - 1 != n {
        return false;
    }
    let mut i: usize = 0;
    while i < n
        invariant
            i <= n,
            n == name@.len(),
            tag@.len() == n + 1,
            forall|j: int| 0 <= j < i ==> name@[j] == tag@[j + 1],
        decreases n - i,
    {
        if name[i] != tag[i + 1] {
            assert(tag@.skip(1)[i as int] == tag@[i + 1]);
            return false;
        }
        i += 1;
    }
    assert(name@ =~= tag@.skip(1));
    true
}

/// Whether the tags of a text are well nested.
pub fn has_well_nested_tags(text: &str) -> (r: bool)
    ensures
        r == tags_well_nested(text@),
{
    let chars = chars_of(text);
    let n = chars.len();
    let mut open: Vec<Vec<char>> = Vec::new();
    let mut ok = true;
    let mut tag: Option<Vec<char>> = None;
    let mut i: usize = 0;
    assert(chars@.take(0) =~= Seq::<char>::empty());
    assert(names_view(open@) =~= Seq::<Seq<char>>::empty());
    while i < n
        invariant
            i <= n,
            n == chars@.len(),
            scan(chars@.take(i as int)) == (Scan {
                open: names_view(open@),
                ok,
                tag: match tag {
                    Some(t) => Some(t@),
                    None => None,
                },
            }),
        decreases n - i,
    {
        let c = chars[i];
        proof {
            assert(chars@.take(i + 1).drop_last() =~= chars@.take(i as int));
            assert(chars@.take(i + 1).last() == c);
        }
        let ghost names = names_view(open@);
        if ok {
            match tag {
                None => {
                    if c == '<' {
                        tag = Some(Vec::new());
                    }
                },
                Some(mut t) => {
                    if c != '>' {
                        t.push(c);
                        tag = Some(t);
                    } else if t.len() > 0 && t[0] == '/' {
                        let m = open.len();
                        if m > 0 && closes_name(&t, &open[m - 1]) {
                            open.pop();
                            assert(names_view(open@) =~= names.drop_last());
                        } else {
                            ok = false;
                        }
                        tag = None;
                    } else {
                        let name = name_of(&t);
                        if !is_void_name(&name) {
                            open.push(name);
                            assert(names_view(open@) =~= names.push(name@));
                        }
                        tag = None;
                    }
                },
            }
        }
        i += 1;
    }
    assert(chars@.take(n as int) =~= chars@);
    let done = ok && tag.is_none() && open.len() == 0;
    assert(done == (scan(text@) == between(Seq::empty()))) by {
        if open.len() == 0 {
            assert(names_view(open@) =~= Seq::<Seq<char>>::empty());
        }
    }
    done
}

} // verus!
