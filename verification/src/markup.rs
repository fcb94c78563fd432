//! The HTML text of single tags.

use crate::attributes::{AttributeSeq, Attributes};
use crate::ir_markup::{
    Alignment, Container, ContainerEnd, ContainerEndView, ContainerView, ListKind,
    OrderedListNumbering,
};
use crate::text::{decimal, escape_attr, escape_attr_text, push_decimal};
use vstd::prelude::*;
use vstd::string::*;

verus! {

/// One attribute as it stands inside a tag: a space, the name, and the quoted value.
pub open spec fn attr_text(name: Seq<char>, value: Seq<char>) -> Seq<char> {
    " "@ + name + "=\""@ + escape_attr(value) + "\""@
}

/// The attributes of a set, one after the other.
pub open spec fn attrs_text(attrs: AttributeSeq) -> Seq<char>
    decreases attrs.len(),
{
    if attrs.len() == 0 {
        Seq::empty()
    } else {
        attrs_text(attrs.drop_last()) + attr_text(attrs.last().0, attrs.last().1.text())
    }
}

/// The element name of a heading: levels above six are written as level six.
pub open spec fn heading_tag(level: u16) -> Seq<char> {
    if level == 1 {
        "h1"@
    } else if level == 2 {
        "h2"@
    } else if level == 3 {
        "h3"@
    } else if level == 4 {
        "h4"@
    } else if level == 5 {
        "h5"@
    } else {
        "h6"@
    }
}

/// The `type` attribute of an ordered list: absent for decimal numbering.
pub open spec fn numbering_text(numbering: OrderedListNumbering) -> Seq<char> {
    match numbering {
        OrderedListNumbering::Decimal => Seq::empty(),
        OrderedListNumbering::AlphaLower => attr_text("type"@, "a"@),
        OrderedListNumbering::AlphaUpper => attr_text("type"@, "A"@),
        OrderedListNumbering::RomanLower => attr_text("type"@, "i"@),
        OrderedListNumbering::RomanUpper => attr_text("type"@, "I"@),
    }
}

/// The `start` attribute of an ordered list: absent when the list starts at one.
pub open spec fn list_start_text(start: u64) -> Seq<char> {
    if start == 1 {
        Seq::empty()
    } else {
        attr_text("start"@, decimal(start as nat))
    }
}

/// The `style` attribute of a table cell: absent when no alignment is asked for.
pub open spec fn alignment_text(alignment: Alignment) -> Seq<char> {
    match alignment {
        Alignment::Unspecified => Seq::empty(),
        Alignment::Left => attr_text("style"@, "text-align: left;"@),
        Alignment::Center => attr_text("style"@, "text-align: center;"@),
        Alignment::Right => attr_text("style"@, "text-align: right;"@),
    }
}

/// The anchor target of the footnote with the given number.
pub open spec fn footnote_id(number: nat) -> Seq<char> {
    "fn-"@ + decimal(number)
}

/// An opening tag with the text of its attributes.
pub open spec fn open_text(tag: Seq<char>, attributes: Seq<char>) -> Seq<char> {
    "<"@ + tag + attributes + ">"@
}

/// The attributes of the opening tag of a footnote definition.
pub open spec fn footnote_attrs_text(attrs: AttributeSeq, number: nat) -> Seq<char> {
    attrs_text(attrs) + attr_text("class"@, "footnote-definition"@) + attr_text(
        "id"@,
        footnote_id(number),
    ) + attr_text("role"@, "doc-footnote"@)
}

/// The opening tag of a list.
pub open spec fn list_open_text(kind: ListKind, attrs: AttributeSeq) -> Seq<char> {
    match kind {
        ListKind::Unordered => open_text("ul"@, attrs_text(attrs)),
        ListKind::Ordered { numbering, start } => open_text(
            "ol"@,
            attrs_text(attrs) + numbering_text(numbering) + list_start_text(start),
        ),
        ListKind::Task => open_text("ul"@, attrs_text(attrs) + attr_text("class"@, "task-list"@)),
    }
}

/// The attributes that mark a task as done or not done.
pub open spec fn task_text(checked: bool) -> Seq<char> {
    if checked {
        attr_text("class"@, "checked"@) + attr_text("data-checked"@, "true"@)
    } else {
        attr_text("class"@, "unchecked"@) + attr_text("data-checked"@, "false"@)
    }
}

/// What opens a container. `number` is the number of the footnote that the container
/// defines; other containers do not look at it.
pub open spec fn start_text(c: ContainerView, attrs: AttributeSeq, number: nat) -> Seq<char> {
    match c {
        ContainerView::Blockquote => open_text("blockquote"@, attrs_text(attrs)),
        ContainerView::DescriptionList => open_text("dl"@, attrs_text(attrs)),
        ContainerView::DescriptionTerm => open_text("dt"@, attrs_text(attrs)),
        ContainerView::DescriptionDetails => open_text("dd"@, attrs_text(attrs)),
        ContainerView::Heading { level, id } => open_text(heading_tag(level), attrs_text(attrs))
            + open_text("a"@, attr_text("href"@, "#"@ + id)),
        ContainerView::Section { id } => open_text(
            "section"@,
            attrs_text(attrs) + attr_text("id"@, id),
        ),
        ContainerView::Div => open_text("div"@, attrs_text(attrs)),
        ContainerView::Paragraph => open_text("p"@, attrs_text(attrs)),
        ContainerView::Link { destination } => open_text(
            "a"@,
            attrs_text(attrs) + attr_text("href"@, destination),
        ),
        ContainerView::List { kind, tight } => list_open_text(kind, attrs),
        ContainerView::ListItem => open_text("li"@, attrs_text(attrs)),
        ContainerView::TaskListItem { checked } => open_text(
            "li"@,
            attrs_text(attrs) + task_text(checked),
        ),
        ContainerView::Table => open_text("table"@, attrs_text(attrs)),
        ContainerView::TableHead => open_text("thead"@, attrs_text(attrs)),
        ContainerView::TableBody => open_text("tbody"@, attrs_text(attrs)),
        ContainerView::TableRow => open_text("tr"@, attrs_text(attrs)),
        ContainerView::TableCell { alignment, head } => open_text(
            if head {
                "th"@
            } else {
                "td"@
            },
            alignment_text(alignment),
        ),
        ContainerView::Footnote { label } => open_text("li"@, footnote_attrs_text(attrs, number)),
        ContainerView::Other { tag } => open_text(tag, attrs_text(attrs)),
    }
}

/// What closes a container.
pub open spec fn end_text(c: ContainerEndView) -> Seq<char> {
    match c {
        ContainerEndView::Blockquote => "</blockquote>"@,
        ContainerEndView::DescriptionList => "</dl>\n"@,
        ContainerEndView::DescriptionTerm => "</dt>"@,
        ContainerEndView::DescriptionDetails => "</dd>"@,
        ContainerEndView::Heading { level } => "</a></"@ + heading_tag(level) + ">\n"@,
        ContainerEndView::Section => "</section>\n"@,
        ContainerEndView::Div => "</div>\n"@,
        ContainerEndView::Paragraph => "</p>\n"@,
        ContainerEndView::Link => "</a>"@,
        ContainerEndView::List { kind } => match kind {
            ListKind::Ordered { numbering, start } => "</ol>\n"@,
            _ => "</ul>\n"@,
        },
        ContainerEndView::ListItem => "</li>\n"@,
        ContainerEndView::TaskListItem => "</li>\n"@,
        ContainerEndView::Table => "</table>\n"@,
        ContainerEndView::TableHead => "</thead>\n"@,
        ContainerEndView::TableBody => "</tbody>\n"@,
        ContainerEndView::TableRow => "</tr>\n"@,
        ContainerEndView::TableCell { head } => if head {
            "</th>\n"@
        } else {
            "</td>\n"@
        },
        ContainerEndView::Footnote => "</li>\n"@,
        ContainerEndView::Other { tag } => "</"@ + tag + ">"@,
    }
}

/// Appends one attribute to a tag under construction.
pub fn push_attr(t: &mut String, name: &str, value: &str)
    ensures
        final(t)@ == old(t)@ + attr_text(name@, value@),
{
    t.append(" ");
    t.append(name);
    t.append("=\"");
    escape_attr_text(t, value);
    t.append("\"");
    assert(t@ =~= old(t)@ + attr_text(name@, value@));
}

/// Appends the attributes of a set to a tag under construction.
pub fn push_attrs(t: &mut String, attrs: &Attributes)
    ensures
        final(t)@ == old(t)@ + attrs_text(attrs@),
{
    let n = attrs.len();
    let mut i: usize = 0;
    assert(attrs@.take(0) =~= Seq::empty());
    assert(t@ =~= old(t)@ + attrs_text(attrs@.take(0)));
    while i < n
        invariant
            i <= n,
            n == attrs@.len(),
            t@ == old(t)@ + attrs_text(attrs@.take(i as int)),
        decreases n - i,
    {
        push_attr(t, attrs.name_at(i), attrs.value_at(i).as_str());
        proof {
            let next = attrs@.take(i + 1);
            assert(next.drop_last() =~= attrs@.take(i as int));
            assert(next.last() == attrs@[i as int]);
            assert(t@ =~= old(t)@ + attrs_text(next));
        }
        i += 1;
    }
    assert(attrs@.take(n as int) =~= attrs@);
}

/// An opening tag for the attribute text given.
pub fn open_tag(tag: &str, attributes: &str) -> (t: String)
    ensures
        t@ == open_text(tag@, attributes@),
{
    let mut t = String::new();
    t.append("<");
    t.append(tag);
    t.append(attributes);
    t.append(">");
    assert(t@ =~= open_text(tag@, attributes@));
    t
}

/// The text of the attributes of a set.
pub fn attrs_string(attrs: &Attributes) -> (t: String)
    ensures
        t@ == attrs_text(attrs@),
{
    let mut t = String::new();
    push_attrs(&mut t, attrs);
    assert(t@ =~= attrs_text(attrs@));
    t
}

fn heading_tag_of(level: u16) -> (t: &'static str)
    ensures
        t@ == heading_tag(level),
{
    if level == 1 {
        "h1"
    } else if level == 2 {
        "h2"
    } else if level == 3 {
        "h3"
    } else if level == 4 {
        "h4"
    } else if level == 5 {
        "h5"
    } else {
        "h6"
    }
}

fn push_list_attrs(t: &mut String, kind: ListKind)
    ensures
        kind is Unordered ==> final(t)@ == old(t)@,
        kind matches ListKind::Ordered { numbering, start } ==> final(t)@ == old(t)@
            + numbering_text(numbering) + list_start_text(start),
        kind is Task ==> final(t)@ == old(t)@ + attr_text("class"@, "task-list"@),
{
    match kind {
        ListKind::Unordered => {},
        ListKind::Ordered { numbering, start } => {
            match numbering {
                OrderedListNumbering::Decimal => {},
                OrderedListNumbering::AlphaLower => push_attr(t, "type", "a"),
                OrderedListNumbering::AlphaUpper => push_attr(t, "type", "A"),
                OrderedListNumbering::RomanLower => push_attr(t, "type", "i"),
                OrderedListNumbering::RomanUpper => push_attr(t, "type", "I"),
            }
            assert(t@ =~= old(t)@ + numbering_text(numbering));
            if start != 1 {
                let mut digits = String::new();
                push_decimal(&mut digits, start);
                assert(digits@ =~= decimal(start as nat));
                push_attr(t, "start", digits.as_str());
            }
            assert(t@ =~= old(t)@ + numbering_text(numbering) + list_start_text(start));
        },
        ListKind::Task => push_attr(t, "class", "task-list"),
    }
}

fn push_alignment(t: &mut String, alignment: Alignment)
    ensures
        final(t)@ == old(t)@ + alignment_text(alignment),
{
    match alignment {
        Alignment::Unspecified => {
            assert(t@ =~= old(t)@ + alignment_text(alignment));
        },
        Alignment::Left => push_attr(t, "style", "text-align: left;"),
        Alignment::Center => push_attr(t, "style", "text-align: center;"),
        Alignment::Right => push_attr(t, "style", "text-align: right;"),
    }
}

/// The text of the anchor target of a footnote.
pub fn footnote_id_of(number: usize) -> (t: String)
    ensures
        t@ == footnote_id(number as nat),
{
    let mut t = String::new();
    t.append("fn-");
    push_decimal(&mut t, number as u64);
    assert(t@ =~= footnote_id(number as nat));
    t
}

/// The attributes of the opening tag of a footnote definition.
pub fn footnote_attrs_of(attrs: &Attributes, number: usize) -> (t: String)
    ensures
        t@ == footnote_attrs_text(attrs@, number as nat),
{
    let mut t = attrs_string(attrs);
    push_attr(&mut t, "class", "footnote-definition");
    let id = footnote_id_of(number);
    push_attr(&mut t, "id", id.as_str());
    push_attr(&mut t, "role", "doc-footnote");
    t
}

/// The text that opens a container.
pub fn start_text_of(c: &Container, attrs: &Attributes, number: usize) -> (t: String)
    ensures
        t@ == start_text(c@, attrs@, number as nat),
{
    match c {
        Container::Blockquote => open_tag("blockquote", attrs_string(attrs).as_str()),
        Container::DescriptionList => open_tag("dl", attrs_string(attrs).as_str()),
        Container::DescriptionTerm => open_tag("dt", attrs_string(attrs).as_str()),
        Container::DescriptionDetails => open_tag("dd", attrs_string(attrs).as_str()),
        Container::Heading { level, id } => {
            let mut t = open_tag(heading_tag_of(*level), attrs_string(attrs).as_str());
            let mut target = String::new();
            target.append("#");
            target.append(id.as_str());
            assert(target@ =~= "#"@ + id@);
            let mut href = String::new();
            push_attr(&mut href, "href", target.as_str());
            assert(href@ =~= attr_text("href"@, "#"@ + id@));
            let anchor = open_tag("a", href.as_str());
            t.append(anchor.as_str());
            t
        },
        Container::Section { id } => {
            let mut a = attrs_string(attrs);
            push_attr(&mut a, "id", id.as_str());
            open_tag("section", a.as_str())
        },
        Container::Div => open_tag("div", attrs_string(attrs).as_str()),
        Container::Paragraph => open_tag("p", attrs_string(attrs).as_str()),
        Container::Link { destination } => {
            let mut a = attrs_string(attrs);
            push_attr(&mut a, "href", destination.as_str());
            open_tag("a", a.as_str())
        },
        Container::List { kind, tight } => {
            let mut a = attrs_string(attrs);
            push_list_attrs(&mut a, *kind);
            match kind {
                ListKind::Ordered { numbering, start } => open_tag("ol", a.as_str()),
                _ => open_tag("ul", a.as_str()),
            }
        },
        Container::ListItem => open_tag("li", attrs_string(attrs).as_str()),
        Container::TaskListItem { checked } => {
            let mut a = attrs_string(attrs);
            if *checked {
                push_attr(&mut a, "class", "checked");
                push_attr(&mut a, "data-checked", "true");
            } else {
                push_attr(&mut a, "class", "unchecked");
                push_attr(&mut a, "data-checked", "false");
            }
            assert(a@ =~= attrs_text(attrs@) + task_text(*checked));
            open_tag("li", a.as_str())
        },
        Container::Table => open_tag("table", attrs_string(attrs).as_str()),
        Container::TableHead => open_tag("thead", attrs_string(attrs).as_str()),
        Container::TableBody => open_tag("tbody", attrs_string(attrs).as_str()),
        Container::TableRow => open_tag("tr", attrs_string(attrs).as_str()),
        Container::TableCell { alignment, head } => {
            let mut a = String::new();
            push_alignment(&mut a, *alignment);
            assert(a@ =~= alignment_text(*alignment));
            if *head {
                open_tag("th", a.as_str())
            } else {
                open_tag("td", a.as_str())
            }
        },
        Container::Footnote { label } => open_tag("li", footnote_attrs_of(attrs, number).as_str()),
        Container::Other { tag } => open_tag(tag.as_str(), attrs_string(attrs).as_str()),
    }
}

/// The text that closes a container.
pub fn end_text_of(c: &ContainerEnd) -> (t: String)
    ensures
        t@ == end_text(c@),
{
    let mut t = String::new();
    match c {
        ContainerEnd::Blockquote => t.append("</blockquote>"),
        ContainerEnd::DescriptionList => t.append("</dl>\n"),
        ContainerEnd::DescriptionTerm => t.append("</dt>"),
        ContainerEnd::DescriptionDetails => t.append("</dd>"),
        ContainerEnd::Heading { level } => {
            t.append("</a></");
            t.append(heading_tag_of(*level));
            t.append(">\n");
        },
        ContainerEnd::Section => t.append("</section>\n"),
        ContainerEnd::Div => t.append("</div>\n"),
        ContainerEnd::Paragraph => t.append("</p>\n"),
        ContainerEnd::Link => t.append("</a>"),
        ContainerEnd::List { kind } => match kind {
            ListKind::Ordered { numbering, start } => t.append("</ol>\n"),
            _ => t.append("</ul>\n"),
        },
        ContainerEnd::ListItem => t.append("</li>\n"),
        ContainerEnd::TaskListItem => t.append("</li>\n"),
        ContainerEnd::Table => t.append("</table>\n"),
        ContainerEnd::TableHead => t.append("</thead>\n"),
        ContainerEnd::TableBody => t.append("</tbody>\n"),
        ContainerEnd::TableRow => t.append("</tr>\n"),
        ContainerEnd::TableCell { head } => if *head {
            t.append("</th>\n")
        } else {
            t.append("</td>\n")
        },
        ContainerEnd::Footnote => t.append("</li>\n"),
        ContainerEnd::Other { tag } => {
            t.append("</");
            t.append(tag.as_str());
            t.append(">");
        },
    }
    assert(t@ =~= end_text(c@));
    t
}

} // verus!
