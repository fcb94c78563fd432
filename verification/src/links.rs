//! Two steps that work on the whole of a document before it is rendered: taking out the
//! title, and resolving links to other entries.

use crate::bits::MAX_BITS;
use crate::ir_markup::{
    events_view, warnings_view, Container, ContainerView, Error, ErrorView, Event, EventView,
    Warning, WarningView,
};
use crate::span::{container_end_inside, nestings, span_end_inside};
use crate::table::Table;
use crate::text::{push_char, trim_end, without_trailing_space};
use crate::writer::{push_html, rendered, rendered_warnings};
use vstd::prelude::*;
use vstd::string::*;

verus! {

/// Whether a document starts with a title: a section whose first child is a heading of
/// level one.
pub open spec fn has_title(events: Seq<EventView>) -> bool {
    &&& events.len() >= 2
    &&& events[0] matches EventView::Start { container: ContainerView::Section { id }, attributes }
    &&& events[1] matches EventView::Start {
        container: ContainerView::Heading { level, id },
        attributes,
    }
    &&& level == 1
}

/// The position of the end of the title heading; the length of the document where the
/// heading is not closed.
pub open spec fn title_end(events: Seq<EventView>) -> int {
    span_end_inside(nestings(events), 2)
}

/// The title of a document: what stands in its title heading, rendered, without the
/// white space at its end.
pub open spec fn title_of(events: Seq<EventView>) -> Option<Seq<char>> {
    if has_title(events) {
        Some(without_trailing_space(rendered(Seq::empty(), events.subrange(2, title_end(events)))))
    } else {
        None
    }
}

/// What there is to warn of in the title of a document: what rendering the content of
/// its title heading warns of.
pub open spec fn title_warnings(events: Seq<EventView>) -> Seq<WarningView> {
    if has_title(events) {
        rendered_warnings(Seq::empty(), events.subrange(2, title_end(events)))
    } else {
        Seq::empty()
    }
}

/// The position of the first event behind the title heading.
pub open spec fn after_title(events: Seq<EventView>) -> int {
    if title_end(events) < events.len() {
        title_end(events) + 1
    } else {
        events.len() as int
    }
}

/// The document without its title heading. A document without title stays as it is.
pub open spec fn without_title(events: Seq<EventView>) -> Seq<EventView> {
    if has_title(events) {
        events.take(1) + events.skip(after_title(events))
    } else {
        events
    }
}

/// Whether a document starts with a title.
fn starts_with_title(events: &Vec<Event>) -> (r: bool)
    ensures
        r == has_title(events_view(events@)),
{
    if events.len() < 2 {
        return false;
    }
    assert(events_view(events@)[0] == events@[0]@);
    assert(events_view(events@)[1] == events@[1]@);
    let section = match &events[0] {
        Event::Start { container: Container::Section { id }, attributes } => true,
        _ => false,
    };
    let heading = match &events[1] {
        Event::Start { container: Container::Heading { level, id }, attributes } => *level == 1,
        _ => false,
    };
    section && heading
}

/// Takes the title out of a document: where the document starts with a section whose
/// first child is a heading of level one, the content of that heading is rendered and
/// returned without white space at its end, and the heading is removed from the
/// document. Any other document stays as it is. With the title comes what rendering it
/// warns of.
pub fn parse_and_render_title(events: &mut Vec<Event>) -> (r: (Option<String>, Vec<Warning>))
    requires
        old(events)@.len() <= MAX_BITS,
    ensures
        match r.0 {
            Some(t) => title_of(events_view(old(events)@)) == Some(t@),
            None => title_of(events_view(old(events)@)) is None,
        },
        warnings_view(r.1@) == title_warnings(events_view(old(events)@)),
        events_view(final(events)@) == without_title(events_view(old(events)@)),
{
    let ghost evs = events_view(events@);
    if !starts_with_title(events) {
        let none: Vec<Warning> = Vec::new();
        assert(warnings_view(none@) =~= Seq::empty());
        return (None, none);
    }
    let end = container_end_inside(events, 2);
    let mut inner: Vec<Event> = Vec::new();
    let mut i: usize = 2;
    while i < end
        invariant
            2 <= i <= end <= events@.len(),
            inner@.len() == i - 2,
            forall|j: int| 0 <= j < inner@.len() ==> (#[trigger] inner@[j])@ == events@[j + 2]@,
        decreases end - i,
    {
        inner.push(events[i].duplicate());
        i += 1;
    }
    assert(events_view(inner@) =~= evs.subrange(2, end as int));
    let mut rendered_title = String::new();
    let warnings = push_html(&mut rendered_title, &inner);
    let title = trim_end(rendered_title.as_str()).to_owned();
    let after = if end < events.len() {
        end + 1
    } else {
        events.len()
    };
    let mut tail = events.split_off(after);
    events.truncate(1);
    events.append(&mut tail);
    assert(events_view(events@) =~= evs.take(1) + evs.skip(after as int));
    (Some(title), warnings)
}

/// An entry that links can point to.
#[derive(Clone, Debug, PartialEq, Eq)]
pub struct EntryRef {
    /// The position of the entry in the list of all entries.
    pub index: usize,
    /// The address under which the entry is published.
    pub permalink: String,
}

/// Whether the name at `i` stands in the list before `i` too.
pub open spec fn is_repeated(names: Seq<String>, i: int) -> bool {
    exists|j: int| 0 <= j < i && #[trigger] names[j]@ == names[i]@
}

/// Whether `table` names the entries: under the name of each entry stand its position
/// in the list and its address, and under no other name stands anything.
pub open spec fn names_entries(
    table: Map<Seq<char>, EntryRef>,
    names: Seq<String>,
    permalinks: Seq<String>,
) -> bool {
    &&& forall|name: Seq<char>| #[trigger]
        table.contains_key(name) <==> exists|i: int|
            0 <= i < names.len() && #[trigger] names[i]@ == name
    &&& forall|i: int|
        0 <= i < names.len() ==> (#[trigger] table[names[i]@]).index == i
            && table[names[i]@].permalink@ == permalinks[i]@
}

/// The table by which links find the entries of a site. Entry `i` has the name
/// `names[i]` and the address `permalinks[i]`. No two entries may share a name: where
/// some do, the result is the position of the first entry whose name an earlier entry
/// has.
pub fn entries_table(names: &Vec<String>, permalinks: &Vec<String>) -> (r: Result<
    Table<EntryRef>,
    usize,
>)
    requires
        names@.len() == permalinks@.len(),
    ensures
        match r {
            Ok(table) => names_entries(table@, names@, permalinks@) && forall|i: int|
                0 <= i < names@.len() ==> !is_repeated(names@, i),
            Err(i) => i < names@.len() && is_repeated(names@, i as int) && forall|k: int|
                0 <= k < i ==> !is_repeated(names@, k),
        },
{
    let mut table: Table<EntryRef> = Table::new();
    let n = names.len();
    let mut i: usize = 0;
    while i < n
        invariant
            i <= n,
            n == names@.len(),
            n == permalinks@.len(),
            names_entries(table@, names@.take(i as int), permalinks@.take(i as int)),
            forall|k: int| 0 <= k < i ==> !is_repeated(names@, k),
        decreases n - i,
    {
        let ghost before = table@;
        let ghost seen = names@.take(i as int);
        let name = names[i].as_str();
        if table.get(name).is_some() {
            proof {
                let j = choose|j: int| 0 <= j < seen.len() && #[trigger] seen[j]@ == name@;
                assert(names@[j]@ == names@[i as int]@);
            }
            return Err(i);
        }
        proof {
            if is_repeated(names@, i as int) {
                let j = choose|j: int| 0 <= j < i && #[trigger] names@[j]@ == names@[i as int]@;
                assert(seen[j]@ == name@);
                assert(before.contains_key(name@));
            }
        }
        table.insert(name, EntryRef { index: i, permalink: permalinks[i].clone() });
        proof {
            let now = names@.take(i + 1);
            let addresses = permalinks@.take(i + 1);
            assert forall|other: Seq<char>| #[trigger]
                table@.contains_key(other) <==> exists|k: int|
                    0 <= k < now.len() && #[trigger] now[k]@ == other by {
                if table@.contains_key(other) {
                    if other == name@ {
                        assert(now[i as int]@ == other);
                    } else {
                        assert(before.contains_key(other));
                        let k = choose|k: int| 0 <= k < seen.len() && #[trigger] seen[k]@ == other;
                        assert(now[k]@ == other);
                    }
                }
                if exists|k: int| 0 <= k < now.len() && #[trigger] now[k]@ == other {
                    let k = choose|k: int| 0 <= k < now.len() && #[trigger] now[k]@ == other;
                    if k < i {
                        assert(seen[k]@ == other);
                        assert(before.contains_key(other));
                    }
                }
            }
            assert forall|k: int| 0 <= k < now.len() implies (#[trigger] table@[now[k]@]).index
                == k && table@[now[k]@].permalink@ == addresses[k]@ by {
                if k < i {
                    assert(seen[k]@ == now[k]@);
                    assert(before.contains_key(seen[k]@));
                    assert(before[seen[k]@].index == k);
                    assert(now[k]@ != name@);
                }
            }
        }
        i += 1;
    }
    assert(names@.take(n as int) =~= names@);
    assert(permalinks@.take(n as int) =~= permalinks@);
    Ok(table)
}

/// Whether a destination points to an entry by its name: such a destination starts with
/// `~/`.
pub open spec fn is_internal(destination: Seq<char>) -> bool {
    destination.len() >= 2 && destination[0] == '~' && destination[1] == '/'
}

/// The position of the first `#` of a destination from `i` on; its length where there is
/// none.
pub open spec fn fragment_start(destination: Seq<char>, i: int) -> int
    decreases destination.len() - i,
{
    if i < 0 || i >= destination.len() {
        destination.len() as int
    } else if destination[i] == '#' {
        i
    } else {
        fragment_start(destination, i + 1)
    }
}

/// The name of the entry that an internal destination points to: what stands between
/// the prefix and the fragment.
pub open spec fn target_name(destination: Seq<char>) -> Seq<char> {
    destination.subrange(2, fragment_start(destination, 2))
}

/// The fragment of an internal destination, with its `#`; empty where it has none.
pub open spec fn target_fragment(destination: Seq<char>) -> Seq<char> {
    destination.skip(fragment_start(destination, 2))
}

/// Whether a destination needs no entry or names one that exists.
pub open spec fn resolves(destination: Seq<char>, entries: Map<Seq<char>, EntryRef>) -> bool {
    is_internal(destination) ==> entries.contains_key(target_name(destination))
}

/// The destination as it is written out: an internal one becomes the address of its
/// entry, followed by the fragment; any other stays.
pub open spec fn resolved(destination: Seq<char>, entries: Map<Seq<char>, EntryRef>) -> Seq<
    char,
> {
    if is_internal(destination) && entries.contains_key(target_name(destination)) {
        entries[target_name(destination)].permalink@ + target_fragment(destination)
    } else {
        destination
    }
}

/// The destination of a link or an image; nothing for any other event.
pub open spec fn destination_of(e: EventView) -> Option<Seq<char>> {
    match e {
        EventView::Start { container: ContainerView::Link { destination }, attributes } => Some(
            destination,
        ),
        EventView::Image { destination, alt, attributes } => Some(destination),
        _ => None,
    }
}

/// An event with its destination resolved.
pub open spec fn link_rewritten(e: EventView, entries: Map<Seq<char>, EntryRef>) -> EventView {
    match e {
        EventView::Start {
            container: ContainerView::Link { destination },
            attributes,
        } => EventView::Start {
            container: ContainerView::Link { destination: resolved(destination, entries) },
            attributes,
        },
        EventView::Image { destination, alt, attributes } => EventView::Image {
            destination: resolved(destination, entries),
            alt,
            attributes,
        },
        _ => e,
    }
}

/// The events with every destination resolved.
pub open spec fn links_rewritten(events: Seq<EventView>, entries: Map<Seq<char>, EntryRef>) -> Seq<
    EventView,
> {
    events.map_values(|e: EventView| link_rewritten(e, entries))
}

/// The position of the first event from `i` on whose destination does not resolve; the
/// length of the sequence where every destination resolves.
pub open spec fn first_unresolved(
    events: Seq<EventView>,
    entries: Map<Seq<char>, EntryRef>,
    i: int,
) -> int
    decreases events.len() - i,
{
    if i < 0 || i >= events.len() {
        events.len() as int
    } else if destination_of(events[i]) matches Some(d) && !resolves(d, entries) {
        i
    } else {
        first_unresolved(events, entries, i + 1)
    }
}

/// Whether the entry with the given index is the target of an internal link of the
/// document. Images do not count.
pub open spec fn is_linked(events: Seq<EventView>, entries: Map<Seq<char>, EntryRef>, index: int) -> bool {
    exists|i: int|
        0 <= i < events.len() && #[trigger] links_to(events[i], entries, index)
}

/// Whether the event is the start of an internal link to the entry with the given index.
pub open spec fn links_to(e: EventView, entries: Map<Seq<char>, EntryRef>, index: int) -> bool {
    e matches EventView::Start { container: ContainerView::Link { destination }, attributes }
        && is_internal(destination) && entries.contains_key(target_name(destination))
        && entries[target_name(destination)].index == index
}

/// Strictly increasing: sorted, and nothing occurs twice.
pub open spec fn strictly_increasing(s: Seq<usize>) -> bool {
    forall|i: int, j: int| 0 <= i < j < s.len() ==> s[i] < s[j]
}

proof fn lemma_fragment_start_bounds(d: Seq<char>, i: int)
    requires
        0 <= i <= d.len(),
    ensures
        i <= fragment_start(d, i) <= d.len(),
        fragment_start(d, i) < d.len() ==> d[fragment_start(d, i)] == '#',
        forall|j: int| i <= j < fragment_start(d, i) ==> d[j] != '#',
    decreases d.len() - i,
{
    if i < d.len() && d[i] != '#' {
        lemma_fragment_start_bounds(d, i + 1);
    }
}

/// Splits an internal destination into the name of its entry and its fragment. `None`
/// for a destination that is not internal.
pub fn split_internal(destination: &str) -> (r: Option<(String, String)>)
    ensures
        match r {
            Some((name, fragment)) => is_internal(destination@) && name@ == target_name(
                destination@,
            ) && fragment@ == target_fragment(destination@),
            None => !is_internal(destination@),
        },
{
    let ghost d = destination@;
    let mut name = String::new();
    let mut fragment = String::new();
    let mut internal = true;
    let mut in_fragment = false;
    let mut seen: u8 = 0;
    let ghost f = fragment_start(d, 2);
    proof {
        if d.len() >= 2 {
            lemma_fragment_start_bounds(d, 2);
        }
    }
    for c in it: destination.chars()
        invariant
            it.seq() == d,
            seen == if it.index() < 2 {
                it.index() as int
            } else {
                2
            },
            f == fragment_start(d, 2),
            d.len() >= 2 ==> 2 <= f <= d.len() && (f < d.len() ==> d[f] == '#') && (forall|j: int|
                2 <= j < f ==> d[j] != '#'),
            internal == ((it.index() >= 1 ==> d[0] == '~') && (it.index() >= 2 ==> d[1] == '/')),
            internal && it.index() >= 2 ==> {
                &&& in_fragment == (it.index() > f)
                &&& !in_fragment ==> name@ == d.subrange(2, it.index() as int) && fragment@.len()
                    == 0
                &&& in_fragment ==> name@ == d.subrange(2, f) && fragment@ == d.subrange(
                    f,
                    it.index() as int,
                )
            },
            it.index() < 2 ==> name@.len() == 0 && fragment@.len() == 0 && !in_fragment,
    {
        let ghost k = it.index() as int;
        if seen == 0 {
            if c != '~' {
                internal = false;
            }
            seen = 1;
        } else if seen == 1 {
            if c != '/' {
                internal = false;
            }
            seen = 2;
            proof {
                if internal {
                    assert(name@ =~= d.subrange(2, 2));
                }
            }
        } else if internal {
            if in_fragment || c == '#' {
                proof {
                    if !in_fragment {
                        assert(k == f);
                        assert(fragment@ =~= d.subrange(f, k));
                    }
                }
                in_fragment = true;
                push_char(&mut fragment, c);
                assert(fragment@ =~= d.subrange(f, k + 1));
            } else {
                push_char(&mut name, c);
                assert(name@ =~= d.subrange(2, k + 1));
            }
        }
    }
    if !internal || seen < 2 {
        return None;
    }
    proof {
        if in_fragment {
            assert(fragment@ =~= d.skip(f));
        } else {
            assert(f == d.len());
            assert(fragment@ =~= d.skip(f));
        }
    }
    Some((name, fragment))
}

/// Puts `x` into a list that is kept in increasing order, unless it is there already.
pub fn insert_sorted(v: &mut Vec<usize>, x: usize)
    requires
        strictly_increasing(old(v)@),
    ensures
        strictly_increasing(final(v)@),
        forall|y: usize| final(v)@.contains(y) <==> (old(v)@.contains(y) || y == x),
{
    let n = v.len();
    let mut i: usize = 0;
    while i < n && v[i] < x
        invariant
            i <= n,
            n == v@.len(),
            *v == *old(v),
            strictly_increasing(v@),
            forall|j: int| 0 <= j < i ==> v@[j] < x,
        decreases n - i,
    {
        i += 1;
    }
    if i < n && v[i] == x {
        assert(v@.contains(x));
        return ;
    }
    let ghost before = v@;
    assert(before == old(v)@);
    v.insert(i, x);
    proof {
        assert(v@ =~= before.insert(i as int, x));
        assert forall|a: int, b: int| 0 <= a < b < v@.len() implies v@[a] < v@[b] by {
            if b < i {
                assert(v@[a] == before[a] && v@[b] == before[b]);
            } else if b == i {
                assert(v@[a] == before[a]);
            } else if a == i {
                assert(v@[b] == before[b - 1]);
                if b - 1 > i {
                    assert(before[i as int] < before[b - 1]);
                }
            } else if a < i {
                assert(v@[a] == before[a] && v@[b] == before[b - 1]);
                if a < b - 1 {
                    assert(before[a] < before[b - 1]);
                }
                assert(before[a] < x);
                assert(before[b - 1] >= before[i as int]) by {
                    if b - 1 > i {
                        assert(before[i as int] < before[b - 1]);
                    }
                }
            } else {
                assert(v@[a] == before[a - 1] && v@[b] == before[b - 1]);
            }
        }
        assert forall|y: usize| #[trigger] v@.contains(y) <==> (old(v)@.contains(y) || y == x) by {
            if v@.contains(y) {
                let k = choose|k: int| 0 <= k < v@.len() && v@[k] == y;
                if k < i {
                    assert(before[k] == y);
                } else if k > i {
                    assert(before[k - 1] == y);
                }
            }
            if before.contains(y) {
                let k = choose|k: int| 0 <= k < before.len() && before[k] == y;
                if k < i {
                    assert(v@[k] == y);
                } else {
                    assert(v@[k + 1] == y);
                }
            }
            if y == x {
                assert(v@[i as int] == y);
            }
        }
    }
}

proof fn lemma_is_linked_step(
    events: Seq<EventView>,
    entries: Map<Seq<char>, EntryRef>,
    i: int,
    index: int,
)
    requires
        0 <= i < events.len(),
    ensures
        is_linked(events.take(i + 1), entries, index) <==> (is_linked(
            events.take(i),
            entries,
            index,
        ) || links_to(events[i], entries, index)),
{
    let shorter = events.take(i);
    let longer = events.take(i + 1);
    if is_linked(longer, entries, index) {
        let j = choose|j: int| 0 <= j < longer.len() && #[trigger] links_to(longer[j], entries, index);
        if j < i {
            assert(links_to(shorter[j], entries, index));
        }
    }
    if is_linked(shorter, entries, index) {
        let j = choose|j: int|
            0 <= j < shorter.len() && #[trigger] links_to(shorter[j], entries, index);
        assert(links_to(longer[j], entries, index));
    }
    if links_to(events[i], entries, index) {
        assert(links_to(longer[i], entries, index));
    }
}

/// How resolving the links of a document came out.
pub open spec fn links_result(
    events: Seq<EventView>,
    entries: Map<Seq<char>, EntryRef>,
) -> Result<Seq<EventView>, ErrorView> {
    let u = first_unresolved(events, entries, 0);
    if 0 <= u < events.len() && destination_of(events[u]) is Some {
        Err(ErrorView::UnknownInternalLink { destination: destination_of(events[u])->0 })
    } else {
        Ok(links_rewritten(events, entries))
    }
}

/// A document without internal destinations comes through as it is, whatever entries
/// there are.
pub proof fn lemma_external_links_stay(events: Seq<EventView>, entries: Map<Seq<char>, EntryRef>)
    requires
        forall|i: int|
            0 <= i < events.len() ==> (destination_of(#[trigger] events[i]) matches Some(d)
                ==> !is_internal(d)),
    ensures
        links_result(events, entries) == Ok::<Seq<EventView>, ErrorView>(events),
        forall|index: int| !is_linked(events, entries, index),
{
    lemma_all_resolve(events, entries, 0);
    assert(links_rewritten(events, entries) =~= events);
}

proof fn lemma_all_resolve(events: Seq<EventView>, entries: Map<Seq<char>, EntryRef>, i: int)
    requires
        0 <= i <= events.len(),
        forall|j: int|
            0 <= j < events.len() ==> (destination_of(#[trigger] events[j]) matches Some(d)
                ==> resolves(d, entries)),
    ensures
        first_unresolved(events, entries, i) == events.len(),
    decreases events.len() - i,
{
    if i < events.len() {
        lemma_all_resolve(events, entries, i + 1);
    }
}

/// Resolves a destination. The second part of the result is the entry, where the
/// destination names one.
fn resolve(destination: &str, entries: &Table<EntryRef>) -> (r: Option<(String, Option<usize>)>)
    ensures
        match r {
            Some((link, target)) => resolves(destination@, entries@) && link@ == resolved(
                destination@,
                entries@,
            ) && match target {
                Some(index) => is_internal(destination@) && entries@[target_name(
                    destination@,
                )].index == index,
                None => !is_internal(destination@),
            },
            None => !resolves(destination@, entries@),
        },
{
    match split_internal(destination) {
        None => Some((destination.to_owned(), None)),
        Some((name, fragment)) => match entries.get(name.as_str()) {
            Some(entry) => {
                let mut link = entry.permalink.clone();
                link.append(fragment.as_str());
                Some((link, Some(entry.index)))
            },
            None => None,
        },
    }
}

/// Resolves the links of a document to other entries. A destination of the form
/// `~/name#fragment`, on a link or an image, becomes the address of the entry with that
/// name, followed by the fragment. Returns the indices of the entries that links point
/// to, in increasing order and each once.
///
/// A destination that names no entry is an error; the document then stays as it was.
pub fn rewrite_and_emit_internal_links(events: &mut Vec<Event>, entries_by_name: &Table<EntryRef>) -> (r:
    Result<Vec<usize>, Error>)
    ensures
        match r {
            Ok(links) => {
                &&& links_result(events_view(old(events)@), entries_by_name@) == Ok::<
                    Seq<EventView>,
                    ErrorView,
                >(events_view(final(events)@))
                &&& strictly_increasing(links@)
                &&& forall|index: usize|
                    links@.contains(index) <==> is_linked(
                        events_view(old(events)@),
                        entries_by_name@,
                        index as int,
                    )
            },
            Err(e) => {
                &&& links_result(events_view(old(events)@), entries_by_name@) == Err::<
                    Seq<EventView>,
                    ErrorView,
                >(e@)
                &&& final(events)@ == old(events)@
            },
        },
{
    let ghost evs = events_view(events@);
    let ghost entries = entries_by_name@;
    let mut out: Vec<Event> = Vec::new();
    let mut links: Vec<usize> = Vec::new();
    let n = events.len();
    let mut i: usize = 0;
    assert forall|index: usize| links@.contains(index) <==> is_linked(
        evs.take(0),
        entries,
        index as int,
    ) by {}
    while i < n
        invariant
            i <= n,
            n == events@.len(),
            *events == *old(events),
            evs == events_view(events@),
            entries == entries_by_name@,
            out@.len() == i,
            first_unresolved(evs, entries, 0) == first_unresolved(evs, entries, i as int),
            forall|j: int| 0 <= j < i ==> (#[trigger] out@[j])@ == link_rewritten(evs[j], entries),
            strictly_increasing(links@),
            forall|index: usize|
                links@.contains(index) <==> is_linked(evs.take(i as int), entries, index as int),
        decreases n - i,
    {
        assert(evs[i as int] == events@[i as int]@);
        let ghost linked = links@;
        let ghost mut target: Option<usize> = None;
        match &events[i] {
            Event::Start { container: Container::Link { destination }, attributes } => {
                match resolve(destination.as_str(), entries_by_name) {
                    Some((link, to)) => {
                        out.push(
                            Event::Start {
                                container: Container::Link { destination: link },
                                attributes: attributes.duplicate(),
                            },
                        );
                        match to {
                            Some(index) => {
                                insert_sorted(&mut links, index);
                                proof {
                                    target = Some(index);
                                }
                            },
                            None => {},
                        }
                    },
                    None => {
                        return Err(
                            Error::UnknownInternalLink { destination: destination.clone() },
                        );
                    },
                }
            },
            Event::Image { destination, alt, attributes } => {
                match resolve(destination.as_str(), entries_by_name) {
                    Some((link, to)) => {
                        out.push(
                            Event::Image {
                                destination: link,
                                alt: alt.clone(),
                                attributes: attributes.duplicate(),
                            },
                        );
                    },
                    None => {
                        return Err(
                            Error::UnknownInternalLink { destination: destination.clone() },
                        );
                    },
                }
            },
            e => {
                out.push(e.duplicate());
            },
        }
        proof {
            assert forall|index: usize| links@.contains(index) <==> is_linked(
                evs.take(i + 1),
                entries,
                index as int,
            ) by {
                lemma_is_linked_step(evs, entries, i as int, index as int);
                assert(links@.contains(index) <==> (linked.contains(index) || target == Some(
                    index,
                )));
                assert(links_to(evs[i as int], entries, index as int) <==> target == Some(index));
            }
        }
        i += 1;
    }
    assert(evs.take(n as int) =~= evs);
    assert(events_view(out@) =~= links_rewritten(evs, entries));
    *events = out;
    Ok(links)
}

/// The entries that link to the entry with the given index: the positions in `links`
/// of the lists that hold the index.
pub open spec fn linkers_of(links: Seq<Vec<usize>>, index: int) -> Seq<usize>
    decreases links.len(),
{
    if links.len() == 0 {
        Seq::empty()
    } else if links.last()@.contains(index as usize) {
        linkers_of(links.drop_last(), index).push((links.len() - 1) as usize)
    } else {
        linkers_of(links.drop_last(), index)
    }
}

/// Turns links around. `links` holds for each entry the indices of the entries that it
/// links to, each once; the result holds for each of `count` entries the entries that
/// link to it, in increasing order. Links to entries that do not exist are left out.
pub fn back_references(count: usize, links: &Vec<Vec<usize>>) -> (back: Vec<Vec<usize>>)
    requires
        forall|i: int| 0 <= i < links@.len() ==> (#[trigger] links@[i])@.no_duplicates(),
    ensures
        back@.len() == count,
        forall|index: int| 0 <= index < count ==> (#[trigger] back@[index])@ == linkers_of(links@, index),
{
    let mut back: Vec<Vec<usize>> = Vec::new();
    let mut k: usize = 0;
    while k < count
        invariant
            k <= count,
            back@.len() == k,
            forall|index: int| 0 <= index < k ==> (#[trigger] back@[index])@ == linkers_of(links@.take(0), index),
        decreases count - k,
    {
        back.push(Vec::new());
        k += 1;
    }
    let n = links.len();
    let mut i: usize = 0;
    while i < n
        invariant
            i <= n,
            n == links@.len(),
            back@.len() == count,
            forall|i: int| 0 <= i < links@.len() ==> (#[trigger] links@[i])@.no_duplicates(),
            forall|index: int|
                0 <= index < count ==> (#[trigger] back@[index])@ == linkers_of(
                    links@.take(i as int),
                    index,
                ),
        decreases n - i,
    {
        let targets = &links[i];
        let ghost before = back@;
        let m = targets.len();
        let mut j: usize = 0;
        while j < m
            invariant
                j <= m,
                m == targets@.len(),
                i < n,
                n == links@.len(),
                *targets == links@[i as int],
                targets@.no_duplicates(),
                back@.len() == count,
                before.len() == count,
                forall|index: int|
                    0 <= index < count ==> (#[trigger] back@[index])@ == if targets@.take(
                        j as int,
                    ).contains(index as usize) {
                        before[index]@.push(i)
                    } else {
                        before[index]@
                    },
            decreases m - j,
        {
            let target = targets[j];
            proof {
                let seen = targets@.take(j as int);
                let next = targets@.take(j + 1);
                assert(next =~= seen.push(target));
                assert(!seen.contains(target)) by {
                    if seen.contains(target) {
                        let k = choose|k: int| 0 <= k < seen.len() && seen[k] == target;
                        assert(targets@[k] == targets@[j as int]);
                    }
                }
                assert forall|index: int| 0 <= index < count implies (#[trigger] next.contains(
                    index as usize,
                ) <==> (seen.contains(index as usize) || index == target)) by {
                    if next.contains(index as usize) {
                        let k = choose|k: int| 0 <= k < next.len() && next[k] == index as usize;
                        if k < seen.len() {
                            assert(seen[k] == index as usize);
                        }
                    }
                    if seen.contains(index as usize) {
                        let k = choose|k: int| 0 <= k < seen.len() && seen[k] == index as usize;
                        assert(next[k] == index as usize);
                    }
                    if index == target {
                        assert(next[j as int] == target);
                    }
                }
            }
            if target < count {
                back[target].push(i);
            }
            j += 1;
        }
        proof {
            assert(targets@.take(m as int) =~= targets@);
            assert(links@.take(i + 1).drop_last() =~= links@.take(i as int));
            assert(links@.take(i + 1).last() == links@[i as int]);
        }
        i += 1;
    }
    assert(links@.take(n as int) =~= links@);
    back
}

} // verus!
