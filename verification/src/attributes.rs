use crate::order::{lemma_text_irreflexive, lemma_text_total, lemma_text_transitive, order_of, same_text, text_before, Order};
use vstd::prelude::*;
use vstd::string::*;

verus! {

/// The value of one attribute.
#[derive(Clone, Debug, PartialEq, Eq)]
pub enum AttributeValue {
    /// A value that a Djot attribute block supplied, already resolved to its text.
    Jotdown(String),
    /// A value given as plain text.
    Raw(String),
}

/// The value of an attribute as a mathematical value: its text, and how it was given.
pub enum AttributeValueView {
    Jotdown(Seq<char>),
    Raw(Seq<char>),
}

impl AttributeValueView {
    /// The text of the value.
    pub open spec fn text(self) -> Seq<char> {
        match self {
            AttributeValueView::Jotdown(s) => s,
            AttributeValueView::Raw(s) => s,
        }
    }
}

impl View for AttributeValue {
    type V = AttributeValueView;

    open spec fn view(&self) -> AttributeValueView {
        match self {
            AttributeValue::Jotdown(s) => AttributeValueView::Jotdown(s@),
            AttributeValue::Raw(s) => AttributeValueView::Raw(s@),
        }
    }
}

impl AttributeValue {
    /// A plain-text value.
    pub fn raw(s: &str) -> (r: AttributeValue)
        ensures
            r@ == AttributeValueView::Raw(s@),
    {
        AttributeValue::Raw(s.to_owned())
    }

    /// The text of the value.
    pub fn as_str(&self) -> (r: &str)
        ensures
            r@ == self@.text(),
    {
        match self {
            AttributeValue::Jotdown(s) => s.as_str(),
            AttributeValue::Raw(s) => s.as_str(),
        }
    }

    /// Whether two values have the same text and were given in the same way.
    pub fn same_as(&self, other: &AttributeValue) -> (r: bool)
        ensures
            r == (self@ == other@),
    {
        match (self, other) {
            (AttributeValue::Jotdown(a), AttributeValue::Jotdown(b)) => same_text(
                a.as_str(),
                b.as_str(),
            ),
            (AttributeValue::Raw(a), AttributeValue::Raw(b)) => same_text(a.as_str(), b.as_str()),
            _ => false,
        }
    }

    /// A copy of the value.
    pub fn duplicate(&self) -> (r: AttributeValue)
        ensures
            r == *self,
    {
        match self {
            AttributeValue::Jotdown(s) => AttributeValue::Jotdown(s.clone()),
            AttributeValue::Raw(s) => AttributeValue::Raw(s.clone()),
        }
    }
}

/// The mathematical content of an attribute set: names with their values, in the order
/// in which they are written out.
pub type AttributeSeq = Seq<(Seq<char>, AttributeValueView)>;

/// The names occur in strictly increasing order, so none occurs twice.
pub open spec fn attrs_sorted(s: AttributeSeq) -> bool {
    forall|i: int, j: int| 0 <= i < j < s.len() ==> text_before(#[trigger] s[i].0, #[trigger] s[j].0)
}

/// Whether some entry of `s` has the name `k`.
pub open spec fn attrs_has(s: AttributeSeq, k: Seq<char>) -> bool {
    exists|i: int| 0 <= i < s.len() && #[trigger] s[i].0 == k
}

/// The position of the entry named `k`, if there is one.
pub open spec fn attrs_position(s: AttributeSeq, k: Seq<char>) -> int {
    choose|i: int| 0 <= i < s.len() && #[trigger] s[i].0 == k
}

/// How many names of `s` come before `k`.
pub open spec fn attrs_rank(s: AttributeSeq, k: Seq<char>) -> int
    decreases s.len(),
{
    if s.len() == 0 {
        0
    } else if text_before(s.last().0, k) {
        attrs_rank(s.drop_last(), k) + 1
    } else {
        attrs_rank(s.drop_last(), k)
    }
}

/// The set after `k` has been given the value `v`: an entry with that name is overwritten
/// where it stands, a new name is placed after all names that come before it.
pub open spec fn attrs_insert(s: AttributeSeq, k: Seq<char>, v: AttributeValueView) -> AttributeSeq {
    if attrs_has(s, k) {
        s.update(attrs_position(s, k), (k, v))
    } else {
        s.insert(attrs_rank(s, k), (k, v))
    }
}

/// The value stored under `k`, if any.
pub open spec fn attrs_get(s: AttributeSeq, k: Seq<char>) -> Option<AttributeValueView> {
    if attrs_has(s, k) {
        Some(s[attrs_position(s, k)].1)
    } else {
        None
    }
}

/// The set that a series of insertions builds, starting from the empty set.
pub open spec fn attrs_of_pushes(pushes: AttributeSeq) -> AttributeSeq
    decreases pushes.len(),
{
    if pushes.len() == 0 {
        Seq::empty()
    } else {
        attrs_insert(attrs_of_pushes(pushes.drop_last()), pushes.last().0, pushes.last().1)
    }
}

/// In a sorted set a name stands at one position only.
pub proof fn lemma_position_unique(s: AttributeSeq, i: int, j: int)
    requires
        attrs_sorted(s),
        0 <= i < s.len(),
        0 <= j < s.len(),
        s[i].0 == s[j].0,
    ensures
        i == j,
{
    if i < j {
        lemma_text_irreflexive(s[i].0);
    } else if j < i {
        lemma_text_irreflexive(s[i].0);
    }
}

/// In a sorted set the rank of `k` splits the names: those below it come before `k`,
/// those from it on do not.
pub proof fn lemma_rank_splits(s: AttributeSeq, k: Seq<char>)
    requires
        attrs_sorted(s),
    ensures
        0 <= attrs_rank(s, k) <= s.len(),
        forall|i: int| 0 <= i < attrs_rank(s, k) ==> text_before(#[trigger] s[i].0, k),
        forall|i: int| attrs_rank(s, k) <= i < s.len() ==> !text_before(#[trigger] s[i].0, k),
    decreases s.len(),
{
    if s.len() > 0 {
        let t = s.drop_last();
        assert forall|i: int, j: int| 0 <= i < j < t.len() implies text_before(
            #[trigger] t[i].0,
            #[trigger] t[j].0,
        ) by {
            assert(t[i] == s[i] && t[j] == s[j]);
        }
        lemma_rank_splits(t, k);
        let r = attrs_rank(t, k);
        if text_before(s.last().0, k) {
            assert forall|i: int| 0 <= i < s.len() implies text_before(#[trigger] s[i].0, k) by {
                if i < s.len() - 1 {
                    lemma_text_transitive(s[i].0, s.last().0, k);
                }
            }
            assert(r == t.len()) by {
                if r < t.len() {
                    assert(t[r] == s[r]);
                }
            }
        } else {
            assert forall|i: int| r <= i < s.len() implies !text_before(#[trigger] s[i].0, k) by {
                if i < t.len() {
                    assert(t[i] == s[i]);
                }
            }
            assert forall|i: int| 0 <= i < r implies text_before(#[trigger] s[i].0, k) by {
                assert(t[i] == s[i]);
            }
        }
    }
}

/// Inserting into a sorted set gives a sorted set.
pub proof fn lemma_insert_sorted(s: AttributeSeq, k: Seq<char>, v: AttributeValueView)
    requires
        attrs_sorted(s),
    ensures
        attrs_sorted(attrs_insert(s, k, v)),
{
    let t = attrs_insert(s, k, v);
    if attrs_has(s, k) {
        let p = attrs_position(s, k);
        assert forall|i: int, j: int| 0 <= i < j < t.len() implies text_before(
            #[trigger] t[i].0,
            #[trigger] t[j].0,
        ) by {
            assert(t[i].0 == s[i].0 && t[j].0 == s[j].0);
        }
    } else {
        lemma_rank_splits(s, k);
        let r = attrs_rank(s, k);
        assert forall|i: int, j: int| 0 <= i < j < t.len() implies text_before(
            #[trigger] t[i].0,
            #[trigger] t[j].0,
        ) by {
            if j < r {
                assert(t[i] == s[i] && t[j] == s[j]);
            } else if j == r {
                assert(t[i] == s[i]);
            } else if i == r {
                assert(t[j] == s[j - 1]);
                lemma_text_total(s[j - 1].0, k);
            } else if i < r {
                assert(t[i] == s[i] && t[j] == s[j - 1]);
            } else {
                assert(t[i] == s[i - 1] && t[j] == s[j - 1]);
            }
        }
    }
}

/// Whatever the order of the insertions, the names of the set they build are in
/// lexicographic order.
pub proof fn lemma_pushes_sorted(pushes: AttributeSeq)
    ensures
        attrs_sorted(attrs_of_pushes(pushes)),
    decreases pushes.len(),
{
    if pushes.len() > 0 {
        lemma_pushes_sorted(pushes.drop_last());
        lemma_insert_sorted(attrs_of_pushes(pushes.drop_last()), pushes.last().0, pushes.last().1);
    }
}

/// Giving a new value to a name that is present changes the value at its position and
/// nothing else: no entry moves, none is added.
pub proof fn lemma_insert_existing(s: AttributeSeq, k: Seq<char>, v: AttributeValueView, p: int)
    requires
        attrs_sorted(s),
        0 <= p < s.len(),
        s[p].0 == k,
    ensures
        attrs_insert(s, k, v) == s.update(p, (k, v)),
        attrs_insert(s, k, v).len() == s.len(),
        forall|i: int| 0 <= i < s.len() ==> (#[trigger] attrs_insert(s, k, v)[i]).0 == s[i].0,
        forall|i: int| 0 <= i < s.len() && i != p ==> #[trigger] attrs_insert(s, k, v)[i] == s[i],
        attrs_insert(s, k, v)[p].1 == v,
{
    assert(attrs_has(s, k));
    lemma_position_unique(s, p, attrs_position(s, k));
}

/// After an insertion the name is present with the value given.
pub proof fn lemma_insert_get(s: AttributeSeq, k: Seq<char>, v: AttributeValueView)
    requires
        attrs_sorted(s),
    ensures
        attrs_get(attrs_insert(s, k, v), k) == Some(v),
{
    let t = attrs_insert(s, k, v);
    lemma_insert_sorted(s, k, v);
    if attrs_has(s, k) {
        let p = attrs_position(s, k);
        assert(t[p].0 == k);
        lemma_position_unique(t, p, attrs_position(t, k));
    } else {
        lemma_rank_splits(s, k);
        let r = attrs_rank(s, k);
        assert(t[r].0 == k);
        lemma_position_unique(t, r, attrs_position(t, k));
    }
}

/// The mapping from names to values that a set of attributes is.
pub open spec fn attrs_map(s: AttributeSeq) -> Map<Seq<char>, AttributeValueView> {
    Map::new(|k: Seq<char>| attrs_has(s, k), |k: Seq<char>| s[attrs_position(s, k)].1)
}

/// In a sorted set the entry at a position is what the mapping holds for its name.
pub proof fn lemma_map_at(s: AttributeSeq, i: int)
    requires
        attrs_sorted(s),
        0 <= i < s.len(),
    ensures
        attrs_map(s).contains_key(s[i].0),
        attrs_map(s)[s[i].0] == s[i].1,
{
    assert(attrs_has(s, s[i].0));
    lemma_position_unique(s, i, attrs_position(s, s[i].0));
}

/// A sorted set without its last entry is sorted, and its mapping is the mapping of the
/// whole without the last name.
proof fn lemma_map_drop_last(s: AttributeSeq)
    requires
        attrs_sorted(s),
        s.len() > 0,
    ensures
        attrs_sorted(s.drop_last()),
        attrs_map(s.drop_last()) == attrs_map(s).remove(s.last().0),
{
    let t = s.drop_last();
    let last = s.last().0;
    assert forall|i: int, j: int| 0 <= i < j < t.len() implies text_before(
        #[trigger] t[i].0,
        #[trigger] t[j].0,
    ) by {
        assert(t[i] == s[i] && t[j] == s[j]);
    }
    assert forall|k: Seq<char>| #[trigger]
        attrs_map(t).contains_key(k) <==> attrs_map(s).remove(last).contains_key(k) by {
        if attrs_has(t, k) {
            let i = attrs_position(t, k);
            assert(s[i].0 == k);
            assert(text_before(s[i].0, s[s.len() - 1].0));
            lemma_text_irreflexive(last);
        }
        if attrs_has(s, k) && k != last {
            let i = attrs_position(s, k);
            assert(t[i].0 == k);
        }
    }
    assert forall|k: Seq<char>| attrs_map(t).contains_key(k) implies #[trigger] attrs_map(t)[k]
        == attrs_map(s).remove(last)[k] by {
        let i = attrs_position(t, k);
        assert(s[i] == t[i]);
        lemma_map_at(s, i);
    }
    assert(attrs_map(t) =~= attrs_map(s).remove(last));
}

/// Two sorted sets that hold the same values under the same names are one and the same:
/// what a set looks like does not depend on the order in which it was filled.
pub proof fn lemma_sorted_is_canonical(s: AttributeSeq, t: AttributeSeq)
    requires
        attrs_sorted(s),
        attrs_sorted(t),
        attrs_map(s) == attrs_map(t),
    ensures
        s == t,
    decreases s.len(),
{
    if s.len() == 0 {
        if t.len() > 0 {
            lemma_map_at(t, 0);
            assert(attrs_has(s, t[0].0));
        }
        assert(s =~= t);
    } else {
        let n = s.len() - 1;
        lemma_map_at(s, n);
        let last = s[n].0;
        assert(attrs_has(t, last));
        let j = attrs_position(t, last);
        let m = t.len() - 1;
        if j < m {
            lemma_map_at(t, m);
            assert(attrs_has(s, t[m].0));
            let i = attrs_position(s, t[m].0);
            assert(text_before(t[j].0, t[m].0));
            if i < n {
                assert(text_before(s[i].0, s[n].0));
                lemma_text_total(last, t[m].0);
            } else {
                lemma_text_irreflexive(last);
            }
        }
        assert(j == m);
        lemma_map_at(t, m);
        assert(s[n] == t[m]);
        lemma_map_drop_last(s);
        lemma_map_drop_last(t);
        lemma_sorted_is_canonical(s.drop_last(), t.drop_last());
        assert(s =~= s.drop_last().push(s[n]));
        assert(t =~= t.drop_last().push(t[m]));
    }
}

/// Inserting into a sorted set gives the mapping its new value and lets the rest be.
pub proof fn lemma_insert_map(s: AttributeSeq, k: Seq<char>, v: AttributeValueView)
    requires
        attrs_sorted(s),
    ensures
        attrs_map(attrs_insert(s, k, v)) == attrs_map(s).insert(k, v),
{
    let t = attrs_insert(s, k, v);
    lemma_insert_sorted(s, k, v);
    lemma_insert_get(s, k, v);
    let present = attrs_has(s, k);
    let p = if present {
        attrs_position(s, k)
    } else {
        attrs_rank(s, k)
    };
    if !present {
        lemma_rank_splits(s, k);
    }
    assert forall|x: Seq<char>| #[trigger]
        attrs_map(t).contains_key(x) <==> attrs_map(s).insert(k, v).contains_key(x) by {
        if attrs_has(t, x) && x != k {
            let i = attrs_position(t, x);
            if present {
                assert(s[i].0 == x);
            } else if i < p {
                assert(s[i].0 == x);
            } else {
                assert(s[i - 1].0 == x);
            }
        }
        if attrs_has(s, x) {
            let i = attrs_position(s, x);
            if present {
                assert(t[i].0 == s[i].0);
            } else if i < p {
                assert(t[i].0 == x);
            } else {
                assert(t[i + 1].0 == x);
            }
        }
        if x == k {
            assert(attrs_get(t, k) == Some(v));
        }
    }
    assert forall|x: Seq<char>| attrs_map(t).contains_key(x) implies #[trigger] attrs_map(t)[x]
        == attrs_map(s).insert(k, v)[x] by {
        if x == k {
            assert(attrs_get(t, k) == Some(v));
        } else {
            let i = attrs_position(s, x);
            lemma_map_at(s, i);
            if present {
                assert(t[i] == s[i]);
                lemma_map_at(t, i);
            } else if i < p {
                assert(t[i] == s[i]);
                lemma_map_at(t, i);
            } else {
                assert(t[i + 1] == s[i]);
                lemma_map_at(t, i + 1);
            }
        }
    }
    assert(attrs_map(t) =~= attrs_map(s).insert(k, v));
}

/// An insertion leaves every other name with the value that it had, or without one.
pub proof fn lemma_insert_keeps_others(s: AttributeSeq, k: Seq<char>, v: AttributeValueView)
    requires
        attrs_sorted(s),
    ensures
        forall|other: Seq<char>|
            other != k ==> #[trigger] attrs_get(attrs_insert(s, k, v), other) == attrs_get(
                s,
                other,
            ),
{
    lemma_insert_map(s, k, v);
    let t = attrs_insert(s, k, v);
    assert forall|other: Seq<char>| other != k implies #[trigger] attrs_get(t, other)
        == attrs_get(s, other) by {
        assert(attrs_map(t).contains_key(other) == attrs_map(s).contains_key(other));
        if attrs_has(s, other) {
            assert(attrs_map(t)[other] == attrs_map(s)[other]);
        }
    }
}

/// Insertions under different names can be made in either order.
pub proof fn lemma_insert_commutes(
    s: AttributeSeq,
    k1: Seq<char>,
    v1: AttributeValueView,
    k2: Seq<char>,
    v2: AttributeValueView,
)
    requires
        attrs_sorted(s),
        k1 != k2,
    ensures
        attrs_insert(attrs_insert(s, k1, v1), k2, v2) == attrs_insert(
            attrs_insert(s, k2, v2),
            k1,
            v1,
        ),
{
    let a = attrs_insert(s, k1, v1);
    let b = attrs_insert(s, k2, v2);
    lemma_insert_sorted(s, k1, v1);
    lemma_insert_sorted(s, k2, v2);
    lemma_insert_sorted(a, k2, v2);
    lemma_insert_sorted(b, k1, v1);
    lemma_insert_map(s, k1, v1);
    lemma_insert_map(s, k2, v2);
    lemma_insert_map(a, k2, v2);
    lemma_insert_map(b, k1, v1);
    assert(attrs_map(s).insert(k1, v1).insert(k2, v2) =~= attrs_map(s).insert(k2, v2).insert(
        k1,
        v1,
    ));
    lemma_sorted_is_canonical(attrs_insert(a, k2, v2), attrs_insert(b, k1, v1));
}

/// Attributes of an element, kept in the lexicographic order of their names whatever the
/// order in which they were pushed.
#[derive(Debug)]
pub struct Attributes {
    attributes: Vec<(String, AttributeValue)>,
}

impl View for Attributes {
    type V = AttributeSeq;

    closed spec fn view(&self) -> AttributeSeq {
        items_view(self.attributes@)
    }
}

spec fn items_view(items: Seq<(String, AttributeValue)>) -> AttributeSeq {
    Seq::new(items.len(), |i: int| (items[i].0@, items[i].1@))
}

impl PartialEq for Attributes {
    fn eq(&self, other: &Attributes) -> (r: bool) {
        self.same_as(other)
    }
}

impl vstd::std_specs::cmp::PartialEqSpecImpl for Attributes {
    open spec fn obeys_eq_spec() -> bool {
        true
    }

    open spec fn eq_spec(&self, other: &Attributes) -> bool {
        self@ == other@
    }
}

impl Eq for Attributes {

}

impl Clone for Attributes {
    fn clone(&self) -> (r: Attributes)
        ensures
            r@ == self@,
    {
        self.duplicate()
    }
}

impl Attributes {
    #[verifier::type_invariant]
    spec fn well_formed(&self) -> bool {
        attrs_sorted(self@)
    }

    /// The empty set.
    pub fn new() -> (r: Attributes)
        ensures
            r@ == Seq::<(Seq<char>, AttributeValueView)>::empty(),
    {
        let r = Attributes { attributes: Vec::new() };
        assert(r@ =~= Seq::empty());
        r
    }

    /// The empty set, with room for `capacity` attributes.
    pub fn with_capacity(capacity: usize) -> (r: Attributes)
        ensures
            r@ == Seq::<(Seq<char>, AttributeValueView)>::empty(),
    {
        let r = Attributes { attributes: Vec::with_capacity(capacity) };
        assert(r@ =~= Seq::empty());
        r
    }

    /// The number of names.
    pub fn len(&self) -> (n: usize)
        ensures
            n == self@.len(),
            attrs_sorted(self@),
    {
        proof {
            use_type_invariant(self);
        }
        self.attributes.len()
    }

    pub fn is_empty(&self) -> (r: bool)
        ensures
            r == (self@.len() == 0),
    {
        self.attributes.len() == 0
    }

    /// The name at position `i`: names come in lexicographic order.
    pub fn name_at(&self, i: usize) -> (r: &str)
        requires
            i < self@.len(),
        ensures
            r@ == self@[i as int].0,
    {
        self.attributes[i].0.as_str()
    }

    /// The value at position `i`.
    pub fn value_at(&self, i: usize) -> (r: &AttributeValue)
        requires
            i < self@.len(),
        ensures
            r@ == self@[i as int].1,
    {
        &self.attributes[i].1
    }

    /// The value stored under `attribute`.
    pub fn get(&self, attribute: &str) -> (r: Option<&AttributeValue>)
        ensures
            match r {
                Some(v) => attrs_get(self@, attribute@) == Some(v@),
                None => attrs_get(self@, attribute@) is None,
            },
    {
        proof {
            use_type_invariant(self);
        }
        let mut i: usize = 0;
        while i < self.attributes.len()
            invariant
                i <= self@.len(),
                self@.len() == self.attributes@.len(),
                attrs_sorted(self@),
                forall|j: int| 0 <= j < i ==> (#[trigger] self@[j]).0 != attribute@,
            decreases self@.len() - i,
        {
            if same_text(self.attributes[i].0.as_str(), attribute) {
                proof {
                    assert(self@[i as int].0 == attribute@);
                    lemma_position_unique(self@, i as int, attrs_position(self@, attribute@));
                }
                return Some(&self.attributes[i].1);
            }
            i += 1;
        }
        None
    }

    /// Gives `attribute` the value `value`. A name that is present keeps its position; a
    /// new one is placed so that the names stay in lexicographic order. The value is
    /// stored as it is given, and no other name is touched.
    pub fn push(&mut self, attribute: &str, value: AttributeValue)
        ensures
            final(self)@ == attrs_insert(old(self)@, attribute@, value@),
            attrs_sorted(final(self)@),
            attrs_get(final(self)@, attribute@) == Some(value@),
            forall|other: Seq<char>|
                other != attribute@ ==> #[trigger] attrs_get(final(self)@, other) == attrs_get(
                    old(self)@,
                    other,
                ),
            final(self)@.len() == if attrs_has(old(self)@, attribute@) {
                old(self)@.len()
            } else {
                old(self)@.len() + 1
            },
    {
        proof {
            use_type_invariant(&*self);
            lemma_insert_get(self@, attribute@, value@);
            lemma_insert_keeps_others(self@, attribute@, value@);
            lemma_rank_splits(self@, attribute@);
            if attrs_has(self@, attribute@) {
                let p = attrs_position(self@, attribute@);
                assert(0 <= p < self@.len());
            }
        }
        self.put(attribute, value);
    }

    fn put(&mut self, attribute: &str, value: AttributeValue)
        ensures
            final(self)@ == attrs_insert(old(self)@, attribute@, value@),
            attrs_sorted(final(self)@),
    {
        proof {
            use_type_invariant(&*self);
            lemma_insert_sorted(self@, attribute@, value@);
            lemma_rank_splits(self@, attribute@);
        }
        let n = self.attributes.len();
        let mut i: usize = 0;
        while i < n
            invariant
                i <= n,
                n == self.attributes@.len(),
                self@.len() == n,
                *self == *old(self),
                attrs_sorted(self@),
                forall|j: int| 0 <= j < i ==> (#[trigger] self@[j]).0 != attribute@,
            decreases n - i,
        {
            if same_text(self.attributes[i].0.as_str(), attribute) {
                proof {
                    lemma_insert_existing(self@, attribute@, value@, i as int);
                }
                let mut items = self.take_items();
                items.set(i, (attribute.to_owned(), value));
                proof {
                    assert(items_view(items@) =~= attrs_insert(old(self)@, attribute@, value@));
                }
                *self = Attributes { attributes: items };
                return ;
            }
            i += 1;
        }
        assert(!attrs_has(self@, attribute@));
        let mut idx: usize = 0;
        while idx < n
            invariant
                idx <= n,
                n == self.attributes@.len(),
                self@.len() == n,
                *self == *old(self),
                attrs_sorted(self@),
                !attrs_has(self@, attribute@),
                forall|j: int| 0 <= j < idx ==> text_before((#[trigger] self@[j]).0, attribute@),
            ensures
                idx <= n,
                forall|j: int| 0 <= j < idx ==> text_before((#[trigger] self@[j]).0, attribute@),
                idx < n ==> text_before(attribute@, self@[idx as int].0),
            decreases n - idx,
        {
            match order_of(self.attributes[idx].0.as_str(), attribute) {
                Order::After => {
                    break ;
                },
                Order::Same => {
                    proof {
                        assert(self@[idx as int].0 == attribute@);
                    }
                },
                Order::Before => {},
            }
            idx += 1;
        }
        proof {
            let r = attrs_rank(self@, attribute@);
            if idx < r {
                lemma_text_total(attribute@, self@[idx as int].0);
            }
            if r < idx {
                assert(text_before(self@[r].0, attribute@));
            }
            assert(idx == r);
        }
        let mut items = self.take_items();
        items.insert(idx, (attribute.to_owned(), value));
        proof {
            assert(items_view(items@) =~= attrs_insert(old(self)@, attribute@, value@));
        }
        *self = Attributes { attributes: items };
    }

    /// Moves the entries out and leaves the set empty.
    fn take_items(&mut self) -> (items: Vec<(String, AttributeValue)>)
        ensures
            items == old(self).attributes,
            final(self)@.len() == 0,
    {
        let mut taken = Attributes::new();
        core::mem::swap(self, &mut taken);
        let Attributes { attributes } = taken;
        attributes
    }

    /// Whether two sets hold the same values under the same names. The order in which
    /// the sets were filled plays no part in it.
    pub fn same_as(&self, other: &Attributes) -> (r: bool)
        ensures
            r == (self@ == other@),
            r == (attrs_map(self@) == attrs_map(other@)),
    {
        proof {
            use_type_invariant(self);
            use_type_invariant(other);
            if attrs_map(self@) == attrs_map(other@) {
                lemma_sorted_is_canonical(self@, other@);
            }
        }
        let n = self.attributes.len();
        assert(self@.len() == self.attributes@.len());
        assert(other@.len() == other.attributes@.len());
        if other.attributes.len() != n {
            assert(self@.len() != other@.len());
            assert(self@ != other@);
            return false;
        }
        let mut i: usize = 0;
        while i < n
            invariant
                i <= n,
                n == self@.len(),
                n == other@.len(),
                self@.len() == self.attributes@.len(),
                other@.len() == other.attributes@.len(),
                attrs_map(self@) == attrs_map(other@) ==> self@ == other@,
                forall|j: int| 0 <= j < i ==> self@[j] == other@[j],
            decreases n - i,
        {
            if !same_text(self.attributes[i].0.as_str(), other.attributes[i].0.as_str())
                || !self.attributes[i].1.same_as(&other.attributes[i].1) {
                assert(self@[i as int] != other@[i as int]);
                return false;
            }
            i += 1;
        }
        assert(self@ =~= other@);
        true
    }

    /// A copy of the set.
    pub fn duplicate(&self) -> (r: Attributes)
        ensures
            r@ == self@,
    {
        proof {
            use_type_invariant(self);
        }
        let mut items: Vec<(String, AttributeValue)> = Vec::new();
        let mut i: usize = 0;
        while i < self.attributes.len()
            invariant
                i <= self.attributes@.len(),
                items@.len() == i,
                forall|j: int|
                    0 <= j < i ==> (#[trigger] items@[j]).0@ == self.attributes@[j].0@ && items@[j].1@
                        == self.attributes@[j].1@,
            decreases self.attributes@.len() - i,
        {
            items.push((self.attributes[i].0.clone(), self.attributes[i].1.duplicate()));
            i += 1;
        }
        proof {
            assert(items_view(items@) =~= self@);
        }
        Attributes { attributes: items }
    }
}

/// The attributes with one more class: the class is added behind the classes that the
/// attributes hold, as a plain value. An empty class changes nothing.
pub open spec fn with_class(attrs: AttributeSeq, class: Seq<char>) -> AttributeSeq {
    if class.len() == 0 {
        attrs
    } else {
        match attrs_get(attrs, "class"@) {
            Some(classes) => attrs_insert(
                attrs,
                "class"@,
                AttributeValueView::Raw(classes.text() + " "@ + class),
            ),
            None => attrs_insert(attrs, "class"@, AttributeValueView::Raw(class)),
        }
    }
}

/// The attributes with one more class.
pub fn add_class(attributes: &Attributes, class: &str) -> (r: Attributes)
    ensures
        r@ == with_class(attributes@, class@),
{
    let mut r = attributes.duplicate();
    if class.unicode_len() == 0 {
        return r;
    }
    let value = match attributes.get("class") {
        Some(classes) => {
            let mut value = classes.as_str().to_owned();
            value.append(" ");
            value.append(class);
            value
        },
        None => class.to_owned(),
    };
    r.push("class", AttributeValue::Raw(value));
    r
}

} // verus!
