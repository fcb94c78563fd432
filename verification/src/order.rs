use vstd::prelude::*;
use vstd::string::*;
use vstd::utf8::*;

verus! {

/// Whether `a` comes before `b` byte by byte, given that both agree below position `i`.
pub open spec fn lex_before_from(a: Seq<u8>, b: Seq<u8>, i: int) -> bool
    decreases a.len() - i,
{
    if i < 0 || i >= b.len() {
        false
    } else if i >= a.len() {
        true
    } else if a[i] != b[i] {
        a[i] < b[i]
    } else {
        lex_before_from(a, b, i + 1)
    }
}

/// Strict lexicographic order on byte strings.
pub open spec fn lex_before(a: Seq<u8>, b: Seq<u8>) -> bool {
    lex_before_from(a, b, 0)
}

/// Strict order on text: lexicographic on the UTF-8 encoding, the order `str` has.
pub open spec fn text_before(a: Seq<char>, b: Seq<char>) -> bool {
    lex_before(encode_utf8(a), encode_utf8(b))
}

/// The outcome of comparing two texts.
#[derive(Clone, Copy, Debug, PartialEq, Eq)]
pub enum Order {
    Before,
    Same,
    After,
}

pub proof fn lemma_lex_asymmetric(a: Seq<u8>, b: Seq<u8>, i: int)
    requires
        0 <= i,
        lex_before_from(a, b, i),
    ensures
        !lex_before_from(b, a, i),
    decreases a.len() - i,
{
    if i < a.len() && i < b.len() && a[i] == b[i] {
        lemma_lex_asymmetric(a, b, i + 1);
    }
}

pub proof fn lemma_lex_total(a: Seq<u8>, b: Seq<u8>, i: int)
    requires
        0 <= i <= a.len(),
        i <= b.len(),
        a.take(i) == b.take(i),
        !lex_before_from(a, b, i),
        !lex_before_from(b, a, i),
    ensures
        a == b,
    decreases a.len() - i,
{
    if i >= a.len() || i >= b.len() {
        assert(a.take(i) =~= a);
        assert(b.take(i) =~= b);
    } else {
        assert(a.take(i + 1) =~= a.take(i).push(a[i]));
        assert(b.take(i + 1) =~= b.take(i).push(b[i]));
        lemma_lex_total(a, b, i + 1);
    }
}

pub proof fn lemma_lex_transitive(a: Seq<u8>, b: Seq<u8>, c: Seq<u8>, i: int)
    requires
        0 <= i,
        lex_before_from(a, b, i),
        lex_before_from(b, c, i),
    ensures
        lex_before_from(a, c, i),
    decreases c.len() - i,
{
    if i < a.len() && i < b.len() && i < c.len() && a[i] == b[i] && b[i] == c[i] {
        lemma_lex_transitive(a, b, c, i + 1);
    }
}

/// No text comes before itself.
pub proof fn lemma_text_irreflexive(a: Seq<char>)
    ensures
        !text_before(a, a),
{
    if text_before(a, a) {
        lemma_lex_asymmetric(encode_utf8(a), encode_utf8(a), 0);
    }
}

/// Of two different texts exactly one comes before the other.
pub proof fn lemma_text_total(a: Seq<char>, b: Seq<char>)
    ensures
        a == b || text_before(a, b) || text_before(b, a),
        text_before(a, b) ==> !text_before(b, a) && a != b,
{
    let x = encode_utf8(a);
    let y = encode_utf8(b);
    if !lex_before(x, y) && !lex_before(y, x) {
        assert(x.take(0) =~= y.take(0));
        lemma_lex_total(x, y, 0);
        encode_utf8_decode_utf8(a);
        encode_utf8_decode_utf8(b);
    }
    if text_before(a, b) {
        lemma_lex_asymmetric(x, y, 0);
    }
}

/// The order on texts is transitive.
pub proof fn lemma_text_transitive(a: Seq<char>, b: Seq<char>, c: Seq<char>)
    requires
        text_before(a, b),
        text_before(b, c),
    ensures
        text_before(a, c),
{
    lemma_lex_transitive(encode_utf8(a), encode_utf8(b), encode_utf8(c), 0);
}

/// Compares two strings as `str` orders them.
pub fn order_of(a: &str, b: &str) -> (r: Order)
    ensures
        r is Before <==> text_before(a@, b@),
        r is After <==> text_before(b@, a@),
        r is Same <==> a@ == b@,
{
    let x = a.as_bytes();
    let y = b.as_bytes();
    let mut i: usize = 0;
    let mut r = Order::Same;
    loop
        invariant_except_break
            i <= x@.len(),
            i <= y@.len(),
            x@.take(i as int) == y@.take(i as int),
            lex_before(x@, y@) == lex_before_from(x@, y@, i as int),
            lex_before(y@, x@) == lex_before_from(y@, x@, i as int),
        ensures
            r is Before <==> lex_before(x@, y@),
            r is After <==> lex_before(y@, x@),
            r is Same ==> x@ == y@,
        decreases x@.len() - i,
    {
        if i >= x.len() {
            if i >= y.len() {
                proof {
                    assert(x@.take(i as int) =~= x@);
                    assert(y@.take(i as int) =~= y@);
                }
                r = Order::Same;
                break ;
            }
            r = Order::Before;
            break ;
        }
        if i >= y.len() {
            r = Order::After;
            break ;
        }
        if x[i] < y[i] {
            r = Order::Before;
            break ;
        }
        if x[i] > y[i] {
            r = Order::After;
            break ;
        }
        proof {
            assert(x@.take(i + 1) =~= x@.take(i as int).push(x@[i as int]));
            assert(y@.take(i + 1) =~= y@.take(i as int).push(y@[i as int]));
        }
        i += 1;
    }
    proof {
        lemma_text_total(a@, b@);
        lemma_text_total(b@, a@);
        lemma_text_irreflexive(a@);
        if r is Same {
            encode_utf8_decode_utf8(a@);
            encode_utf8_decode_utf8(b@);
        }
    }
    r
}

/// Whether two strings hold the same text.
pub fn same_text(a: &str, b: &str) -> (r: bool)
    ensures
        r == (a@ == b@),
{
    matches!(order_of(a, b), Order::Same)
}

} // verus!
