use crate::text::push_char;
use vstd::prelude::*;
use vstd::string::*;
use vstd::utf8::{encode_utf8, is_char_boundary};

verus! {

#[derive(Clone, Copy, Debug, PartialEq, Eq, Structural)]
pub struct Date {
    pub year: u16,
    pub month: u8,
    pub day: u8,
}

impl Date {
    pub fn new(year: u16, month: u8, day: u8) -> (r: Date)
        ensures
            r == (Date { year, month, day }),
    {
        Date { year, month, day }
    }
}

#[derive(Clone, Copy, Debug, PartialEq, Eq, Structural)]
pub struct Time {
    pub hour: u8,
    pub minute: u8,
    pub second: u8,
}

impl Time {
    pub fn new(hour: u8, minute: u8, second: u8) -> (r: Time)
        ensures
            r == (Time { hour, minute, second }),
    {
        Time { hour, minute, second }
    }
}

/// The files of an image: the image in full width and the narrower copies that exist.
#[derive(Clone, Debug, PartialEq, Eq)]
pub struct Images {
    pub original: String,
    pub original_width: Option<u32>,
    pub x_1536: Option<String>,
    pub x_768: Option<String>,
}

/// The markup that an entry is written in.
#[derive(Clone, Copy, Debug, PartialEq, Eq, Structural)]
pub enum EntrySourceKind {
    Djot,
    CommonMark,
}

/// What is known of an entry from where its file lies. Paths are given by their parts.
#[derive(Clone, Debug, PartialEq, Eq)]
pub struct EntryMeta {
    /// The name of the file without extension; entries are sorted by it.
    pub sort_key: String,
    /// The date, for an entry whose file name starts with one.
    pub date: Option<Date>,
    pub time: Option<Time>,
    pub group: String,
    pub slug: String,
    pub source_kind: EntrySourceKind,
    /// For instance `posts/2024-10-02-foo-bar.dj` or `posts/2024-10-02-foo-bar/index.dj`.
    pub file_path: Vec<String>,
    /// The directory that holds the file.
    pub asset_dir: Vec<String>,
    /// The name by which other entries refer to this one: the group and the name of the
    /// file without extension, for instance `posts/2024-10-02-foo-bar`.
    pub canonical_name: String,
    /// For instance `2024/foo-bar/index.html`.
    pub out_file: Vec<String>,
    /// For instance `2024/foo-bar`.
    pub out_asset_dir: Vec<String>,
    pub asset_url: String,
    pub permalink: String,
}

/// Whether a byte is an ASCII decimal digit.
pub open spec fn is_digit(b: u8) -> bool {
    48 <= b <= 57
}

pub open spec fn all_digits(b: Seq<u8>) -> bool {
    forall|i: int| 0 <= i < b.len() ==> is_digit(#[trigger] b[i])
}

/// The number that a string of digits stands for.
pub open spec fn digits_value(b: Seq<u8>) -> nat
    decreases b.len(),
{
    if b.len() == 0 {
        0
    } else {
        digits_value(b.drop_last()) * 10 + (b.last() - 48) as nat
    }
}

/// The digits of a number that may be written with a plus sign in front.
pub open spec fn without_sign(b: Seq<u8>) -> Seq<u8> {
    if b.len() > 0 && b[0] == 43 {
        b.skip(1)
    } else {
        b
    }
}

/// The number that `b` is the decimal form of, if it is one and no greater than `max`:
/// one digit at least, with or without a plus sign in front, and nothing else.
pub open spec fn parse_unsigned(b: Seq<u8>, max: nat) -> Option<nat> {
    let d = without_sign(b);
    if d.len() > 0 && all_digits(d) && digits_value(d) <= max {
        Some(digits_value(d))
    } else {
        None
    }
}

/// The first position from `i` on at which `b` holds `c`; the length of `b` if there is
/// none.
pub open spec fn first_at(b: Seq<u8>, c: u8, i: int) -> int
    decreases b.len() - i,
{
    if i < 0 || i >= b.len() {
        b.len() as int
    } else if b[i] == c {
        i
    } else {
        first_at(b, c, i + 1)
    }
}

/// The date that the ten bytes of `b` give: year, month and day are the first three
/// fields that hyphens divide `b` into.
pub open spec fn parsed_date(b: Seq<u8>) -> Option<Date> {
    let p = first_at(b, 45, 0);
    let q = first_at(b, 45, p + 1);
    let r = first_at(b, 45, q + 1);
    if p >= b.len() || q >= b.len() {
        None
    } else {
        match (
            parse_unsigned(b.subrange(0, p), 0xffff),
            parse_unsigned(b.subrange(p + 1, q), 0xff),
            parse_unsigned(b.subrange(q + 1, r), 0xff),
        ) {
            (Some(year), Some(month), Some(day)) => Some(
                Date { year: year as u16, month: month as u8, day: day as u8 },
            ),
            _ => None,
        }
    }
}

/// The time of day that six bytes `hhmmss` give.
pub open spec fn parsed_time(b: Seq<u8>) -> Option<Time> {
    match parse_unsigned(b, 0xffff_ffff) {
        Some(t) => Some(
            Time {
                hour: (t / 10000) as u8,
                minute: ((t % 10000) / 100) as u8,
                second: (t % 100) as u8,
            },
        ),
        None => None,
    }
}

/// What a date, `2024-04-26`, or a date and a time, `2024-04-26T123456`, stand for.
pub open spec fn parsed_date_time(b: Seq<u8>) -> Result<(Date, Option<Time>), ()> {
    if !(b.len() == 10 || b.len() == 17) || !is_char_boundary(b, 10) {
        Err(())
    } else {
        match parsed_date(b.subrange(0, 10)) {
            None => Err(()),
            Some(date) => if b.len() == 10 {
                Ok((date, None))
            } else if !(b[10] == 84 || b[10] == 116) {
                Err(())
            } else {
                match parsed_time(b.subrange(11, 17)) {
                    Some(time) => Ok((date, Some(time))),
                    None => Err(()),
                }
            },
        }
    }
}

pub open spec fn pow10(n: nat) -> nat
    decreases n,
{
    if n == 0 {
        1
    } else {
        10 * pow10((n - 1) as nat)
    }
}

proof fn lemma_digits_bound(b: Seq<u8>)
    requires
        all_digits(b),
    ensures
        digits_value(b) < pow10(b.len()),
    decreases b.len(),
{
    if b.len() > 0 {
        assert(all_digits(b.drop_last())) by {
            assert forall|i: int| 0 <= i < b.drop_last().len() implies is_digit(
                #[trigger] b.drop_last()[i],
            ) by {
                assert(b.drop_last()[i] == b[i]);
            }
        }
        lemma_digits_bound(b.drop_last());
        assert(is_digit(b[b.len() - 1]));
    }
}

proof fn lemma_digits_monotone(b: Seq<u8>, i: int)
    requires
        all_digits(b),
        0 <= i <= b.len(),
    ensures
        digits_value(b.take(i)) <= digits_value(b),
    decreases b.len() - i,
{
    if i < b.len() {
        lemma_digits_monotone(b, i + 1);
        assert(b.take(i + 1).drop_last() =~= b.take(i));
    } else {
        assert(b.take(i) =~= b);
    }
}

/// Reads a decimal number no greater than `max` from the bytes `lo..hi` of `b`.
fn read_unsigned(b: &[u8], lo: usize, hi: usize, max: u64) -> (r: Option<u64>)
    requires
        lo <= hi <= b@.len(),
        max <= 0xffff_ffff,
    ensures
        match r {
            Some(v) => parse_unsigned(b@.subrange(lo as int, hi as int), max as nat) == Some(
                v as nat,
            ),
            None => parse_unsigned(b@.subrange(lo as int, hi as int), max as nat) is None,
        },
{
    let ghost field = b@.subrange(lo as int, hi as int);
    let mut i = lo;
    if i < hi && b[i] == 43 {
        i += 1;
    }
    let first = i;
    let ghost d = without_sign(field);
    assert(d =~= b@.subrange(first as int, hi as int));
    if i == hi {
        return None;
    }
    let mut acc: u64 = 0;
    assert(d.take(0) =~= Seq::empty());
    while i < hi
        invariant
            lo <= first <= i <= hi,
            hi <= b@.len(),
            d == b@.subrange(first as int, hi as int),
            d == without_sign(b@.subrange(lo as int, hi as int)),
            all_digits(d.take(i - first)),
            acc == digits_value(d.take(i - first)),
            acc <= max,
            max <= 0xffff_ffff,
        decreases hi - i,
    {
        let c = b[i];
        if c < 48 || c > 57 {
            assert(!is_digit(d[i - first]));
            return None;
        }
        let next = acc * 10 + (c - 48) as u64;
        proof {
            let t = d.take(i - first + 1);
            assert(t.drop_last() =~= d.take(i - first));
            assert(t.last() == c);
            assert forall|j: int| 0 <= j < t.len() implies is_digit(#[trigger] t[j]) by {
                if j < t.len() - 1 {
                    assert(t[j] == d.take(i - first)[j]);
                }
            }
            assert(next == digits_value(t));
        }
        if next > max {
            proof {
                if all_digits(d) {
                    lemma_digits_monotone(d, i - first + 1);
                }
            }
            return None;
        }
        acc = next;
        i += 1;
    }
    assert(d.take(hi - first) =~= d);
    Some(acc)
}

/// The first position from `from` on at which `b` holds `c`.
fn find_byte(b: &[u8], c: u8, from: usize) -> (p: usize)
    requires
        from <= b@.len(),
    ensures
        p == first_at(b@, c, from as int),
        from <= p <= b@.len(),
{
    let mut i = from;
    while i < b.len()
        invariant
            from <= i <= b@.len(),
            first_at(b@, c, from as int) == first_at(b@, c, i as int),
        decreases b@.len() - i,
    {
        if b[i] == c {
            return i;
        }
        i += 1;
    }
    i
}

fn read_date(b: &[u8]) -> (r: Option<Date>)
    ensures
        r == parsed_date(b@),
{
    let n = b.len();
    let p = find_byte(b, 45, 0);
    if p >= n {
        return None;
    }
    let q = find_byte(b, 45, p + 1);
    if q >= n {
        return None;
    }
    let r = find_byte(b, 45, q + 1);
    let year = read_unsigned(b, 0, p, 0xffff);
    let month = read_unsigned(b, p + 1, q, 0xff);
    let day = read_unsigned(b, q + 1, r, 0xff);
    match (year, month, day) {
        (Some(year), Some(month), Some(day)) => Some(
            Date { year: year as u16, month: month as u8, day: day as u8 },
        ),
        _ => None,
    }
}

/// Reads a date, `2024-04-26`, or a date and a time, `2024-04-26T123456`.
pub fn parse_date_time(value: &str) -> (r: Result<(Date, Option<Time>), ()>)
    ensures
        r == parsed_date_time(encode_utf8(value@)),
{
    let b = value.as_bytes();
    let n = b.len();
    if !(n == 10 || n == 17) || !value.is_char_boundary(10) {
        return Err(());
    }
    let head = vstd::slice::slice_subrange(b, 0, 10);
    let date = match read_date(head) {
        None => {
            return Err(());
        },
        Some(date) => date,
    };
    if n == 10 {
        return Ok((date, None));
    }
    if !(b[10] == 84 || b[10] == 116) {
        return Err(());
    }
    let tail = vstd::slice::slice_subrange(b, 11, 17);
    assert(tail@.subrange(0, 6) =~= tail@);
    match read_unsigned(tail, 0, 6, 0xffff_ffff) {
        None => Err(()),
        Some(t) => {
            proof {
                assert(tail@.subrange(0, 6) =~= tail@);
                let d = without_sign(tail@);
                lemma_digits_bound(d);
                assert(d.len() <= 6);
                assert(pow10(6) == 1_000_000) by {
                    reveal_with_fuel(pow10, 7);
                }
                assert(pow10(d.len()) <= 1_000_000) by {
                    reveal_with_fuel(pow10, 7);
                }
            }
            let hour = t / 10000;
            let minute = (t % 10000) / 100;
            let second = t % 100;
            Ok((date, Some(Time { hour: hour as u8, minute: minute as u8, second: second as u8 })))
        },
    }
}

/// The position of the first underscore in `s`; the length of `s` if there is none.
pub open spec fn first_underscore(s: Seq<char>, i: int) -> int
    decreases s.len() - i,
{
    if i < 0 || i >= s.len() {
        s.len() as int
    } else if s[i] == '_' {
        i
    } else {
        first_underscore(s, i + 1)
    }
}

/// The part of a file name that may hold its date: what stands before the first
/// underscore.
pub open spec fn date_part(s: Seq<char>) -> Seq<char> {
    s.take(first_underscore(s, 0))
}

/// The slug of a file name: what follows the first underscore, or the whole name if it
/// has none.
pub open spec fn slug_part(s: Seq<char>) -> Seq<char> {
    let p = first_underscore(s, 0);
    if p < s.len() {
        s.skip(p + 1)
    } else {
        s
    }
}

proof fn lemma_first_underscore_bounds(s: Seq<char>, i: int)
    requires
        0 <= i <= s.len(),
    ensures
        i <= first_underscore(s, i) <= s.len(),
        first_underscore(s, i) < s.len() ==> s[first_underscore(s, i)] == '_',
        forall|j: int| i <= j < first_underscore(s, i) ==> s[j] != '_',
    decreases s.len() - i,
{
    if i < s.len() && s[i] != '_' {
        lemma_first_underscore_bounds(s, i + 1);
    }
}

/// Splits a file name at its first underscore. Where the part before it is a date, or a
/// date and a time, that is returned with the part after it, the slug. A name without
/// underscore is all slug.
pub fn file_name_into_date_and_slug(file_name: &str) -> (r: (Option<(Date, Option<Time>)>, String))
    ensures
        r.1@ == slug_part(file_name@),
        first_underscore(file_name@, 0) < file_name@.len() ==> match r.0 {
            Some(d) => parsed_date_time(encode_utf8(date_part(file_name@))) == Ok::<
                (Date, Option<Time>),
                (),
            >(d),
            None => parsed_date_time(encode_utf8(date_part(file_name@))) is Err,
        },
        first_underscore(file_name@, 0) >= file_name@.len() ==> r.0 is None,
{
    let mut key = String::new();
    let mut slug = String::new();
    let mut found = false;
    let ghost s = file_name@;
    proof {
        lemma_first_underscore_bounds(s, 0);
    }
    let ghost p = first_underscore(s, 0);
    for c in it: file_name.chars()
        invariant
            it.seq() == s,
            p == first_underscore(s, 0),
            0 <= p <= s.len(),
            p < s.len() ==> s[p] == '_',
            forall|j: int| 0 <= j < p ==> s[j] != '_',
            found == (it.index() > p),
            !found ==> key@ == s.take(it.index() as int) && slug@.len() == 0,
            found ==> key@ == s.take(p) && slug@ == s.subrange(p + 1, it.index() as int),
    {
        if found {
            push_char(&mut slug, c);
            assert(slug@ =~= s.subrange(p + 1, it.index() + 1));
        } else if c == '_' {
            found = true;
            assert(it.index() == p);
            assert(slug@ =~= s.subrange(p + 1, it.index() + 1));
        } else {
            push_char(&mut key, c);
            assert(key@ =~= s.take(it.index() + 1));
        }
    }
    if found {
        assert(slug@ =~= s.skip(p + 1));
        (parse_date_time(key.as_str()).ok(), slug)
    } else {
        assert(key@ =~= s);
        (None, key)
    }
}

} // verus!
