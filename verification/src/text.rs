//! Text on the level of characters: splitting, trimming, searching, and the
//! decimal and hexadecimal forms of numbers.

use vstd::prelude::*;
use vstd::slice::slice_subrange;
use vstd::utf8;

verus! {

/// `String::push` appends the given character.
pub assume_specification[ String::push ](s: &mut String, c: char)
    ensures
        final(s)@ == old(s)@.push(c),
;

/// The characters that `String::from_utf8_lossy` makes of a byte sequence:
/// its UTF-8 decoding, with the replacement character standing for each
/// sequence that is not UTF-8.
pub uninterp spec fn utf8_lossy(bytes: Seq<u8>) -> Seq<char>;

/// `String::from_utf8_lossy`. The result is a function of the bytes, and it
/// is their decoding where they are UTF-8. How many replacement characters
/// stand for an invalid stretch is left to the name.
#[verifier::external_body]
pub(crate) fn decode_lossy(bytes: &[u8]) -> (r: String)
    ensures
        r@ == utf8_lossy(bytes@),
        utf8::valid_utf8(bytes@) ==> r@ == utf8::decode_utf8(bytes@),
{
    String::from_utf8_lossy(bytes).into_owned()
}

/// The characters of a string.
pub fn chars_of(s: &str) -> (r: Vec<char>)
    ensures
        r@ == s@,
{
    let mut out: Vec<char> = Vec::new();
    for c in it: s.chars()
        invariant
            out@ == s@.take(it.index()),
            it.seq() == s@,
    {
        out.push(c);
    }
    out
}

/// The string that holds the given characters.
pub fn string_of(chars: &[char]) -> (r: String)
    ensures
        r@ == chars@,
{
    let mut out = String::new();
    for i in 0..chars.len()
        invariant
            out@ == chars@.take(i as int),
    {
        out.push(chars[i]);
    }
    assert(chars@.take(chars@.len() as int) == chars@);
    out
}

/// The texts that a list of strings holds.
pub open spec fn strings(list: Seq<String>) -> Seq<Seq<char>> {
    Seq::new(list.len(), |i: int| list[i]@)
}

/// The text of an optional string.
pub open spec fn opt_string(s: Option<String>) -> Option<Seq<char>> {
    match s {
        Some(s) => Some(s@),
        None => None,
    }
}

/// A copy of an optional string.
pub fn copied(s: &Option<String>) -> (r: Option<String>)
    ensures
        opt_string(r) == opt_string(*s),
{
    match s {
        Some(s) => Some(s.clone()),
        None => None,
    }
}

/// Whether two strings hold the same characters.
pub fn same_text(a: &str, b: &str) -> (r: bool)
    ensures
        r == (a@ == b@),
{
    let x = a.as_bytes();
    let y = b.as_bytes();
    proof {
        utf8::encode_utf8_decode_utf8(a@);
        utf8::encode_utf8_decode_utf8(b@);
    }
    if x.len() != y.len() {
        return false;
    }
    for i in 0..x.len()
        invariant
            x@.len() == y@.len(),
            x@ == utf8::encode_utf8(a@),
            y@ == utf8::encode_utf8(b@),
            forall|j: int| 0 <= j < i ==> x@[j] == y@[j],
    {
        if x[i] != y[i] {
            return false;
        }
    }
    assert(x@ == y@);
    true
}

/// The UTF-8 bytes of a string.
pub fn bytes_of(s: &str) -> (r: Vec<u8>)
    ensures
        r@ == utf8::encode_utf8(s@),
{
    let b = s.as_bytes();
    let mut out: Vec<u8> = Vec::new();
    out.extend_from_slice(b);
    assert(out@ =~= b@);
    out
}

// Order

/// How two strings compare.
#[derive(Debug, Clone, Copy, PartialEq, Eq, Structural)]
pub enum Order {
    Less,
    Equal,
    Greater,
}

/// The lexicographic order of byte sequences.
pub open spec fn byte_order(a: Seq<u8>, b: Seq<u8>) -> Order
    decreases a.len(),
{
    if a.len() == 0 && b.len() == 0 {
        Order::Equal
    } else if a.len() == 0 {
        Order::Less
    } else if b.len() == 0 {
        Order::Greater
    } else if a[0] < b[0] {
        Order::Less
    } else if a[0] > b[0] {
        Order::Greater
    } else {
        byte_order(a.drop_first(), b.drop_first())
    }
}

/// The order of texts: that of their UTF-8 bytes.
pub open spec fn text_order(a: Seq<char>, b: Seq<char>) -> Order {
    byte_order(utf8::encode_utf8(a), utf8::encode_utf8(b))
}

/// Whether a text comes before another.
pub open spec fn precedes(a: Seq<char>, b: Seq<char>) -> bool {
    text_order(a, b) == Order::Less
}

proof fn lemma_byte_order(a: Seq<u8>, b: Seq<u8>)
    ensures
        byte_order(a, b) == Order::Equal <==> a == b,
        byte_order(a, b) == Order::Less <==> byte_order(b, a) == Order::Greater,
    decreases a.len(),
{
    if a.len() > 0 && b.len() > 0 && a[0] == b[0] {
        lemma_byte_order(a.drop_first(), b.drop_first());
        assert(a =~= seq![a[0]] + a.drop_first());
        assert(b =~= seq![b[0]] + b.drop_first());
    } else if a.len() == 0 && b.len() == 0 {
        assert(a =~= b);
    }
}

proof fn lemma_byte_order_transitive(a: Seq<u8>, b: Seq<u8>, c: Seq<u8>)
    requires
        byte_order(a, b) == Order::Less,
        byte_order(b, c) == Order::Less,
    ensures
        byte_order(a, c) == Order::Less,
    decreases a.len(),
{
    if a.len() > 0 && b.len() > 0 && c.len() > 0 && a[0] == b[0] && b[0] == c[0] {
        lemma_byte_order_transitive(a.drop_first(), b.drop_first(), c.drop_first());
    }
}

/// Texts are totally ordered: of two, either they are the same or exactly one
/// comes before the other.
pub proof fn lemma_text_order(a: Seq<char>, b: Seq<char>)
    ensures
        text_order(a, b) == Order::Equal <==> a == b,
        text_order(a, b) == Order::Less <==> text_order(b, a) == Order::Greater,
{
    lemma_byte_order(utf8::encode_utf8(a), utf8::encode_utf8(b));
    utf8::encode_utf8_decode_utf8(a);
    utf8::encode_utf8_decode_utf8(b);
}

/// What comes before something comes before all that follows it.
pub proof fn lemma_precedes_transitive(a: Seq<char>, b: Seq<char>, c: Seq<char>)
    requires
        precedes(a, b),
        precedes(b, c),
    ensures
        precedes(a, c),
{
    lemma_byte_order_transitive(
        utf8::encode_utf8(a),
        utf8::encode_utf8(b),
        utf8::encode_utf8(c),
    );
}

pub fn order(a: &str, b: &str) -> (r: Order)
    ensures
        r == text_order(a@, b@),
{
    let x = a.as_bytes();
    let y = b.as_bytes();
    let n: usize = x.len();
    let m: usize = y.len();
    let mut i: usize = 0;
    assert(x@.skip(0) == x@);
    assert(y@.skip(0) == y@);
    while i < n && i < m
        invariant
            n == x@.len(),
            m == y@.len(),
            i <= n,
            i <= m,
            x@ == utf8::encode_utf8(a@),
            y@ == utf8::encode_utf8(b@),
            byte_order(x@, y@) == byte_order(x@.skip(i as int), y@.skip(i as int)),
        decreases n - i,
    {
        if x[i] < y[i] {
            return Order::Less;
        }
        if x[i] > y[i] {
            return Order::Greater;
        }
        assert(x@.skip(i as int).drop_first() == x@.skip(i + 1));
        assert(y@.skip(i as int).drop_first() == y@.skip(i + 1));
        i = i + 1;
    }
    if i < n {
        Order::Greater
    } else if i < m {
        Order::Less
    } else {
        Order::Equal
    }
}

// White space

/// The Unicode `White_Space` property.
pub open spec fn white(c: char) -> bool {
    let u = c as u32;
    ||| 0x9 <= u <= 0xd
    ||| u == 0x20
    ||| u == 0x85
    ||| u == 0xa0
    ||| u == 0x1680
    ||| 0x2000 <= u <= 0x200a
    ||| u == 0x2028
    ||| u == 0x2029
    ||| u == 0x202f
    ||| u == 0x205f
    ||| u == 0x3000
}

pub fn is_white(c: char) -> (r: bool)
    ensures
        r == white(c),
{
    let u: u32 = c as u32;
    (0x9 <= u && u <= 0xd) || u == 0x20 || u == 0x85 || u == 0xa0 || u == 0x1680 || (0x2000 <= u
        && u <= 0x200a) || u == 0x2028 || u == 0x2029 || u == 0x202f || u == 0x205f || u == 0x3000
}

/// `s` without the white space it starts with.
pub open spec fn trimmed_start(s: Seq<char>) -> Seq<char>
    decreases s.len(),
{
    if s.len() > 0 && white(s[0]) {
        trimmed_start(s.drop_first())
    } else {
        s
    }
}

/// `s` without the white space it ends with.
pub open spec fn trimmed_end(s: Seq<char>) -> Seq<char>
    decreases s.len(),
{
    if s.len() > 0 && white(s.last()) {
        trimmed_end(s.drop_last())
    } else {
        s
    }
}

/// `s` without the white space at either end.
pub open spec fn trimmed(s: Seq<char>) -> Seq<char> {
    trimmed_end(trimmed_start(s))
}

pub fn trim<'a>(s: &'a [char]) -> (r: &'a [char])
    ensures
        r@ == trimmed(s@),
{
    let n: usize = s.len();
    let mut from: usize = 0;
    assert(s@.subrange(0, n as int) == s@);
    while from < n && is_white(s[from])
        invariant
            from <= n,
            n == s@.len(),
            trimmed_start(s@) == trimmed_start(s@.subrange(from as int, n as int)),
        decreases n - from,
    {
        assert(s@.subrange(from as int, n as int).drop_first() == s@.subrange(from + 1, n as int));
        from = from + 1;
    }
    assert(trimmed_start(s@) == s@.subrange(from as int, n as int));
    let mut to: usize = n;
    while to > from && is_white(s[to - 1])
        invariant
            from <= to <= n,
            n == s@.len(),
            trimmed_end(s@.subrange(from as int, n as int)) == trimmed_end(
                s@.subrange(from as int, to as int),
            ),
        decreases to - from,
    {
        assert(s@.subrange(from as int, to as int).drop_last() == s@.subrange(from as int, to - 1));
        to = to - 1;
    }
    slice_subrange(s, from, to)
}

/// `s` without the `c`s it ends with.
pub open spec fn without_trailing(s: Seq<char>, c: char) -> Seq<char>
    decreases s.len(),
{
    if s.len() > 0 && s.last() == c {
        without_trailing(s.drop_last(), c)
    } else {
        s
    }
}

pub fn trim_trailing<'a>(s: &'a [char], c: char) -> (r: &'a [char])
    ensures
        r@ == without_trailing(s@, c),
{
    let mut to: usize = s.len();
    assert(s@.take(to as int) == s@);
    while to > 0 && s[to - 1] == c
        invariant
            to <= s@.len(),
            without_trailing(s@, c) == without_trailing(s@.take(to as int), c),
        decreases to,
    {
        assert(s@.take(to as int).drop_last() == s@.take(to - 1));
        to = to - 1;
    }
    let r = slice_subrange(s, 0, to);
    assert(r@ == s@.take(to as int));
    r
}

/// Texts one after the other, with a separator between them.
pub open spec fn joined(parts: Seq<Seq<char>>, separator: Seq<char>) -> Seq<char>
    decreases parts.len(),
{
    if parts.len() == 0 {
        Seq::empty()
    } else if parts.len() == 1 {
        parts[0]
    } else {
        joined(parts.drop_last(), separator) + separator + parts.last()
    }
}

pub fn join(parts: &Vec<String>, separator: &str) -> (r: String)
    ensures
        r@ == joined(strings(parts@), separator@),
{
    let ghost all = strings(parts@);
    let mut out = String::new();
    assert(out@ =~= joined(all.take(0), separator@));
    for i in 0..parts.len()
        invariant
            all == strings(parts@),
            out@ == joined(all.take(i as int), separator@),
    {
        if i > 0 {
            out.append(separator);
        }
        out.append(parts[i].as_str());
        proof {
            assert(all.take(i + 1).drop_last() =~= all.take(i as int));
            assert(all.take(i + 1).last() == parts@[i as int]@);
            assert(out@ =~= joined(all.take(i + 1), separator@));
        }
    }
    assert(all.take(parts@.len() as int) =~= all);
    out
}

// Searching

/// The index of the first `c` in `s`, or the length of `s`.
pub open spec fn find_char(s: Seq<char>, c: char) -> int
    decreases s.len(),
{
    if s.len() == 0 || s[0] == c {
        0
    } else {
        1 + find_char(s.drop_first(), c)
    }
}

/// What [`find_char`] finds: the first `c`, and none before it.
pub proof fn lemma_find_char(s: Seq<char>, c: char)
    ensures
        0 <= find_char(s, c) <= s.len(),
        find_char(s, c) < s.len() ==> s[find_char(s, c)] == c,
        forall|j: int| 0 <= j < find_char(s, c) ==> s[j] != c,
    decreases s.len(),
{
    if s.len() != 0 && s[0] != c {
        let t = s.drop_first();
        lemma_find_char(t, c);
        assert forall|j: int| 0 <= j < find_char(s, c) implies s[j] != c by {
            if j > 0 {
                assert(t[j - 1] == s[j]);
            }
        }
    }
}

/// An index with `c` there and none before is the one that [`find_char`] finds.
pub proof fn lemma_find_char_unique(s: Seq<char>, c: char, i: int)
    requires
        0 <= i <= s.len(),
        i < s.len() ==> s[i] == c,
        forall|j: int| 0 <= j < i ==> s[j] != c,
    ensures
        find_char(s, c) == i,
{
    lemma_find_char(s, c);
    let k = find_char(s, c);
    if k < i {
        assert(s[k] != c);
    }
}

pub fn index_of(s: &[char], c: char) -> (r: usize)
    ensures
        r == find_char(s@, c),
        r <= s@.len(),
{
    let mut i: usize = 0;
    while i < s.len() && s[i] != c
        invariant
            i <= s@.len(),
            forall|j: int| 0 <= j < i ==> s@[j] != c,
        decreases s@.len() - i,
    {
        i = i + 1;
    }
    proof {
        lemma_find_char_unique(s@, c, i as int);
    }
    i
}

/// Whether `needle` stands in `s` at index `i`.
pub open spec fn occurs_at(s: Seq<char>, needle: Seq<char>, i: int) -> bool {
    0 <= i && i + needle.len() <= s.len() && s.subrange(i, i + needle.len()) == needle
}

/// Whether `needle` stands anywhere in `s`.
pub open spec fn contains_text(s: Seq<char>, needle: Seq<char>) -> bool {
    exists|i: int| occurs_at(s, needle, i)
}

pub fn matches_at(s: &[char], needle: &[char], at: usize) -> (r: bool)
    ensures
        r == occurs_at(s@, needle@, at as int),
{
    if needle.len() > s.len() || at > s.len() - needle.len() {
        return false;
    }
    let n: usize = s.len();
    for j in 0..needle.len()
        invariant
            n == s@.len(),
            at + needle@.len() <= n,
            forall|k: int| 0 <= k < j ==> s@[at + k] == needle@[k],
    {
        if s[at + j] != needle[j] {
            assert(s@.subrange(at as int, at + needle@.len())[j as int] != needle@[j as int]);
            return false;
        }
    }
    assert(s@.subrange(at as int, at + needle@.len()) == needle@);
    true
}

pub fn contains(s: &[char], needle: &[char]) -> (r: bool)
    ensures
        r == contains_text(s@, needle@),
{
    if needle.len() > s.len() {
        return false;
    }
    let last: usize = s.len() - needle.len();
    let mut i: usize = 0;
    while i <= last
        invariant
            i <= last + 1,
            last + needle@.len() == s@.len(),
            forall|k: int| 0 <= k < i ==> !occurs_at(s@, needle@, k),
        decreases last + 1 - i,
    {
        if matches_at(s, needle, i) {
            return true;
        }
        if i == last {
            assert(forall|k: int| k > last ==> !occurs_at(s@, needle@, k));
            return false;
        }
        i = i + 1;
    }
    false
}

pub fn contains_char(s: &[char], c: char) -> (r: bool)
    ensures
        r == s@.contains(c),
{
    let i = index_of(s, c);
    proof {
        lemma_find_char(s@, c);
        if i < s@.len() {
            assert(s@[i as int] == c);
        }
    }
    i < s.len()
}

/// The last index at or before `k` at which `needle` stands in `s`.
pub open spec fn last_occurrence(s: Seq<char>, needle: Seq<char>, k: int) -> Option<int>
    decreases k + 1,
{
    if k < 0 {
        None
    } else if occurs_at(s, needle, k) {
        Some(k)
    } else {
        last_occurrence(s, needle, k - 1)
    }
}

/// The last index at which `needle` stands in `s`.
pub open spec fn rfind_text(s: Seq<char>, needle: Seq<char>) -> Option<int> {
    last_occurrence(s, needle, s.len() - needle.len())
}

pub fn rfind(s: &[char], needle: &[char]) -> (r: Option<usize>)
    ensures
        match r {
            Some(i) => rfind_text(s@, needle@) == Some(i as int) && i + needle@.len() <= s@.len(),
            None => rfind_text(s@, needle@) is None,
        },
{
    if needle.len() > s.len() {
        return None;
    }
    let mut i: usize = s.len() - needle.len();
    loop
        invariant
            i + needle@.len() <= s@.len(),
            rfind_text(s@, needle@) == last_occurrence(s@, needle@, i as int),
        decreases i,
    {
        if matches_at(s, needle, i) {
            return Some(i);
        }
        if i == 0 {
            assert(last_occurrence(s@, needle@, -1) is None);
            return None;
        }
        i = i - 1;
    }
}

/// Whether `s` starts with `prefix`.
pub open spec fn begins(s: Seq<char>, prefix: Seq<char>) -> bool {
    occurs_at(s, prefix, 0)
}

/// Whether `s` ends with `suffix`.
pub open spec fn ends(s: Seq<char>, suffix: Seq<char>) -> bool {
    occurs_at(s, suffix, s.len() - suffix.len())
}

pub fn starts_with(s: &[char], prefix: &[char]) -> (r: bool)
    ensures
        r == begins(s@, prefix@),
{
    matches_at(s, prefix, 0)
}

pub fn ends_with(s: &[char], suffix: &[char]) -> (r: bool)
    ensures
        r == ends(s@, suffix@),
{
    if suffix.len() > s.len() {
        return false;
    }
    matches_at(s, suffix, s.len() - suffix.len())
}

// Lines

/// `s` without the carriage return it ends with, if it ends with one.
pub open spec fn without_cr(s: Seq<char>) -> Seq<char> {
    if s.len() > 0 && s.last() == '\r' {
        s.drop_last()
    } else {
        s
    }
}

/// The lines of a text: what stands before each line feed, less a carriage
/// return right before it, and what is left after the last one, if anything.
pub open spec fn lines(s: Seq<char>) -> Seq<Seq<char>>
    decreases s.len(),
{
    if s.len() == 0 {
        Seq::empty()
    } else {
        let i = find_char(s, '\n');
        if 0 <= i < s.len() {
            seq![without_cr(s.take(i))] + lines(s.skip(i + 1))
        } else {
            seq![s]
        }
    }
}

/// The texts that a list of character slices holds.
pub open spec fn texts(parts: Seq<&[char]>) -> Seq<Seq<char>> {
    Seq::new(parts.len(), |i: int| parts[i]@)
}

pub fn split_lines<'a>(s: &'a [char]) -> (r: Vec<&'a [char]>)
    ensures
        texts(r@) == lines(s@),
{
    let n: usize = s.len();
    let mut out: Vec<&'a [char]> = Vec::new();
    let mut at: usize = 0;
    assert(s@.skip(0) == s@);
    while at < n
        invariant
            at <= n,
            n == s@.len(),
            texts(out@) + lines(s@.skip(at as int)) == lines(s@),
        decreases n - at,
    {
        let rest = slice_subrange(s, at, n);
        let i = index_of(rest, '\n');
        let ghost before = out@;
        assert(rest@ == s@.skip(at as int));
        if i < rest.len() {
            let end: usize = if i > 0 && rest[i - 1] == '\r' {
                i - 1
            } else {
                i
            };
            let line = slice_subrange(rest, 0, end);
            assert(line@ == without_cr(rest@.take(i as int)));
            out.push(line);
            assert(texts(out@) == texts(before).push(line@));
            assert(rest@.skip(i + 1) == s@.skip(at + i + 1));
            at = at + i + 1;
        } else {
            out.push(rest);
            assert(texts(out@) == texts(before).push(rest@));
            assert(s@.skip(n as int).len() == 0);
            at = n;
        }
    }
    assert(s@.skip(n as int).len() == 0);
    out
}

// Pieces

/// The pieces of a text between the occurrences of a character.
pub open spec fn pieces(s: Seq<char>, c: char) -> Seq<Seq<char>>
    decreases s.len(),
{
    let i = find_char(s, c);
    if 0 <= i < s.len() {
        seq![s.take(i)] + pieces(s.skip(i + 1), c)
    } else {
        seq![s]
    }
}

pub fn split<'a>(s: &'a [char], c: char) -> (r: Vec<&'a [char]>)
    ensures
        texts(r@) == pieces(s@, c),
{
    let n: usize = s.len();
    let mut out: Vec<&'a [char]> = Vec::new();
    let mut at: usize = 0;
    assert(s@.skip(0) == s@);
    assert(texts(out@) + pieces(s@, c) == pieces(s@, c));
    loop
        invariant
            at <= n,
            n == s@.len(),
            texts(out@) + pieces(s@.skip(at as int), c) == pieces(s@, c),
        decreases n - at,
    {
        let rest = slice_subrange(s, at, n);
        let i = index_of(rest, c);
        let ghost before = out@;
        assert(rest@ == s@.skip(at as int));
        if i < rest.len() {
            let piece = slice_subrange(rest, 0, i);
            assert(piece@ == rest@.take(i as int));
            out.push(piece);
            assert(texts(out@) == texts(before).push(piece@));
            assert(rest@.skip(i + 1) == s@.skip(at + i + 1));
            assert(texts(before).push(piece@) + pieces(rest@.skip(i + 1), c) == texts(before) + (
            seq![piece@] + pieces(rest@.skip(i + 1), c)));
            at = at + i + 1;
        } else {
            out.push(rest);
            assert(texts(out@) == texts(before) + seq![rest@]);
            return out;
        }
    }
}

/// The index of the first white space in `s`, or the length of `s`.
pub open spec fn find_white(s: Seq<char>) -> int
    decreases s.len(),
{
    if s.len() == 0 || white(s[0]) {
        0
    } else {
        1 + find_white(s.drop_first())
    }
}

fn index_of_white(s: &[char]) -> (r: usize)
    ensures
        r == find_white(s@),
        r <= s@.len(),
{
    let mut i: usize = 0;
    assert(s@.skip(0) == s@);
    while i < s.len() && !is_white(s[i])
        invariant
            i <= s@.len(),
            find_white(s@) == i + find_white(s@.skip(i as int)),
        decreases s@.len() - i,
    {
        assert(s@.skip(i as int).drop_first() == s@.skip(i + 1));
        i = i + 1;
    }
    i
}

/// The pieces of a text between single white-space characters, at most `n` of
/// them: the last one is whatever is left.
pub open spec fn white_pieces(s: Seq<char>, n: nat) -> Seq<Seq<char>>
    decreases n,
{
    let i = find_white(s);
    if n == 0 {
        Seq::empty()
    } else if n == 1 || i >= s.len() {
        seq![s]
    } else {
        seq![s.take(i)] + white_pieces(s.skip(i + 1), (n - 1) as nat)
    }
}

/// The texts of a list that are not empty.
pub open spec fn non_empty(parts: Seq<Seq<char>>) -> Seq<Seq<char>>
    decreases parts.len(),
{
    if parts.len() == 0 {
        Seq::empty()
    } else if parts[0].len() == 0 {
        non_empty(parts.drop_first())
    } else {
        seq![parts[0]] + non_empty(parts.drop_first())
    }
}

/// Splits a text at white space into at most `n` pieces, and drops the empty
/// ones.
pub fn split_white<'a>(s: &'a [char], n: usize) -> (r: Vec<&'a [char]>)
    ensures
        texts(r@) == non_empty(white_pieces(s@, n as nat)),
{
    let mut out: Vec<&'a [char]> = Vec::new();
    let mut rest: &'a [char] = s;
    let mut left: usize = n;
    assert(texts(out@) + non_empty(white_pieces(s@, n as nat)) == non_empty(
        white_pieces(s@, n as nat),
    ));
    while left > 0
        invariant
            texts(out@) + non_empty(white_pieces(rest@, left as nat)) == non_empty(
                white_pieces(s@, n as nat),
            ),
        decreases left,
    {
        let i = index_of_white(rest);
        let last: bool = left == 1 || i >= rest.len();
        let piece: &'a [char] = if last {
            rest
        } else {
            slice_subrange(rest, 0, i)
        };
        let ghost before = out@;
        let ghost tail = if last {
            Seq::<Seq<char>>::empty()
        } else {
            white_pieces(rest@.skip(i + 1), (left - 1) as nat)
        };
        proof {
            assert(piece@ == if last {
                rest@
            } else {
                rest@.take(i as int)
            });
            let whole = white_pieces(rest@, left as nat);
            assert(whole =~= seq![piece@] + tail);
            assert(whole.drop_first() =~= tail);
        }
        if piece.len() > 0 {
            out.push(piece);
            assert(texts(out@) =~= texts(before).push(piece@));
            assert(texts(before) + (seq![piece@] + non_empty(tail)) =~= texts(before).push(piece@)
                + non_empty(tail));
        }
        assert(texts(out@) + non_empty(tail) == non_empty(white_pieces(s@, n as nat)));
        if last {
            assert(texts(out@) + non_empty(tail) =~= texts(out@));
            return out;
        }
        let next = slice_subrange(rest, i + 1, rest.len());
        assert(next@ == rest@.skip(i + 1));
        rest = next;
        left = left - 1;
    }
    assert(texts(out@) + non_empty(white_pieces(rest@, 0)) =~= texts(out@));
    out
}

// Numbers

/// The digit character of a value below ten.
pub open spec fn digit_char(d: nat) -> char {
    (48 + d) as char
}

/// The decimal form of a number.
pub open spec fn decimal(n: nat) -> Seq<char>
    decreases n,
{
    if n < 10 {
        seq![digit_char(n)]
    } else {
        decimal(n / 10).push(digit_char(n % 10))
    }
}

pub fn push_decimal(out: &mut String, n: u64)
    ensures
        final(out)@ == old(out)@ + decimal(n as nat),
    decreases n,
{
    if n >= 10 {
        push_decimal(out, n / 10);
    }
    let d: u8 = (n % 10) as u8;
    out.push((48 + d) as char);
}

/// The decimal form of a number, with a sign if it is negative.
pub open spec fn signed_decimal(n: int) -> Seq<char> {
    if n < 0 {
        seq!['-'] + decimal((-n) as nat)
    } else {
        decimal(n as nat)
    }
}

/// The lower-case digit character of a value below sixteen.
pub open spec fn hex_char(d: nat) -> char {
    if d < 10 {
        (48 + d) as char
    } else {
        (87 + d) as char
    }
}

/// The hexadecimal form of a number.
pub open spec fn hexadecimal(n: nat) -> Seq<char>
    decreases n,
{
    if n < 16 {
        seq![hex_char(n)]
    } else {
        hexadecimal(n / 16).push(hex_char(n % 16))
    }
}

pub fn push_hex(out: &mut String, n: u64)
    ensures
        final(out)@ == old(out)@ + hexadecimal(n as nat),
    decreases n,
{
    if n >= 16 {
        push_hex(out, n / 16);
    }
    let d: u8 = (n % 16) as u8;
    if d < 10 {
        out.push((48 + d) as char);
    } else {
        out.push((87 + d) as char);
    }
}

/// Why a text is not a number of the wanted type.
#[derive(Debug, Clone, Copy, PartialEq, Eq, Structural)]
pub enum IntError {
    Empty,
    InvalidDigit,
    Overflow,
}

/// What [`IntError`] says.
pub open spec fn int_error_text(e: IntError) -> Seq<char> {
    match e {
        IntError::Empty => "cannot parse integer from empty string"@,
        IntError::InvalidDigit => "invalid digit found in string"@,
        IntError::Overflow => "number too large to fit in target type"@,
    }
}

impl IntError {
    /// Says what is wrong.
    pub fn text(self) -> (r: &'static str)
        ensures
            r@ == int_error_text(self),
    {
        match self {
            IntError::Empty => "cannot parse integer from empty string",
            IntError::InvalidDigit => "invalid digit found in string",
            IntError::Overflow => "number too large to fit in target type",
        }
    }
}

/// The value of a digit of the given radix, in either case.
pub open spec fn digit_value(c: char, radix: int) -> Option<int> {
    let u = c as u32;
    let v = if 48 <= u <= 57 {
        u - 48
    } else if 97 <= u <= 122 {
        u - 97 + 10
    } else if 65 <= u <= 90 {
        u - 65 + 10
    } else {
        radix
    };
    if v < radix {
        Some(v)
    } else {
        None
    }
}

/// The number that a run of digits continues from `acc`, read from the left
/// until a character is no digit or the value passes `max`.
pub open spec fn digits_from(s: Seq<char>, radix: int, max: int, acc: int) -> Result<int, IntError>
    decreases s.len(),
{
    if s.len() == 0 {
        Ok(acc)
    } else {
        match digit_value(s[0], radix) {
            None => Err(IntError::InvalidDigit),
            Some(d) => if acc * radix + d > max {
                Err(IntError::Overflow)
            } else {
                digits_from(s.drop_first(), radix, max, acc * radix + d)
            },
        }
    }
}

/// The number that a text writes in the given radix: at least one digit,
/// after an optional plus sign.
pub open spec fn unsigned_value(s: Seq<char>, radix: int, max: int) -> Result<int, IntError> {
    if s.len() == 0 {
        Err(IntError::Empty)
    } else if s == seq!['+'] {
        Err(IntError::InvalidDigit)
    } else if s[0] == '+' {
        digits_from(s.drop_first(), radix, max, 0)
    } else {
        digits_from(s, radix, max, 0)
    }
}

fn parse_digits(s: &[char], from: usize, radix: u64, max: u64) -> (r: Result<u64, IntError>)
    requires
        from <= s@.len(),
        2 <= radix <= 36,
    ensures
        match r {
            Ok(v) => digits_from(s@.skip(from as int), radix as int, max as int, 0) == Ok::<
                int,
                IntError,
            >(v as int) && v <= max,
            Err(e) => digits_from(s@.skip(from as int), radix as int, max as int, 0) == Err::<
                int,
                IntError,
            >(e),
        },
{
    let mut acc: u64 = 0;
    let mut i: usize = from;
    let ghost whole = digits_from(s@.skip(from as int), radix as int, max as int, 0);
    while i < s.len()
        invariant
            from <= i <= s@.len(),
            2 <= radix <= 36,
            acc <= max,
            whole == digits_from(s@.skip(from as int), radix as int, max as int, 0),
            whole == digits_from(s@.skip(i as int), radix as int, max as int, acc as int),
        decreases s@.len() - i,
    {
        let u: u32 = s[i] as u32;
        let v: u64 = if 48 <= u && u <= 57 {
            (u - 48) as u64
        } else if 97 <= u && u <= 122 {
            (u - 97 + 10) as u64
        } else if 65 <= u && u <= 90 {
            (u - 65 + 10) as u64
        } else {
            radix
        };
        assert(s@.skip(i as int)[0] == s@[i as int]);
        assert(s@.skip(i as int).drop_first() == s@.skip(i + 1));
        if v >= radix {
            return Err(IntError::InvalidDigit);
        }
        assert(acc * radix <= u64::MAX * 36) by (nonlinear_arith)
            requires
                0 <= acc <= u64::MAX,
                0 <= radix <= 36,
        ;
        let next: u128 = (acc as u128) * (radix as u128) + (v as u128);
        if next > max as u128 {
            return Err(IntError::Overflow);
        }
        acc = next as u64;
        i = i + 1;
    }
    Ok(acc)
}

/// Reads an unsigned number in the given radix, as `u64::from_str_radix` does.
pub fn parse_unsigned(s: &[char], radix: u64) -> (r: Result<u64, IntError>)
    requires
        2 <= radix <= 36,
    ensures
        match r {
            Ok(v) => unsigned_value(s@, radix as int, u64::MAX as int) == Ok::<int, IntError>(
                v as int,
            ),
            Err(e) => unsigned_value(s@, radix as int, u64::MAX as int) == Err::<int, IntError>(e),
        },
{
    if s.len() == 0 {
        return Err(IntError::Empty);
    }
    assert(s@.skip(0) == s@);
    assert(s@.skip(1) == s@.drop_first());
    if s[0] == '+' {
        if s.len() == 1 {
            assert(s@ == seq!['+']);
            return Err(IntError::InvalidDigit);
        }
        assert(s@.len() > 1);
        return parse_digits(s, 1, radix, u64::MAX);
    }
    parse_digits(s, 0, radix, u64::MAX)
}

/// The 32-bit signed number that a text writes in decimal: at least one
/// digit, after an optional sign.
pub open spec fn signed_value(s: Seq<char>) -> Option<int> {
    let positive = s.len() > 0 && s[0] == '+';
    let negative = s.len() > 0 && s[0] == '-';
    let body = if positive || negative {
        s.drop_first()
    } else {
        s
    };
    if body.len() == 0 {
        None
    } else if negative {
        match digits_from(body, 10, 0x8000_0000, 0) {
            Ok(v) => Some(-v),
            Err(_) => None,
        }
    } else {
        match digits_from(body, 10, 0x7fff_ffff, 0) {
            Ok(v) => Some(v),
            Err(_) => None,
        }
    }
}

/// Reads a decimal 32-bit number, as `str::parse::<i32>` does.
pub fn parse_i32(s: &[char]) -> (r: Option<i32>)
    ensures
        match r {
            Some(v) => signed_value(s@) == Some(v as int),
            None => signed_value(s@) is None,
        },
{
    assert(s@.skip(0) == s@);
    assert(s@.len() > 0 ==> s@.skip(1) == s@.drop_first());
    let positive: bool = s.len() > 0 && s[0] == '+';
    let negative: bool = s.len() > 0 && s[0] == '-';
    let from: usize = if positive || negative {
        1
    } else {
        0
    };
    if s.len() == from {
        return None;
    }
    let max: u64 = if negative {
        0x8000_0000
    } else {
        0x7fff_ffff
    };
    match parse_digits(s, from, 10, max) {
        Ok(v) => if negative {
            Some((0 - v as i64) as i32)
        } else {
            Some(v as i32)
        },
        Err(_) => None,
    }
}

} // verus!
