//! What is written and read of texts, character by character.

use crate::text;
use crate::text::IntError;
use crate::text::Order;
use vstd::prelude::*;
use vstd::utf8;

verus! {

// Numbers

/// Whether a text is decimal digits.
pub open spec fn all_digits(s: Seq<char>) -> bool {
    forall|i: int| 0 <= i < s.len() ==> '0' <= #[trigger] s[i] <= '9'
}

/// The number that decimal digits write.
pub open spec fn decimal_value(s: Seq<char>) -> int
    decreases s.len(),
{
    if s.len() == 0 {
        0
    } else {
        10 * decimal_value(s.drop_last()) + (s.last() as u32 - 48)
    }
}

/// A text without the plus sign that it may start with.
pub open spec fn unsigned_digits(s: Seq<char>) -> Seq<char> {
    if s.len() > 0 && s[0] == '+' {
        s.drop_first()
    } else {
        s
    }
}

/// Whether a text writes a number of at most `max`: decimal digits, at least one,
/// after an optional plus sign.
pub open spec fn writes_unsigned(s: Seq<char>, max: int) -> bool {
    let digits = unsigned_digits(s);
    digits.len() > 0 && all_digits(digits) && decimal_value(digits) <= max
}

proof fn lemma_value_grows(s: Seq<char>, n: int)
    requires
        all_digits(s),
        0 <= n <= s.len(),
    ensures
        0 <= decimal_value(s.take(n)) <= decimal_value(s),
    decreases s.len() - n,
{
    if n < s.len() {
        lemma_value_grows(s, n + 1);
        assert(s.take(n + 1).drop_last() =~= s.take(n));
        assert(s.take(n + 1).last() == s[n]);
        lemma_value_positive(s.take(n));
    } else {
        assert(s.take(n) =~= s);
        lemma_value_positive(s);
    }
}

proof fn lemma_value_positive(s: Seq<char>)
    requires
        all_digits(s),
    ensures
        decimal_value(s) >= 0,
    decreases s.len(),
{
    if s.len() > 0 {
        assert('0' <= s[s.len() - 1] <= '9');
        lemma_value_positive(s.drop_last());
    }
}

proof fn lemma_digit(c: char)
    ensures
        text::digit_value(c, 10) == if '0' <= c <= '9' {
            Some(c as u32 - 48)
        } else {
            None
        },
{
    let u = c as u32;
    assert('0' <= c <= '9' <==> 48 <= u <= 57);
}

proof fn lemma_digits(s: Seq<char>, n: int, max: int)
    requires
        0 <= n <= s.len(),
        all_digits(s.take(n)),
        decimal_value(s.take(n)) <= max,
    ensures
        all_digits(s) && decimal_value(s) <= max <==> text::digits_from(
            s.skip(n),
            10,
            max,
            decimal_value(s.take(n)),
        ) is Ok,
        text::digits_from(s.skip(n), 10, max, decimal_value(s.take(n))) matches Ok(v) ==> v
            == decimal_value(s),
    decreases s.len() - n,
{
    let acc = decimal_value(s.take(n));
    if n == s.len() {
        assert(s.take(n) =~= s);
    } else {
        let rest = s.skip(n);
        assert(rest[0] == s[n]);
        assert(s.take(n + 1).drop_last() =~= s.take(n));
        assert(s.take(n + 1).last() == s[n]);
        assert(rest.drop_first() =~= s.skip(n + 1));
        lemma_digit(s[n]);
        let radix: int = 10;
        assert(acc * radix == 10 * acc) by (nonlinear_arith)
            requires
                radix == 10,
        ;
        if '0' <= s[n] <= '9' {
            assert forall|i: int| 0 <= i < n + 1 implies '0' <= #[trigger] s.take(n + 1)[i]
                <= '9' by {
                if i < n {
                    assert(s.take(n)[i] == s[i]);
                }
            }
            if decimal_value(s.take(n + 1)) <= max {
                lemma_digits(s, n + 1, max);
            } else if all_digits(s) {
                lemma_value_grows(s, n + 1);
            }
        }
    }
}

/// A decimal number is read as what it writes; any other text is not read.
pub proof fn lemma_reads_unsigned(s: Seq<char>, max: int)
    requires
        max >= 0,
    ensures
        text::unsigned_value(s, 10, max) is Ok <==> writes_unsigned(s, max),
        text::unsigned_value(s, 10, max) matches Ok(v) ==> v == decimal_value(unsigned_digits(s))
            && v >= 0,
{
    let digits = unsigned_digits(s);
    assert(digits.take(0) =~= Seq::<char>::empty());
    assert(digits.skip(0) =~= digits);
    lemma_digits(digits, 0, max);
    if all_digits(digits) {
        lemma_value_positive(digits);
    }
    if s.len() > 0 && s[0] == '+' {
        if s.len() == 1 {
            assert(s =~= seq!['+']);
        }
    }
    if s == seq!['+'] {
        assert(digits.len() == 0);
    }
}

/// A 32-bit decimal number, with a sign or without, is read as what it writes;
/// any other text is not read.
pub proof fn lemma_reads_signed(s: Seq<char>)
    ensures
        s.len() > 0 && s[0] == '-' ==> {
            let digits = s.drop_first();
            text::signed_value(s) == if digits.len() > 0 && all_digits(digits) && decimal_value(
                digits,
            ) <= 0x8000_0000 {
                Some(-decimal_value(digits))
            } else {
                None
            }
        },
        s.len() == 0 || s[0] != '-' ==> text::signed_value(s) == if writes_unsigned(
            s,
            0x7fff_ffff,
        ) {
            Some(decimal_value(unsigned_digits(s)))
        } else {
            None
        },
{
    if s.len() > 0 {
        let body = s.drop_first();
        assert(body.take(0) =~= Seq::<char>::empty());
        assert(body.skip(0) =~= body);
        lemma_digits(body, 0, 0x8000_0000);
        lemma_digits(body, 0, 0x7fff_ffff);
    }
    assert(s.take(0) =~= Seq::<char>::empty());
    assert(s.skip(0) =~= s);
    lemma_digits(s, 0, 0x7fff_ffff);
}

/// The decimal form of a number writes that number, in digits, without a zero
/// before them.
pub proof fn lemma_writes_decimal(n: nat)
    ensures
        text::decimal(n).len() > 0,
        all_digits(text::decimal(n)),
        decimal_value(text::decimal(n)) == n,
        n > 0 ==> text::decimal(n)[0] != '0',
        n == 0 ==> text::decimal(n) == seq!['0'],
    decreases n,
{
    let s = text::decimal(n);
    let d = n % 10;
    assert(text::digit_char(d) as u32 == 48 + d);
    lemma_digit(text::digit_char(d));
    if n < 10 {
        assert(s.drop_last() =~= Seq::<char>::empty());
        assert(decimal_value(s.drop_last()) == 0);
        if n == 0 {
            assert(s =~= seq!['0']);
        }
    } else {
        lemma_writes_decimal(n / 10);
        assert(s.drop_last() =~= text::decimal(n / 10));
        assert(s[0] == text::decimal(n / 10)[0]);
        assert forall|i: int| 0 <= i < s.len() implies '0' <= #[trigger] s[i] <= '9' by {
            if i < s.len() - 1 {
                assert(s[i] == text::decimal(n / 10)[i]);
            }
        }
    }
}

/// A negative number is written as a minus sign and the digits of its opposite.
pub proof fn lemma_writes_signed(n: int)
    ensures
        n >= 0 ==> text::signed_decimal(n) == text::decimal(n as nat),
        n < 0 ==> text::signed_decimal(n).len() > 1 && text::signed_decimal(n)[0] == '-'
            && decimal_value(text::signed_decimal(n).drop_first()) == -n,
        -0x8000_0000 <= n < 0x8000_0000 ==> text::signed_value(text::signed_decimal(n)) == Some(n),
{
    let s = text::signed_decimal(n);
    lemma_reads_signed(s);
    if n < 0 {
        lemma_writes_decimal((-n) as nat);
        assert(s.drop_first() =~= text::decimal((-n) as nat));
    } else {
        lemma_writes_decimal(n as nat);
        assert('0' <= s[0] <= '9');
    }
}

/// The value of a hexadecimal digit of either case.
pub open spec fn hex_digit(c: char) -> Option<int> {
    if '0' <= c <= '9' {
        Some(c as u32 - 48)
    } else if 'a' <= c <= 'f' {
        Some(c as u32 - 97 + 10)
    } else if 'A' <= c <= 'F' {
        Some(c as u32 - 65 + 10)
    } else {
        None
    }
}

/// Whether a text is hexadecimal digits.
pub open spec fn all_hex(s: Seq<char>) -> bool {
    forall|i: int| 0 <= i < s.len() ==> hex_digit(#[trigger] s[i]) is Some
}

/// The number that hexadecimal digits write.
pub open spec fn hex_value(s: Seq<char>) -> int
    decreases s.len(),
{
    if s.len() == 0 {
        0
    } else {
        16 * hex_value(s.drop_last()) + hex_digit(s.last())->0
    }
}

proof fn lemma_hex_digit(c: char)
    ensures
        text::digit_value(c, 16) == hex_digit(c),
{
    let u = c as u32;
    assert('0' <= c <= '9' <==> 48 <= u <= 57);
    assert('a' <= c <= 'f' <==> 97 <= u <= 102);
    assert('A' <= c <= 'F' <==> 65 <= u <= 70);
}

proof fn lemma_hex_grows(s: Seq<char>, n: int)
    requires
        all_hex(s),
        0 <= n <= s.len(),
    ensures
        0 <= hex_value(s.take(n)) <= hex_value(s),
    decreases s.len() - n,
{
    lemma_hex_positive(s.take(n));
    if n < s.len() {
        lemma_hex_grows(s, n + 1);
        assert(s.take(n + 1).drop_last() =~= s.take(n));
        assert(s.take(n + 1).last() == s[n]);
    } else {
        assert(s.take(n) =~= s);
    }
}

proof fn lemma_hex_positive(s: Seq<char>)
    requires
        all_hex(s),
    ensures
        hex_value(s) >= 0,
    decreases s.len(),
{
    if s.len() > 0 {
        assert(hex_digit(s[s.len() - 1]) is Some);
        lemma_hex_positive(s.drop_last());
    }
}

proof fn lemma_hex_digits(s: Seq<char>, n: int, max: int)
    requires
        0 <= n <= s.len(),
        all_hex(s.take(n)),
        hex_value(s.take(n)) <= max,
    ensures
        all_hex(s) && hex_value(s) <= max <==> text::digits_from(
            s.skip(n),
            16,
            max,
            hex_value(s.take(n)),
        ) is Ok,
        text::digits_from(s.skip(n), 16, max, hex_value(s.take(n))) matches Ok(v) ==> v
            == hex_value(s),
    decreases s.len() - n,
{
    if n == s.len() {
        assert(s.take(n) =~= s);
    } else {
        let rest = s.skip(n);
        assert(rest[0] == s[n]);
        assert(s.take(n + 1).drop_last() =~= s.take(n));
        assert(s.take(n + 1).last() == s[n]);
        assert(rest.drop_first() =~= s.skip(n + 1));
        lemma_hex_digit(s[n]);
        let acc = hex_value(s.take(n));
        let radix: int = 16;
        assert(acc * radix == 16 * acc) by (nonlinear_arith)
            requires
                radix == 16,
        ;
        if hex_digit(s[n]) is Some {
            assert forall|i: int| 0 <= i < n + 1 implies hex_digit(
                #[trigger] s.take(n + 1)[i],
            ) is Some by {
                if i < n {
                    assert(s.take(n)[i] == s[i]);
                }
            }
            if hex_value(s.take(n + 1)) <= max {
                lemma_hex_digits(s, n + 1, max);
            } else if all_hex(s) {
                lemma_hex_grows(s, n + 1);
            }
        }
    }
}

/// A hexadecimal number is read as what it writes; any other text is not read.
pub proof fn lemma_reads_hex(s: Seq<char>, max: int)
    requires
        max >= 0,
    ensures
        text::unsigned_value(s, 16, max) is Ok <==> unsigned_digits(s).len() > 0 && all_hex(
            unsigned_digits(s),
        ) && hex_value(unsigned_digits(s)) <= max,
        text::unsigned_value(s, 16, max) matches Ok(v) ==> v == hex_value(unsigned_digits(s))
            && v >= 0,
{
    let digits = unsigned_digits(s);
    assert(digits.take(0) =~= Seq::<char>::empty());
    assert(digits.skip(0) =~= digits);
    lemma_hex_digits(digits, 0, max);
    if all_hex(digits) {
        lemma_hex_positive(digits);
    }
    if s.len() == 1 && s[0] == '+' {
        assert(s =~= seq!['+']);
    }
    if s == seq!['+'] {
        assert(digits.len() == 0);
    }
}

/// The hexadecimal form of a number writes that number, in digits of lower case.
pub proof fn lemma_writes_hex(n: nat)
    ensures
        text::hexadecimal(n).len() > 0,
        all_hex(text::hexadecimal(n)),
        hex_value(text::hexadecimal(n)) == n,
        n > 0 ==> text::hexadecimal(n)[0] != '0',
        forall|i: int|
            0 <= i < text::hexadecimal(n).len() ==> !('A' <= #[trigger] text::hexadecimal(n)[i]
                <= 'F'),
    decreases n,
{
    let s = text::hexadecimal(n);
    let d = n % 16;
    assert(text::hex_char(d) as u32 == if d < 10 {
        48 + d
    } else {
        87 + d
    });
    lemma_hex_digit(text::hex_char(d));
    if n < 16 {
        assert(s.drop_last() =~= Seq::<char>::empty());
        assert(hex_value(s.drop_last()) == 0);
    } else {
        let rest = text::hexadecimal(n / 16);
        lemma_writes_hex(n / 16);
        assert(s.drop_last() =~= rest);
        assert(s[0] == rest[0]);
        assert forall|i: int| 0 <= i < s.len() implies hex_digit(#[trigger] s[i]) is Some && !('A'
            <= s[i] <= 'F') by {
            if i < s.len() - 1 {
                assert(s[i] == rest[i]);
            } else {
                assert(s[i] == text::hex_char(n % 16));
            }
        }
    }
}

// White space

/// Spaces and line ends are white space; visible ASCII characters are not.
pub proof fn lemma_white(c: char)
    ensures
        c == ' ' || c == '\t' || c == '\n' || c == '\r' ==> text::white(c),
        '!' <= c <= '~' ==> !text::white(c),
{
}

/// What trimming leaves stands in the text, with white space alone before and
/// after it, and neither starts nor ends with any.
pub proof fn lemma_trims(s: Seq<char>)
    ensures
        exists|i: int, j: int|
            0 <= i <= j <= s.len() && text::trimmed(s) == #[trigger] s.subrange(i, j) && (forall|
                k: int,
            |
                0 <= k < i || j <= k < s.len() ==> text::white(#[trigger] s[k])),
        text::trimmed(s).len() > 0 ==> !text::white(text::trimmed(s)[0]) && !text::white(
            text::trimmed(s).last(),
        ),
{
    let start = text::trimmed_start(s);
    let i = s.len() - start.len();
    lemma_trims_start(s);
    lemma_trims_end(start);
    let j = i + text::trimmed_end(start).len();
    assert(text::trimmed(s) =~= s.subrange(i, j));
    assert forall|k: int| 0 <= k < i || j <= k < s.len() implies text::white(#[trigger] s[k]) by {
        if j <= k {
            assert(start[k - i] == s[k]);
        }
    }
}

proof fn lemma_trims_start(s: Seq<char>)
    ensures
        text::trimmed_start(s).len() <= s.len(),
        text::trimmed_start(s) == s.skip(s.len() - text::trimmed_start(s).len()),
        forall|k: int|
            0 <= k < s.len() - text::trimmed_start(s).len() ==> text::white(#[trigger] s[k]),
        text::trimmed_start(s).len() > 0 ==> !text::white(text::trimmed_start(s)[0]),
    decreases s.len(),
{
    if s.len() > 0 && text::white(s[0]) {
        let rest = s.drop_first();
        lemma_trims_start(rest);
        let n = s.len() - text::trimmed_start(s).len();
        assert(text::trimmed_start(s) =~= s.skip(n));
        assert forall|k: int| 0 <= k < n implies text::white(#[trigger] s[k]) by {
            if k > 0 {
                assert(rest[k - 1] == s[k]);
            }
        }
    } else {
        assert(s.skip(0) =~= s);
    }
}

proof fn lemma_trims_end(s: Seq<char>)
    ensures
        text::trimmed_end(s).len() <= s.len(),
        text::trimmed_end(s) == s.take(text::trimmed_end(s).len() as int),
        forall|k: int| text::trimmed_end(s).len() <= k < s.len() ==> text::white(#[trigger] s[k]),
        text::trimmed_end(s).len() > 0 ==> !text::white(text::trimmed_end(s).last()),
    decreases s.len(),
{
    if s.len() > 0 && text::white(s.last()) {
        let rest = s.drop_last();
        lemma_trims_end(rest);
        let n = text::trimmed_end(s).len() as int;
        assert(text::trimmed_end(s) =~= s.take(n));
        assert forall|k: int| n <= k < s.len() implies text::white(#[trigger] s[k]) by {
            if k < s.len() - 1 {
                assert(rest[k] == s[k]);
            }
        }
    } else {
        assert(s.take(s.len() as int) =~= s);
    }
}

/// Without the `c`s at its end a text is a start of it that does not end with
/// one, and only `c`s follow it.
pub proof fn lemma_without_trailing(s: Seq<char>, c: char)
    ensures
        text::without_trailing(s, c).len() <= s.len(),
        text::without_trailing(s, c) == s.take(text::without_trailing(s, c).len() as int),
        text::without_trailing(s, c).len() > 0 ==> text::without_trailing(s, c).last() != c,
        forall|k: int|
            text::without_trailing(s, c).len() <= k < s.len() ==> #[trigger] s[k] == c,
    decreases s.len(),
{
    if s.len() > 0 && s.last() == c {
        let rest = s.drop_last();
        lemma_without_trailing(rest, c);
        let n = text::without_trailing(s, c).len() as int;
        assert(text::without_trailing(s, c) =~= s.take(n));
        assert forall|k: int| n <= k < s.len() implies #[trigger] s[k] == c by {
            if k < s.len() - 1 {
                assert(rest[k] == s[k]);
            }
        }
    } else {
        assert(s.take(s.len() as int) =~= s);
    }
}

// Parts

/// Joining puts the separator between two lists, and nowhere else: one text
/// joined is that text, and no text is none.
pub proof fn lemma_joins(a: Seq<Seq<char>>, b: Seq<Seq<char>>, separator: Seq<char>)
    ensures
        a.len() > 0 && b.len() > 0 ==> text::joined(a + b, separator) == text::joined(a, separator)
            + separator + text::joined(b, separator),
        a.len() == 1 ==> text::joined(a, separator) == a[0],
        a.len() == 0 ==> text::joined(a, separator) == Seq::<char>::empty(),
    decreases b.len(),
{
    if a.len() > 0 && b.len() > 0 {
        assert((a + b).drop_last() =~= a + b.drop_last());
        assert((a + b).last() == b.last());
        if b.len() == 1 {
            assert(a + b.drop_last() =~= a);
        } else {
            lemma_joins(a, b.drop_last(), separator);
            assert(text::joined(a + b, separator) =~= text::joined(a, separator) + separator
                + text::joined(b, separator));
        }
    }
}

/// The pieces of a text have no separator in them, and joined by it they are the
/// text.
pub proof fn lemma_splits(s: Seq<char>, c: char)
    ensures
        text::pieces(s, c).len() > 0,
        forall|k: int|
            0 <= k < text::pieces(s, c).len() ==> !(#[trigger] text::pieces(s, c)[k]).contains(c),
        text::joined(text::pieces(s, c), seq![c]) == s,
    decreases s.len(),
{
    text::lemma_find_char(s, c);
    let i = text::find_char(s, c);
    let all = text::pieces(s, c);
    if i < s.len() {
        let rest = text::pieces(s.skip(i + 1), c);
        lemma_splits(s.skip(i + 1), c);
        lemma_joins(seq![s.take(i)], rest, seq![c]);
        assert(all =~= seq![s.take(i)] + rest);
        assert(s =~= s.take(i) + seq![c] + s.skip(i + 1));
        assert forall|k: int| 0 <= k < all.len() implies !(#[trigger] all[k]).contains(c) by {
            if k > 0 {
                assert(all[k] == rest[k - 1]);
            }
        }
    } else {
        lemma_joins(all, Seq::empty(), seq![c]);
    }
}

/// Texts that are joined by a character that none of them has are its pieces.
pub proof fn lemma_joined_apart(parts: Seq<Seq<char>>, c: char)
    requires
        parts.len() > 0,
        forall|i: int| 0 <= i < parts.len() ==> !(#[trigger] parts[i]).contains(c),
    ensures
        text::pieces(text::joined(parts, seq![c]), c) == parts,
    decreases parts.len(),
{
    let first = parts[0];
    let rest = parts.drop_first();
    let n = first.len() as int;
    let all = text::joined(parts, seq![c]);
    assert forall|j: int| 0 <= j < n implies first[j] != c by {
        assert(first.contains(first[j]));
    }
    if rest.len() == 0 {
        text::lemma_find_char_unique(first, c, n);
        assert(parts =~= seq![first]);
    } else {
        assert(parts =~= seq![first] + rest);
        lemma_joins(seq![first], rest, seq![c]);
        let tail = text::joined(rest, seq![c]);
        assert(all == first + seq![c] + tail);
        assert forall|j: int| 0 <= j < n implies all[j] != c by {
            assert(all[j] == first[j]);
        }
        text::lemma_find_char_unique(all, c, n);
        assert(all.take(n) =~= first);
        assert(all.skip(n + 1) =~= tail);
        assert forall|i: int| 0 <= i < rest.len() implies !(#[trigger] rest[i]).contains(c) by {
            assert(rest[i] == parts[i + 1]);
        }
        lemma_joined_apart(rest, c);
    }
}

/// The lines of a text: a line that ends with a line feed, without a carriage
/// return before it, and then the lines of what follows; what is left at the end
/// without a line feed is a line as it is.
pub proof fn lemma_lines(line: Seq<char>, rest: Seq<char>)
    requires
        !line.contains('\n'),
    ensures
        text::lines(line + seq!['\n'] + rest) == seq![
            if line.len() > 0 && line.last() == '\r' {
                line.drop_last()
            } else {
                line
            },
        ] + text::lines(rest),
        line.len() > 0 ==> text::lines(line) == seq![line],
        text::lines(Seq::empty()) == Seq::<Seq<char>>::empty(),
{
    let s = line + seq!['\n'] + rest;
    let n = line.len() as int;
    assert(s[n] == '\n');
    assert forall|j: int| 0 <= j < n implies s[j] != '\n' by {
        assert(line.contains(line[j]));
    }
    text::lemma_find_char_unique(s, '\n', n);
    assert(s.take(n) =~= line);
    assert(s.skip(n + 1) =~= rest);
    assert forall|j: int| 0 <= j < n implies line[j] != '\n' by {
        assert(line.contains(line[j]));
    }
    text::lemma_find_char_unique(line, '\n', n);
}

// Searching

/// A text stands in another at an index exactly where its characters do.
pub proof fn lemma_occurs(s: Seq<char>, needle: Seq<char>, i: int)
    ensures
        text::occurs_at(s, needle, i) <==> 0 <= i && i + needle.len() <= s.len() && forall|k: int|
            0 <= k < needle.len() ==> s[i + k] == #[trigger] needle[k],
        text::contains_text(s, needle) <==> exists|j: int| #[trigger]
            text::occurs_at(s, needle, j),
        text::begins(s, needle) == needle.is_prefix_of(s),
{
    if 0 <= i && i + needle.len() <= s.len() {
        let there = s.subrange(i, i + needle.len());
        if text::occurs_at(s, needle, i) {
            assert forall|k: int| 0 <= k < needle.len() implies s[i + k] == #[trigger] needle[k] by {
                assert(there[k] == s[i + k]);
            }
        }
        if forall|k: int| 0 <= k < needle.len() ==> s[i + k] == #[trigger] needle[k] {
            assert(there =~= needle);
        }
    }
    if needle.len() <= s.len() {
        assert(s.subrange(0, needle.len() as int) =~= s.take(needle.len() as int));
        if needle.is_prefix_of(s) {
            assert(s.take(needle.len() as int) =~= needle);
        }
    }
}

/// The last occurrence is one, and there is none after it.
pub proof fn lemma_finds_last(s: Seq<char>, needle: Seq<char>)
    ensures
        match text::rfind_text(s, needle) {
            Some(i) => text::occurs_at(s, needle, i) && forall|j: int| #[trigger]
                text::occurs_at(s, needle, j) ==> j <= i,
            None => forall|j: int| !#[trigger] text::occurs_at(s, needle, j),
        },
{
    lemma_last(s, needle, s.len() - needle.len());
}

proof fn lemma_last(s: Seq<char>, needle: Seq<char>, k: int)
    ensures
        match text::last_occurrence(s, needle, k) {
            Some(i) => i <= k && text::occurs_at(s, needle, i) && forall|j: int|
                j <= k && #[trigger] text::occurs_at(s, needle, j) ==> j <= i,
            None => forall|j: int| j <= k ==> !#[trigger] text::occurs_at(s, needle, j),
        },
    decreases k + 1,
{
    if k >= 0 && !text::occurs_at(s, needle, k) {
        lemma_last(s, needle, k - 1);
    }
}

// Order

/// Whether bytes come before others: they agree up to some index, and there the
/// first end or have the lower byte.
pub open spec fn comes_before(a: Seq<u8>, b: Seq<u8>) -> bool {
    exists|k: int| #[trigger] first_differs(a, b, k)
}

/// Whether bytes agree with others up to an index, and come before them there.
pub open spec fn first_differs(a: Seq<u8>, b: Seq<u8>, k: int) -> bool {
    &&& 0 <= k <= a.len()
    &&& k < b.len()
    &&& k < a.len() ==> a[k] < b[k]
    &&& forall|j: int| 0 <= j < k ==> a[j] == b[j]
}

proof fn lemma_order(a: Seq<u8>, b: Seq<u8>)
    ensures
        text::byte_order(a, b) == Order::Less ==> comes_before(a, b),
        text::byte_order(a, b) == Order::Greater ==> comes_before(b, a),
        text::byte_order(a, b) == Order::Equal ==> a == b,
    decreases a.len(),
{
    if a.len() == 0 && b.len() == 0 {
        assert(a =~= b);
    } else if a.len() == 0 {
        assert(first_differs(a, b, 0));
    } else if b.len() == 0 {
        assert(first_differs(b, a, 0));
    } else if a[0] < b[0] {
        assert(first_differs(a, b, 0));
    } else if a[0] > b[0] {
        assert(first_differs(b, a, 0));
    } else {
        let ra = a.drop_first();
        let rb = b.drop_first();
        lemma_order(ra, rb);
        if comes_before(ra, rb) {
            let k = choose|k: int| #[trigger] first_differs(ra, rb, k);
            assert forall|j: int| 0 <= j < k + 1 implies a[j] == b[j] by {
                if j > 0 {
                    assert(ra[j - 1] == rb[j - 1]);
                }
            }
            if k < ra.len() {
                assert(ra[k] == a[k + 1] && rb[k] == b[k + 1]);
            }
            assert(first_differs(a, b, k + 1));
        }
        if comes_before(rb, ra) {
            let k = choose|k: int| #[trigger] first_differs(rb, ra, k);
            assert forall|j: int| 0 <= j < k + 1 implies b[j] == a[j] by {
                if j > 0 {
                    assert(ra[j - 1] == rb[j - 1]);
                }
            }
            if k < rb.len() {
                assert(ra[k] == a[k + 1] && rb[k] == b[k + 1]);
            }
            assert(first_differs(b, a, k + 1));
        }
        if ra == rb {
            assert(a =~= seq![a[0]] + ra);
            assert(b =~= seq![b[0]] + rb);
        }
    }
}

/// Texts are ordered by their UTF-8 bytes, at the first byte that differs.
pub proof fn lemma_orders(a: Seq<char>, b: Seq<char>)
    ensures
        text::precedes(a, b) ==> comes_before(utf8::encode_utf8(a), utf8::encode_utf8(b)),
        text::precedes(a, b) || text::precedes(b, a) || a == b,
{
    lemma_order(utf8::encode_utf8(a), utf8::encode_utf8(b));
    text::lemma_text_order(a, b);
    text::lemma_text_order(b, a);
}

// Messages

/// What is wrong with a text that is no number.
pub proof fn lemma_number_errors(s: Seq<char>, radix: int, max: int)
    requires
        2 <= radix <= 36,
    ensures
        s.len() == 0 <==> text::unsigned_value(s, radix, max) == Err::<int, IntError>(
            IntError::Empty,
        ),
{
    if s.len() > 0 {
        lemma_never_empty(s, radix, max, 0);
        lemma_never_empty(s.drop_first(), radix, max, 0);
    }
}

/// A hexadecimal number that is too large is told from a text with a character
/// that is no digit.
pub proof fn lemma_hex_errors(s: Seq<char>, i: int, max: int)
    requires
        max >= 0,
        s.len() > 0,
        s[0] != '+',
        0 <= i < s.len(),
    ensures
        all_hex(s) && hex_value(s) > max ==> text::unsigned_value(s, 16, max) == Err::<
            int,
            IntError,
        >(IntError::Overflow),
        all_hex(s.take(i)) && hex_value(s.take(i)) <= max && hex_digit(s[i]) is None
            ==> text::unsigned_value(s, 16, max) == Err::<int, IntError>(IntError::InvalidDigit),
{
    assert(s.take(0) =~= Seq::<char>::empty());
    assert(s.skip(0) =~= s);
    assert(s != seq!['+']) by {
        assert(seq!['+'][0] == '+');
    }
    if all_hex(s) && hex_value(s) > max {
        lemma_hex_overflow(s, 0, max);
    }
    if all_hex(s.take(i)) && hex_value(s.take(i)) <= max && hex_digit(s[i]) is None {
        lemma_hex_invalid(s, 0, i, max);
    }
}

proof fn lemma_hex_step(s: Seq<char>, n: int)
    requires
        0 <= n < s.len(),
    ensures
        s.skip(n)[0] == s[n],
        s.skip(n).drop_first() == s.skip(n + 1),
        hex_digit(s[n]) is Some ==> hex_value(s.take(n)) * 16 + hex_digit(s[n])->0 == hex_value(
            s.take(n + 1),
        ),
        text::digit_value(s[n], 16) == hex_digit(s[n]),
{
    assert(s.skip(n).drop_first() =~= s.skip(n + 1));
    assert(s.take(n + 1).drop_last() =~= s.take(n));
    assert(s.take(n + 1).last() == s[n]);
    lemma_hex_digit(s[n]);
}

proof fn lemma_hex_overflow(s: Seq<char>, n: int, max: int)
    requires
        0 <= n <= s.len(),
        all_hex(s),
        hex_value(s) > max,
        hex_value(s.take(n)) <= max,
    ensures
        text::digits_from(s.skip(n), 16, max, hex_value(s.take(n))) == Err::<int, IntError>(
            IntError::Overflow,
        ),
    decreases s.len() - n,
{
    if n == s.len() {
        assert(s.take(n) =~= s);
    } else {
        assert(hex_digit(s[n]) is Some);
        lemma_hex_step(s, n);
        let acc = hex_value(s.take(n));
        let radix: int = 16;
        assert(acc * radix == 16 * acc) by (nonlinear_arith)
            requires
                radix == 16,
        ;
        if hex_value(s.take(n + 1)) <= max {
            lemma_hex_overflow(s, n + 1, max);
        }
    }
}

proof fn lemma_hex_invalid(s: Seq<char>, n: int, i: int, max: int)
    requires
        0 <= n <= i < s.len(),
        all_hex(s.take(i)),
        hex_value(s.take(i)) <= max,
        hex_digit(s[i]) is None,
    ensures
        text::digits_from(s.skip(n), 16, max, hex_value(s.take(n))) == Err::<int, IntError>(
            IntError::InvalidDigit,
        ),
    decreases i - n,
{
    lemma_hex_step(s, n);
    if n < i {
        assert(s.take(i)[n] == s[n]);
        assert(hex_digit(s[n]) is Some);
        let acc = hex_value(s.take(n));
        let radix: int = 16;
        assert(acc * radix == 16 * acc) by (nonlinear_arith)
            requires
                radix == 16,
        ;
        let upto = s.take(i);
        lemma_hex_grows(upto, n + 1);
        assert(upto.take(n + 1) =~= s.take(n + 1));
        lemma_hex_invalid(s, n + 1, i, max);
    }
}

proof fn lemma_never_empty(s: Seq<char>, radix: int, max: int, acc: int)
    ensures
        text::digits_from(s, radix, max, acc) != Err::<int, IntError>(IntError::Empty),
    decreases s.len(),
{
    if s.len() > 0 {
        if let Some(d) = text::digit_value(s[0], radix) {
            lemma_never_empty(s.drop_first(), radix, max, acc * radix + d);
        }
    }
}

} // verus!
