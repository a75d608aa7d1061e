//! Which offsets a PHP version has.

use crate::laws::texts;
use crate::offsets;
use crate::offsets::LayoutOverrides;
use vstd::prelude::*;

verus! {

/// Whether a text is `8.`, the digit of a minor version, and then nothing or
/// what is no digit.
pub open spec fn is_version(v: Seq<char>, digit: char) -> bool {
    &&& v.len() >= 3
    &&& v[0] == '8'
    &&& v[1] == '.'
    &&& v[2] == digit
    &&& v.len() == 3 || !('0' <= v[3] <= '9')
}

proof fn lemma_minor(v: Seq<char>, minor: Seq<char>, digit: char)
    requires
        minor =~= seq!['8', '.', digit],
    ensures
        offsets::is_of_minor(v, minor) == is_version(v, digit),
{
    if is_version(v, digit) {
        assert(v.subrange(0, 3) =~= minor);
    }
    if offsets::is_of_minor(v, minor) {
        assert(v.subrange(0, 3)[0] == v[0]);
        assert(v.subrange(0, 3)[1] == v[1]);
        assert(v.subrange(0, 3)[2] == v[2]);
    }
}

proof fn lemma_minors(v: Seq<char>)
    ensures
        offsets::is_of_minor(v, "8.0"@) == is_version(v, '0'),
        offsets::is_of_minor(v, "8.1"@) == is_version(v, '1'),
        offsets::is_of_minor(v, "8.2"@) == is_version(v, '2'),
        offsets::is_of_minor(v, "8.3"@) == is_version(v, '3'),
        offsets::is_of_minor(v, "8.4"@) == is_version(v, '4'),
        offsets::is_of_minor(v, "8.5"@) == is_version(v, '5'),
{
    reveal_strlit("8.0");
    reveal_strlit("8.1");
    reveal_strlit("8.2");
    reveal_strlit("8.3");
    reveal_strlit("8.4");
    reveal_strlit("8.5");
    lemma_minor(v, "8.0"@, '0');
    lemma_minor(v, "8.1"@, '1');
    lemma_minor(v, "8.2"@, '2');
    lemma_minor(v, "8.3"@, '3');
    lemma_minor(v, "8.4"@, '4');
    lemma_minor(v, "8.5"@, '5');
}

/// Whether an override gives nothing: it is not there, or it is no decimal
/// number that fits.
pub open spec fn gives_nothing(given: Option<String>) -> bool {
    match given {
        None => true,
        Some(t) => !texts::writes_unsigned(t@, u64::MAX as int),
    }
}

/// Whether an override gives a number.
pub open spec fn gives_number(given: Option<String>, n: int) -> bool {
    given matches Some(t) && texts::writes_unsigned(t@, u64::MAX as int)
        && texts::decimal_value(texts::unsigned_digits(t@)) == n
}

/// The layout that is picked for a minor version has, in every field, the
/// offsets of that minor version. Only two of them can be overridden.
pub proof fn lemma_picks(v: Seq<char>, digit: char, overrides: LayoutOverrides)
    requires
        is_version(v, digit),
        '0' <= digit <= '5',
    ensures
        offsets::picked(v, overrides) matches Some(l) && {
            &&& l.op_array_filename == if digit == '2' {
                152
            } else if digit == '4' || digit == '5' {
                168
            } else {
                144int
            }
            &&& l.op_array_line_start == l.op_array_filename + 8
            &&& gives_nothing(overrides.eg_current_execute_data) ==> l.eg_current_execute_data
                == if digit == '5' {
                512
            } else {
                488int
            }
            &&& gives_nothing(overrides.eg_symbol_table) ==> l.eg_symbol_table == 304
            &&& forall|n: int| #[trigger]
                gives_number(overrides.eg_current_execute_data, n) ==> l.eg_current_execute_data
                    == n
            &&& forall|n: int| #[trigger]
                gives_number(overrides.eg_symbol_table, n) ==> l.eg_symbol_table == n
            &&& l.label@ == seq!['8', '.', digit]
        },
{
    lemma_minors(v);
    reveal_strlit("8.0");
    reveal_strlit("8.1");
    reveal_strlit("8.2");
    reveal_strlit("8.3");
    reveal_strlit("8.4");
    reveal_strlit("8.5");
    if let Some(t) = overrides.eg_current_execute_data {
        texts::lemma_reads_unsigned(t@, u64::MAX as int);
    }
    if let Some(t) = overrides.eg_symbol_table {
        texts::lemma_reads_unsigned(t@, u64::MAX as int);
    }
    let l = offsets::picked(v, overrides)->0;
    assert(l.label@ =~= seq!['8', '.', digit]);
}

/// With nothing overridden, all versions of one minor version have the layout
/// of that minor version, field by field.
pub proof fn lemma_picks_whole(v: Seq<char>, digit: char, overrides: LayoutOverrides)
    requires
        is_version(v, digit),
        overrides.eg_current_execute_data is None,
        overrides.eg_symbol_table is None,
    ensures
        digit == '0' ==> offsets::picked(v, overrides) == Some(offsets::layout_8_0()),
        digit == '1' ==> offsets::picked(v, overrides) == Some(offsets::layout_8_1()),
        digit == '2' ==> offsets::picked(v, overrides) == Some(offsets::layout_8_2()),
        digit == '3' ==> offsets::picked(v, overrides) == Some(offsets::layout_8_3()),
        digit == '4' ==> offsets::picked(v, overrides) == Some(offsets::layout_8_4()),
        digit == '5' ==> offsets::picked(v, overrides) == Some(offsets::layout_8_5()),
{
    lemma_minors(v);
}

/// No other version has a layout.
pub proof fn lemma_picks_none(v: Seq<char>, overrides: LayoutOverrides)
    ensures
        offsets::picked(v, overrides) is None <==> !exists|digit: char|
            '0' <= digit <= '5' && #[trigger] is_version(v, digit),
{
    lemma_minors(v);
    if offsets::picked(v, overrides) is Some {
        assert(is_version(v, v[2]));
    }
    if exists|digit: char| '0' <= digit <= '5' && #[trigger] is_version(v, digit) {
        let digit = choose|digit: char| '0' <= digit <= '5' && #[trigger] is_version(v, digit);
        assert(digit == '0' || digit == '1' || digit == '2' || digit == '3' || digit == '4'
            || digit == '5');
    }
}

/// The op_array fields of a layout lie within what is read of a function.
pub proof fn lemma_picks_within(v: Seq<char>, overrides: LayoutOverrides)
    ensures
        offsets::picked(v, overrides) matches Some(l) ==> l.op_array_filename + 8 <= 192
            && l.op_array_line_start + 4 <= 192,
{
}

} // verus!
