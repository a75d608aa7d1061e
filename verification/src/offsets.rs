//! Field offsets of the Zend structures, per PHP minor version.
//!
//! The leaf structures (`zend_string`, `zend_op`, `_Bucket`, `_zval_struct`,
//! `_zend_array`, the top of `zend_execute_data`, `zend_class_entry.name` and
//! the head of `zend_function`) have one layout in every supported version, so
//! their offsets are constants. What moves between minors is in
//! [`VersionLayout`]: `eg.current_execute_data` and the op_array tail.

use crate::text;
use vstd::prelude::*;

verus! {

/// The offsets that differ between PHP minor versions.
#[derive(Debug, Clone, Copy)]
pub struct VersionLayout {
    pub label: &'static str,
    /// `zend_executor_globals.current_execute_data`
    pub eg_current_execute_data: u64,
    /// `zend_executor_globals.symbol_table`
    pub eg_symbol_table: u64,
    /// `zend_op_array.filename`
    pub op_array_filename: u64,
    /// `zend_op_array.line_start`
    pub op_array_line_start: u64,
}

/// How many bytes of a `zend_function` are read: enough for its common header
/// and for the op_array fields of every layout.
pub const FUNC_BUF: usize = 192;

/// How many bytes of a `zend_execute_data` are read.
pub const EX_BUF: usize = 64;

impl VersionLayout {
    /// Whether the op_array fields lie within what is read of a function.
    pub open spec fn fits(&self) -> bool {
        &&& self.op_array_filename + 8 <= FUNC_BUF
        &&& self.op_array_line_start + 4 <= FUNC_BUF
    }
}

/// The layout of PHP 8.0.
#[verifier::allow_in_spec]
pub fn layout_8_0() -> VersionLayout
    returns
        (VersionLayout {
            label: "8.0",
            eg_current_execute_data: 488,
            eg_symbol_table: 304,
            op_array_filename: 144,
            op_array_line_start: 152,
        }),
{
    VersionLayout {
        label: "8.0",
        eg_current_execute_data: 488,
        eg_symbol_table: 304,
        op_array_filename: 144,
        op_array_line_start: 152,
    }
}

/// The layout of PHP 8.1.
#[verifier::allow_in_spec]
pub fn layout_8_1() -> VersionLayout
    returns
        (VersionLayout {
            label: "8.1",
            eg_current_execute_data: 488,
            eg_symbol_table: 304,
            op_array_filename: 144,
            op_array_line_start: 152,
        }),
{
    VersionLayout {
        label: "8.1",
        eg_current_execute_data: 488,
        eg_symbol_table: 304,
        op_array_filename: 144,
        op_array_line_start: 152,
    }
}

/// The layout of PHP 8.2.
#[verifier::allow_in_spec]
pub fn layout_8_2() -> VersionLayout
    returns
        (VersionLayout {
            label: "8.2",
            eg_current_execute_data: 488,
            eg_symbol_table: 304,
            op_array_filename: 152,
            op_array_line_start: 160,
        }),
{
    VersionLayout {
        label: "8.2",
        eg_current_execute_data: 488,
        eg_symbol_table: 304,
        op_array_filename: 152,
        op_array_line_start: 160,
    }
}

/// The layout of PHP 8.3.
#[verifier::allow_in_spec]
pub fn layout_8_3() -> VersionLayout
    returns
        (VersionLayout {
            label: "8.3",
            eg_current_execute_data: 488,
            eg_symbol_table: 304,
            op_array_filename: 144,
            op_array_line_start: 152,
        }),
{
    VersionLayout {
        label: "8.3",
        eg_current_execute_data: 488,
        eg_symbol_table: 304,
        op_array_filename: 144,
        op_array_line_start: 152,
    }
}

/// The layout of PHP 8.4.
#[verifier::allow_in_spec]
pub fn layout_8_4() -> VersionLayout
    returns
        (VersionLayout {
            label: "8.4",
            eg_current_execute_data: 488,
            eg_symbol_table: 304,
            op_array_filename: 168,
            op_array_line_start: 176,
        }),
{
    VersionLayout {
        label: "8.4",
        eg_current_execute_data: 488,
        eg_symbol_table: 304,
        op_array_filename: 168,
        op_array_line_start: 176,
    }
}

/// The layout of PHP 8.5.
#[verifier::allow_in_spec]
pub fn layout_8_5() -> VersionLayout
    returns
        (VersionLayout {
            label: "8.5",
            eg_current_execute_data: 512,
            eg_symbol_table: 304,
            op_array_filename: 168,
            op_array_line_start: 176,
        }),
{
    VersionLayout {
        label: "8.5",
        eg_current_execute_data: 512,
        eg_symbol_table: 304,
        op_array_filename: 168,
        op_array_line_start: 176,
    }
}

/// Offsets given from outside in place of a layout's own, as decimal text.
pub struct LayoutOverrides {
    pub eg_current_execute_data: Option<String>,
    pub eg_symbol_table: Option<String>,
}

impl LayoutOverrides {
    /// No override.
    pub fn none() -> (r: Self)
        ensures
            r.eg_current_execute_data is None,
            r.eg_symbol_table is None,
    {
        LayoutOverrides { eg_current_execute_data: None, eg_symbol_table: None }
    }
}

/// Whether a version string is of a minor version: it starts with it, and what
/// follows, if anything does, is not a further digit of the minor number.
pub open spec fn is_of_minor(php_version: Seq<char>, minor: Seq<char>) -> bool {
    text::begins(php_version, minor) && (php_version.len() == minor.len() || !('0'
        <= php_version[minor.len() as int] <= '9'))
}

/// The layout of the minor version that a version string is of.
pub open spec fn layout_of(php_version: Seq<char>) -> Option<VersionLayout> {
    if is_of_minor(php_version, "8.0"@) {
        Some(layout_8_0())
    } else if is_of_minor(php_version, "8.1"@) {
        Some(layout_8_1())
    } else if is_of_minor(php_version, "8.2"@) {
        Some(layout_8_2())
    } else if is_of_minor(php_version, "8.3"@) {
        Some(layout_8_3())
    } else if is_of_minor(php_version, "8.4"@) {
        Some(layout_8_4())
    } else if is_of_minor(php_version, "8.5"@) {
        Some(layout_8_5())
    } else {
        None
    }
}

/// An offset, or the number that stands in its place. Text that is no number
/// overrides nothing.
pub open spec fn overridden(offset: u64, given: Option<String>) -> u64 {
    match given {
        Some(t) => match text::unsigned_value(t@, 10, u64::MAX as int) {
            Ok(n) => n as u64,
            Err(_) => offset,
        },
        None => offset,
    }
}

/// The layout that [`pick`] picks.
pub open spec fn picked(php_version: Seq<char>, overrides: LayoutOverrides) -> Option<
    VersionLayout,
> {
    match layout_of(php_version) {
        Some(base) => Some(
            VersionLayout {
                eg_current_execute_data: overridden(
                    base.eg_current_execute_data,
                    overrides.eg_current_execute_data,
                ),
                eg_symbol_table: overridden(base.eg_symbol_table, overrides.eg_symbol_table),
                ..base
            },
        ),
        None => None,
    }
}

fn apply(offset: u64, given: &Option<String>) -> (r: u64)
    ensures
        r == overridden(offset, *given),
{
    match given {
        Some(t) => {
            let chars = text::chars_of(t.as_str());
            match text::parse_unsigned(chars.as_slice(), 10) {
                Ok(n) => n,
                Err(_) => offset,
            }
        },
        None => offset,
    }
}

fn version_is_of(php_version: &Vec<char>, minor: &str) -> (r: bool)
    ensures
        r == is_of_minor(php_version@, minor@),
{
    let wanted = text::chars_of(minor);
    if !text::starts_with(php_version.as_slice(), wanted.as_slice()) {
        return false;
    }
    let n: usize = wanted.len();
    php_version.len() == n || !('0' <= php_version[n] && php_version[n] <= '9')
}

/// Picks the layout for a PHP version, with the overrides applied; `None` for
/// a version that is not supported.
pub fn pick(php_version: &str, overrides: &LayoutOverrides) -> (r: Option<VersionLayout>)
    ensures
        r == picked(php_version@, *overrides),
        r matches Some(layout) ==> layout.fits(),
{
    let version = text::chars_of(php_version);
    let base: VersionLayout = if version_is_of(&version, "8.0") {
        layout_8_0()
    } else if version_is_of(&version, "8.1") {
        layout_8_1()
    } else if version_is_of(&version, "8.2") {
        layout_8_2()
    } else if version_is_of(&version, "8.3") {
        layout_8_3()
    } else if version_is_of(&version, "8.4") {
        layout_8_4()
    } else if version_is_of(&version, "8.5") {
        layout_8_5()
    } else {
        return None;
    };
    Some(
        VersionLayout {
            eg_current_execute_data: apply(
                base.eg_current_execute_data,
                &overrides.eg_current_execute_data,
            ),
            eg_symbol_table: apply(base.eg_symbol_table, &overrides.eg_symbol_table),
            ..base
        },
    )
}

// `zend_execute_data`

pub const EX_OPLINE: u64 = 0;

pub const EX_FUNC: u64 = 24;

pub const EX_PREV_EXECUTE_DATA: u64 = 48;

// `zend_function.common`

pub const FUNC_TYPE: u64 = 0;

pub const FUNC_FUNCTION_NAME: u64 = 8;

pub const FUNC_SCOPE: u64 = 16;

// `zend_op`

pub const OP_LINENO: u64 = 24;

// `zend_string`

pub const ZSTR_LEN: u64 = 16;

pub const ZSTR_VAL: u64 = 24;

// `zend_class_entry`

pub const CE_NAME: u64 = 8;

// `_zend_array`

pub const HT_AR_DATA: u64 = 16;

pub const HT_N_NUM_USED: u64 = 24;

// `_Bucket`

pub const BUCKET_SIZE: u64 = 32;

pub const BUCKET_VAL: u64 = 0;

pub const BUCKET_KEY: u64 = 24;

// `_zval_struct`

pub const ZVAL_VALUE: u64 = 0;

pub const ZVAL_TYPE_INFO: u64 = 8;

/// Where the zval of a `zend_reference` starts.
pub const REFERENCE_VAL: u64 = 16;

// Function types

pub const TYPE_INTERNAL: u8 = 1;

pub const TYPE_USER: u8 = 2;

// Type tags of a zval

pub const IS_UNDEF: u8 = 0;

pub const IS_STRING: u8 = 6;

pub const IS_ARRAY: u8 = 7;

pub const IS_REFERENCE: u8 = 10;

} // verus!
