//! The classes of characters that the extended dialect reads off the
//! Unicode tables.
use vstd::prelude::*;
use unicode_categories::UnicodeCategories;

verus! {

/// Whether `unicode_categories` counts `c` as a letter: by its tables and
/// ranges, one of the categories Lu, Ll, Lt, Lm and Lo.
pub uninterp spec fn unicode_letter(c: char) -> bool;

/// Whether the tables list `c` in the category Mn, a nonspacing mark.
pub uninterp spec fn unicode_nonspacing_mark(c: char) -> bool;

/// Whether the tables list `c` in the category Mc, a spacing combining mark.
pub uninterp spec fn unicode_spacing_mark(c: char) -> bool;

/// Whether the tables list `c` in the category Nd, a decimal digit.
pub uninterp spec fn unicode_decimal_digit(c: char) -> bool;

/// Whether the tables list `c` in the category Pc, a connector punctuation.
pub uninterp spec fn unicode_connector(c: char) -> bool;

/// Whether `c` has the Unicode property White_Space.
pub uninterp spec fn unicode_white_space(c: char) -> bool;

/// `UnicodeCategories::is_letter` looks `c` up in the tables and ranges of
/// the five letter categories; the answer depends on `c` alone.
#[verifier::external_body]
pub(crate) fn is_letter(c: char) -> (r: bool)
    ensures
        r == unicode_letter(c),
{
    c.is_letter()
}

/// `UnicodeCategories::is_mark_nonspacing` looks `c` up in the table of the
/// category Mn; the answer depends on `c` alone.
#[verifier::external_body]
pub(crate) fn is_nonspacing_mark(c: char) -> (r: bool)
    ensures
        r == unicode_nonspacing_mark(c),
{
    c.is_mark_nonspacing()
}

/// `UnicodeCategories::is_mark_spacing_combining` looks `c` up in the table
/// of the category Mc; the answer depends on `c` alone.
#[verifier::external_body]
pub(crate) fn is_spacing_mark(c: char) -> (r: bool)
    ensures
        r == unicode_spacing_mark(c),
{
    c.is_mark_spacing_combining()
}

/// `UnicodeCategories::is_number_decimal_digit` looks `c` up in the table of
/// the category Nd; the answer depends on `c` alone.
#[verifier::external_body]
pub(crate) fn is_decimal_digit(c: char) -> (r: bool)
    ensures
        r == unicode_decimal_digit(c),
{
    c.is_number_decimal_digit()
}

/// `UnicodeCategories::is_punctuation_connector` looks `c` up in the table
/// of the category Pc; the answer depends on `c` alone.
#[verifier::external_body]
pub(crate) fn is_connector(c: char) -> (r: bool)
    ensures
        r == unicode_connector(c),
{
    c.is_punctuation_connector()
}

/// `char::is_whitespace` tells whether `c` has the property White_Space of
/// the Unicode Character Database; the answer depends on `c` alone.
pub assume_specification[ char::is_whitespace ](c: char) -> (r: bool)
    ensures
        r == unicode_white_space(c),
;

} // verus!
