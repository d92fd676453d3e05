//! The years and the holder of a copyright line.

use crate::text::{
    all_digits, chars_of, decimal_value, find_char, first_index, lemma_first_index, string_of,
};
use vstd::prelude::*;
use vstd::slice::slice_subrange;

verus! {

/// The year that stands for a year that cannot be read.
pub const EPOCH_YEAR: u32 = 2025;

/// What `pistonite_cu::parse::<u32>` returns for a text that is not a plain
/// decimal numeral: the number, or nothing where the text is refused.
pub uninterp spec fn parsed_u32(text: Seq<char>) -> Option<u32>;

/// The year that a text stands for. A plain decimal numeral stands for its
/// number where that fits in 32 bits, and for nothing where it does not; any
/// other text stands for what the parser of `pistonite_cu` makes of it.
pub open spec fn year_of(text: Seq<char>) -> Option<u32> {
    if all_digits(text) {
        if decimal_value(text) <= u32::MAX {
            Some(decimal_value(text) as u32)
        } else {
            None
        }
    } else {
        parsed_u32(text)
    }
}

/// Reads a number with `pistonite_cu::parse::<u32>`. That function trims the
/// text, refuses a leading minus sign, reads the prefixes `0x`, `0o` and `0b`
/// in their bases and everything else with `str::parse::<u32>`. The contract
/// spells out the one case that the library itself writes: a text of decimal
/// digits alone is trimmed to itself, has no sign and no such prefix, and
/// `str::parse` gives its number, or an error where the number does not fit.
/// For every other text the contract only names the result.
#[verifier::external_body]
fn parse_u32(text: &str) -> (r: Option<u32>)
    ensures
        r == (if all_digits(text@) {
            if decimal_value(text@) <= u32::MAX {
                Some(decimal_value(text@) as u32)
            } else {
                None
            }
        } else {
            parsed_u32(text@)
        }),
{
    pistonite_cu::parse::<u32>(text).ok()
}

/// The years of a copyright line, from what was read of its two year fields.
/// `start` is the first year, or nothing where it could not be read. `end`
/// is nothing where the line has no field for the last year; else it holds
/// the last year, or nothing where that field could not be read. A year that
/// could not be read is the epoch year; a last year without a field is the
/// first year; and the last year is never before the first.
pub open spec fn year_span(start: Option<u32>, end: Option<Option<u32>>) -> (u32, u32) {
    let first = match start {
        Some(y) => y,
        None => EPOCH_YEAR,
    };
    let last = match end {
        None => first,
        Some(None) => EPOCH_YEAR,
        Some(Some(y)) => y,
    };
    (first, if last < first { first } else { last })
}

/// The first year, the last year and the holder that the text behind
/// `Copyright (c) ` gives. The text up to its first space holds the years,
/// the first and the last parted by the first hyphen; the holder is what
/// follows that space. Without a hyphen the last year is the first; a year
/// that cannot be read, before or behind the hyphen, is the epoch year.
pub open spec fn copyright_range(info: Seq<char>) -> (u32, u32, Seq<char>) {
    let space = first_index(info, ' ');
    let years = info.take(space);
    let holder = if space < info.len() {
        info.skip(space + 1)
    } else {
        Seq::empty()
    };
    let hyphen = first_index(years, '-');
    let start = year_of(years.take(hyphen));
    let end = if hyphen < years.len() {
        Some(year_of(years.skip(hyphen + 1)))
    } else {
        None
    };
    (year_span(start, end).0, year_span(start, end).1, holder)
}

/// The first and last year of a copyright line, from what was read of its
/// two year fields: `end` is nothing where the line has no field for the
/// last year, and holds nothing where that field could not be read.
pub fn year_range(start: Option<u32>, end: Option<Option<u32>>) -> (r: (u32, u32))
    ensures
        r == year_span(start, end),
{
    let first = match start {
        Some(y) => y,
        None => EPOCH_YEAR,
    };
    let last = match end {
        None => first,
        Some(None) => EPOCH_YEAR,
        Some(Some(y)) => y,
    };
    (first, if last < first { first } else { last })
}

/// The years of the text behind `Copyright (c) `, and the position at which
/// the holder starts in it.
pub fn copyright_fields(info: &[char]) -> (r: (u32, u32, usize))
    ensures
        r.2 <= info@.len(),
        copyright_range(info@) == (r.0, r.1, info@.skip(r.2 as int)),
{
    proof {
        lemma_first_index(info@, ' ');
        assert(info@.skip(0) == info@);
    }
    let space = find_char(info, 0, ' ');
    let years = slice_subrange(info, 0, space);
    assert(years@ == info@.take(space as int));
    let holder_at = if space < info.len() {
        space + 1
    } else {
        assert(info@.skip(space as int) == Seq::<char>::empty());
        space
    };
    proof {
        lemma_first_index(years@, '-');
        assert(years@.skip(0) == years@);
    }
    let hyphen = find_char(years, 0, '-');
    let first = string_of(slice_subrange(years, 0, hyphen));
    assert(first@ == years@.take(hyphen as int));
    let start = parse_u32(first.as_str());
    let end = if hyphen < years.len() {
        let last = string_of(slice_subrange(years, hyphen + 1, years.len()));
        assert(last@ == years@.skip(hyphen + 1));
        Some(parse_u32(last.as_str()))
    } else {
        None
    };
    let span = year_range(start, end);
    (span.0, span.1, holder_at)
}

/// The first year, the last year and the holder of the text behind
/// `Copyright (c) `.
pub fn parse_copyright_info(info: &str) -> (r: (u32, u32, String))
    ensures
        (r.0, r.1, r.2@) == copyright_range(info@),
{
    let chars = chars_of(info);
    let fields = copyright_fields(chars.as_slice());
    let holder = string_of(slice_subrange(chars.as_slice(), fields.2, chars.len()));
    assert(holder@ == info@.skip(fields.2 as int));
    (fields.0, fields.1, holder)
}

} // verus!
