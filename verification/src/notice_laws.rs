//! What holds of a rendered notice: it is read back as it was written, and
//! it passes the check.

use crate::check::{check_outcome, CheckFault};
use crate::copyright::{copyright_range, year_of};
use crate::format::Format;
use crate::lines::{ends_in_cr, eol, lemma_lines_cons, lines_of, no_line_feed};
use crate::text::{decimal_digits, is_digit, lemma_decimal_digits, lemma_first_index_is};
use vstd::prelude::*;

verus! {

/// Whether a text holds neither a line feed nor a carriage return.
pub open spec fn plain_text(text: Seq<char>) -> bool {
    forall|i: int| 0 <= i < text.len() ==> text[i] != '\n' && text[i] != '\r'
}

/// The three starts of a line that the engine knows hold no line break and
/// more than three characters, and two of them end in a space.
pub(crate) proof fn lemma_prefixes(style: Format)
    ensures
        plain_text(style.license_prefix()),
        plain_text(style.copyright_prefix()),
        plain_text(style.sentinel_prefix()),
        style.license_prefix().len() > 3,
        style.copyright_prefix().len() > 3,
        style.sentinel_prefix().len() > 3,
        style.license_prefix().last() == ' ',
        style.copyright_prefix().last() == ' ',
{
    reveal_strlit("// SPDX-License-Identifier: ");
    reveal_strlit("# SPDX-License-Identifier: ");
    reveal_strlit("// Copyright (c) ");
    reveal_strlit("# Copyright (c) ");
    reveal_strlit("// * * * * *");
    reveal_strlit("# * * * * *");
}

/// A license line is no sentinel line and no copyright line, and a copyright
/// line is no sentinel line and no license line.
pub proof fn lemma_kinds_apart(style: Format, line: Seq<char>)
    ensures
        style.license_of(line) is Some ==> !style.is_sentinel(line) && style.copyright_of(line)
            is None,
        style.copyright_of(line) is Some ==> !style.is_sentinel(line) && style.license_of(line)
            is None,
{
    reveal_strlit("// SPDX-License-Identifier: ");
    reveal_strlit("# SPDX-License-Identifier: ");
    reveal_strlit("// Copyright (c) ");
    reveal_strlit("# Copyright (c) ");
    reveal_strlit("// * * * * *");
    reveal_strlit("# * * * * *");
    let at: int = match style {
        Format::SlashSlash => 3,
        Format::Hash => 2,
    };
    if style.license_prefix().is_prefix_of(line) {
        assert(line[at] == style.license_prefix()[at]);
    }
    if style.copyright_prefix().is_prefix_of(line) {
        assert(line[at] == style.copyright_prefix()[at]);
    }
    if style.sentinel_prefix().is_prefix_of(line) {
        assert(line[at] == style.sentinel_prefix()[at]);
    }
}

/// A decimal numeral holds digits only: no space, no hyphen and no line
/// break.
pub(crate) proof fn lemma_digits_plain(n: nat)
    ensures
        forall|i: int|
            0 <= i < decimal_digits(n).len() ==> {
                let c = #[trigger] decimal_digits(n)[i];
                c != ' ' && c != '-' && c != '\n' && c != '\r'
            },
        decimal_digits(n).len() > 0,
{
    lemma_decimal_digits(n);
    assert forall|i: int| 0 <= i < decimal_digits(n).len() implies {
        let c = #[trigger] decimal_digits(n)[i];
        c != ' ' && c != '-' && c != '\n' && c != '\r'
    } by {
        assert(is_digit(decimal_digits(n)[i]));
    }
}

/// The years of a notice are read back as they were written: the first year
/// as it is, and the current year as the last where the first is not later.
pub proof fn lemma_copyright_round_trip(year_start: u32, current_year: u32, holder: Seq<char>)
    ensures
        copyright_range(Format::years_text(year_start, current_year) + seq![' '] + holder) == (
            year_start,
            if current_year < year_start {
                year_start
            } else {
                current_year
            },
            holder,
        ),
{
    let first = decimal_digits(year_start as nat);
    let last = decimal_digits(current_year as nat);
    let years = Format::years_text(year_start, current_year);
    let info = years + seq![' '] + holder;
    lemma_digits_plain(year_start as nat);
    lemma_digits_plain(current_year as nat);
    lemma_decimal_digits(year_start as nat);
    lemma_decimal_digits(current_year as nat);
    assert forall|j: int| 0 <= j < years.len() implies years[j] != ' ' by {
        if j < first.len() {
            assert(years[j] == first[j]);
        } else if j > first.len() {
            assert(years[j] == last[j - first.len() - 1]);
        }
    }
    assert forall|j: int| 0 <= j < years.len() implies info[j] != ' ' by {
        assert(info[j] == years[j]);
    }
    assert(info[years.len() as int] == ' ');
    lemma_first_index_is(info, ' ', years.len() as int);
    assert(info.take(years.len() as int) =~= years);
    assert(info.skip(years.len() as int + 1) =~= holder);
    assert forall|j: int| 0 <= j < first.len() implies years[j] != '-' by {
        assert(years[j] == first[j]);
    }
    lemma_first_index_is(years, '-', first.len() as int);
    assert(years.take(first.len() as int) =~= first);
    assert(year_of(first) == Some(year_start));
    if year_start != current_year {
        assert(years.skip(first.len() as int + 1) =~= last);
        assert(year_of(last) == Some(current_year));
    }
}

/// The lines of a text that starts with a notice: the license line, the
/// copyright line, and the lines of what follows the notice.
pub(crate) proof fn lemma_notice_lines(
    style: Format,
    year_start: u32,
    current_year: u32,
    holder: Seq<char>,
    license: Seq<char>,
    crlf: bool,
    rest: Seq<char>,
)
    requires
        no_line_feed(holder),
        no_line_feed(license),
        crlf || (!ends_in_cr(holder) && !ends_in_cr(license)),
    ensures
        lines_of(style.notice(year_start, current_year, holder, license, crlf) + rest) == seq![
            style.license_line(license),
            style.copyright_line(year_start, current_year, holder),
        ] + lines_of(rest),
        no_line_feed(style.license_line(license)),
        no_line_feed(style.copyright_line(year_start, current_year, holder)),
        !ends_in_cr(license) ==> !ends_in_cr(style.license_line(license)),
        !ends_in_cr(holder) ==> !ends_in_cr(style.copyright_line(year_start, current_year, holder)),
{
    lemma_prefixes(style);
    lemma_digits_plain(year_start as nat);
    lemma_digits_plain(current_year as nat);
    let first = style.license_line(license);
    let second = style.copyright_line(year_start, current_year, holder);
    let years = Format::years_text(year_start, current_year);
    let digits = decimal_digits(year_start as nat);
    let more = decimal_digits(current_year as nat);
    assert forall|j: int| 0 <= j < years.len() implies years[j] != '\n' by {
        if j < digits.len() {
            assert(years[j] == digits[j]);
        } else if j > digits.len() {
            assert(years[j] == more[j - digits.len() - 1]);
        }
    }
    assert(no_line_feed(first)) by {
        let prefix = style.license_prefix();
        assert forall|j: int| 0 <= j < first.len() implies first[j] != '\n' by {
            if j < prefix.len() {
                assert(first[j] == prefix[j]);
            } else {
                assert(first[j] == license[j - prefix.len()]);
            }
        }
    }
    assert(no_line_feed(second)) by {
        let prefix = style.copyright_prefix();
        assert forall|j: int| 0 <= j < second.len() implies second[j] != '\n' by {
            if j < prefix.len() {
                assert(second[j] == prefix[j]);
            } else if j < prefix.len() + years.len() {
                assert(second[j] == years[j - prefix.len()]);
            } else if j > prefix.len() + years.len() {
                assert(second[j] == holder[j - prefix.len() - years.len() - 1]);
            }
        }
    }
    if license.len() > 0 {
        assert(first.last() == license.last());
    } else {
        assert(first =~= style.license_prefix());
    }
    if holder.len() > 0 {
        assert(second.last() == holder.last());
    } else {
        assert(second.last() == ' ');
    }
    let text = style.notice(year_start, current_year, holder, license, crlf) + rest;
    let tail = second + eol(crlf) + rest;
    assert(text =~= first + eol(crlf) + tail);
    lemma_lines_cons(first, crlf, tail);
    lemma_lines_cons(second, crlf, rest);
    assert(seq![first] + (seq![second] + lines_of(rest)) =~= seq![first, second] + lines_of(rest));
}

/// A notice that was rendered for a holder, a license and the current year
/// passes the check for them, whatever follows it in the file: for any
/// holder and license that hold neither a line feed nor a carriage return,
/// either line ending, and any first year that is not after the current
/// year.
pub proof fn lemma_rendered_notice_passes(
    style: Format,
    year_start: u32,
    current_year: u32,
    holder: Seq<char>,
    license: Seq<char>,
    crlf: bool,
    rest: Seq<char>,
)
    requires
        plain_text(holder),
        plain_text(license),
        year_start <= current_year,
    ensures
        check_outcome(
            style,
            style.notice(year_start, current_year, holder, license, crlf) + rest,
            holder,
            license,
            current_year,
        ) == Ok::<(), CheckFault>(()),
{
    lemma_notice_lines(style, year_start, current_year, holder, license, crlf, rest);
    lemma_copyright_round_trip(year_start, current_year, holder);
    let text = style.notice(year_start, current_year, holder, license, crlf) + rest;
    let lines = lines_of(text);
    let first = style.license_line(license);
    let second = style.copyright_line(year_start, current_year, holder);
    assert(lines[0] == first);
    assert(lines[1] == second);
    assert(style.license_prefix().is_prefix_of(first));
    assert(first.skip(style.license_prefix().len() as int) =~= license);
    assert(style.copyright_prefix().is_prefix_of(second));
    assert(second.skip(style.copyright_prefix().len() as int) =~= Format::years_text(
        year_start,
        current_year,
    ) + seq![' '] + holder);
}

} // verus!
