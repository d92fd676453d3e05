//! Checking the notice at the top of a file.

use crate::copyright::{copyright_fields, copyright_range};
use crate::format::Format;
use crate::lines::{lines_of, next_line};
use crate::text::{chars_of, decimal_digits, push_decimal, same_as_text, string_of};
use vstd::prelude::*;
use vstd::slice::slice_subrange;
use vstd::string::StringExecFns;

verus! {

/// Why the notice of a file does not pass the check.
#[derive(Debug, Clone, PartialEq, Eq)]
pub enum CheckError {
    /// The first line is no license line.
    MissingLicense,
    /// The first line names another license.
    WrongLicense { expected: String, found: String },
    /// The second line is no copyright line.
    MissingCopyright,
    /// The copyright line names another holder.
    WrongHolder { expected: String, found: String },
    /// The copyright line ends in another year than the current one.
    WrongYear { year_end: u32, current_year: u32 },
}

/// A `CheckError` with its texts as character sequences.
pub enum CheckFault {
    MissingLicense,
    WrongLicense { expected: Seq<char>, found: Seq<char> },
    MissingCopyright,
    WrongHolder { expected: Seq<char>, found: Seq<char> },
    WrongYear { year_end: u32, current_year: u32 },
}

impl View for CheckError {
    type V = CheckFault;

    open spec fn view(&self) -> CheckFault {
        match *self {
            CheckError::MissingLicense => CheckFault::MissingLicense,
            CheckError::WrongLicense { expected, found } => CheckFault::WrongLicense {
                expected: expected@,
                found: found@,
            },
            CheckError::MissingCopyright => CheckFault::MissingCopyright,
            CheckError::WrongHolder { expected, found } => CheckFault::WrongHolder {
                expected: expected@,
                found: found@,
            },
            CheckError::WrongYear { year_end, current_year } => CheckFault::WrongYear {
                year_end,
                current_year,
            },
        }
    }
}

impl CheckFault {
    /// The message of the fault.
    pub open spec fn text(self) -> Seq<char> {
        match self {
            CheckFault::MissingLicense => "missing license notice line."@,
            CheckFault::WrongLicense { expected, found } => "license is wrong: expected '"@
                + expected + "', found '"@ + found + "'."@,
            CheckFault::MissingCopyright => "missing copyright line."@,
            CheckFault::WrongHolder { expected, found } => "holder is wrong: expected '"@
                + expected + "', found '"@ + found + "'."@,
            CheckFault::WrongYear { year_end, current_year } => "copyright info ends at "@
                + decimal_digits(year_end as nat) + ", but we are in "@ + decimal_digits(
                current_year as nat,
            ) + "."@,
        }
    }
}

impl CheckError {
    /// The message of the error.
    pub fn message(&self) -> (s: String)
        ensures
            s@ == self@.text(),
    {
        match self {
            CheckError::MissingLicense => String::from_str("missing license notice line."),
            CheckError::WrongLicense { expected, found } => {
                let mut s = String::from_str("license is wrong: expected '");
                s.append(expected.as_str());
                s.append("', found '");
                s.append(found.as_str());
                s.append("'.");
                s
            },
            CheckError::MissingCopyright => String::from_str("missing copyright line."),
            CheckError::WrongHolder { expected, found } => {
                let mut s = String::from_str("holder is wrong: expected '");
                s.append(expected.as_str());
                s.append("', found '");
                s.append(found.as_str());
                s.append("'.");
                s
            },
            CheckError::WrongYear { year_end, current_year } => {
                let mut s = String::from_str("copyright info ends at ");
                push_decimal(&mut s, *year_end);
                s.append(", but we are in ");
                push_decimal(&mut s, *current_year);
                s.append(".");
                s
            },
        }
    }
}

/// What the check finds in a text: the first line must be a license line
/// with the expected license, the second a copyright line with the expected
/// holder whose last year is the current year. The first of these that fails
/// is the fault.
pub open spec fn check_outcome(
    style: Format,
    text: Seq<char>,
    holder: Seq<char>,
    license: Seq<char>,
    current_year: u32,
) -> Result<(), CheckFault> {
    let lines = lines_of(text);
    if lines.len() < 1 {
        Err(CheckFault::MissingLicense)
    } else {
        match style.license_of(lines[0]) {
            None => Err(CheckFault::MissingLicense),
            Some(found) => if found != license {
                Err(CheckFault::WrongLicense { expected: license, found })
            } else if lines.len() < 2 {
                Err(CheckFault::MissingCopyright)
            } else {
                match style.copyright_of(lines[1]) {
                    None => Err(CheckFault::MissingCopyright),
                    Some(info) => {
                        let range = copyright_range(info);
                        if range.2 != holder {
                            Err(CheckFault::WrongHolder { expected: holder, found: range.2 })
                        } else if range.1 != current_year {
                            Err(CheckFault::WrongYear { year_end: range.1, current_year })
                        } else {
                            Ok(())
                        }
                    },
                }
            },
        }
    }
}

/// Checks the notice at the top of a file's content against the expected
/// holder and license and the current year.
pub fn check_file(
    format: Format,
    content: &str,
    expected_holder: &str,
    expected_license: &str,
    current_year: u32,
) -> (r: Result<(), CheckError>)
    ensures
        match r {
            Ok(()) => check_outcome(
                format,
                content@,
                expected_holder@,
                expected_license@,
                current_year,
            ) == Ok::<(), CheckFault>(()),
            Err(e) => check_outcome(
                format,
                content@,
                expected_holder@,
                expected_license@,
                current_year,
            ) == Err::<(), CheckFault>(e@),
        },
{
    let chars = chars_of(content);
    let text = chars.as_slice();
    assert(text@.skip(0) == text@);
    if text.len() == 0 {
        return Err(CheckError::MissingLicense);
    }
    let first = next_line(text, 0);
    let found = match format.license_in(slice_subrange(text, 0, first.0)) {
        None => {
            return Err(CheckError::MissingLicense);
        },
        Some(found) => found,
    };
    if !same_as_text(found, expected_license) {
        return Err(
            CheckError::WrongLicense {
                expected: String::from_str(expected_license),
                found: string_of(found),
            },
        );
    }
    if first.1 >= text.len() {
        assert(text@.skip(first.1 as int) == Seq::<char>::empty());
        return Err(CheckError::MissingCopyright);
    }
    let second = next_line(text, first.1);
    assert(lines_of(text@)[1] == text@.subrange(first.1 as int, second.0 as int));
    let info = match format.copyright_in(slice_subrange(text, first.1, second.0)) {
        None => {
            return Err(CheckError::MissingCopyright);
        },
        Some(info) => info,
    };
    let fields = copyright_fields(info);
    let found = slice_subrange(info, fields.2, info.len());
    if !same_as_text(found, expected_holder) {
        return Err(
            CheckError::WrongHolder {
                expected: String::from_str(expected_holder),
                found: string_of(found),
            },
        );
    }
    if fields.1 != current_year {
        return Err(CheckError::WrongYear { year_end: fields.1, current_year });
    }
    Ok(())
}

} // verus!
