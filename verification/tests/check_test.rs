use lisensor::check::{check_file, CheckError};
use lisensor::format::Format;

const GOOD: &str = "// SPDX-License-Identifier: TestLicense\n// Copyright (c) 2025 TestHolder\n";

fn check(content: &str) -> Result<(), CheckError> {
    check_file(Format::SlashSlash, content, "TestHolder", "TestLicense", 2025)
}

#[test]
fn check_accepts_a_correct_notice() {
    assert_eq!(check(GOOD), Ok(()));
}

#[test]
fn check_accepts_a_notice_with_content_behind_it() {
    let content = format!("{}\nfn main() {{}}\n", GOOD);
    assert_eq!(check(&content), Ok(()));
}

#[test]
fn check_accepts_a_range_that_ends_this_year() {
    assert_eq!(
        check("// SPDX-License-Identifier: TestLicense\n// Copyright (c) 2019-2025 TestHolder\n"),
        Ok(())
    );
}

#[test]
fn check_accepts_carriage_return_line_feed() {
    assert_eq!(
        check("// SPDX-License-Identifier: TestLicense\r\n// Copyright (c) 2025 TestHolder\r\n"),
        Ok(())
    );
}

#[test]
fn check_accepts_a_last_line_without_line_ending() {
    assert_eq!(
        check("// SPDX-License-Identifier: TestLicense\n// Copyright (c) 2025 TestHolder"),
        Ok(())
    );
}

#[test]
fn check_accepts_the_hash_style() {
    assert_eq!(
        check_file(
            Format::Hash,
            "# SPDX-License-Identifier: MIT\n# Copyright (c) 2020-2030 Some One\nprint()\n",
            "Some One",
            "MIT",
            2030
        ),
        Ok(())
    );
}

#[test]
fn check_misses_the_license_line_of_an_empty_file() {
    assert_eq!(check(""), Err(CheckError::MissingLicense));
}

#[test]
fn check_misses_the_license_line_when_the_first_line_is_another() {
    assert_eq!(check("\n"), Err(CheckError::MissingLicense));
    assert_eq!(check("fn main() {}\n"), Err(CheckError::MissingLicense));
    let content = format!("\n{}", GOOD);
    assert_eq!(check(&content), Err(CheckError::MissingLicense));
    assert_eq!(
        check("# SPDX-License-Identifier: TestLicense\n# Copyright (c) 2025 TestHolder\n"),
        Err(CheckError::MissingLicense)
    );
    assert_eq!(
        check("// Copyright (c) 2025 TestHolder\n// SPDX-License-Identifier: TestLicense\n"),
        Err(CheckError::MissingLicense)
    );
}

#[test]
fn check_finds_a_wrong_license() {
    assert_eq!(
        check("// SPDX-License-Identifier: Old\n// Copyright (c) 2025 TestHolder\n"),
        Err(CheckError::WrongLicense {
            expected: "TestLicense".to_string(),
            found: "Old".to_string()
        })
    );
}

#[test]
fn check_finds_a_wrong_license_before_anything_else() {
    assert_eq!(
        check("// SPDX-License-Identifier: Old"),
        Err(CheckError::WrongLicense {
            expected: "TestLicense".to_string(),
            found: "Old".to_string()
        })
    );
    assert_eq!(
        check("// SPDX-License-Identifier: TestLicense \n// Copyright (c) 2025 Other\n"),
        Err(CheckError::WrongLicense {
            expected: "TestLicense".to_string(),
            found: "TestLicense ".to_string()
        })
    );
}

#[test]
fn check_misses_the_copyright_line() {
    assert_eq!(
        check("// SPDX-License-Identifier: TestLicense\n"),
        Err(CheckError::MissingCopyright)
    );
    assert_eq!(
        check("// SPDX-License-Identifier: TestLicense"),
        Err(CheckError::MissingCopyright)
    );
    assert_eq!(
        check("// SPDX-License-Identifier: TestLicense\n\n// Copyright (c) 2025 TestHolder\n"),
        Err(CheckError::MissingCopyright)
    );
    assert_eq!(
        check("// SPDX-License-Identifier: TestLicense\n# Copyright (c) 2025 TestHolder\n"),
        Err(CheckError::MissingCopyright)
    );
}

#[test]
fn check_finds_a_wrong_holder() {
    assert_eq!(
        check("// SPDX-License-Identifier: TestLicense\n// Copyright (c) 2025 Somebody Else\n"),
        Err(CheckError::WrongHolder {
            expected: "TestHolder".to_string(),
            found: "Somebody Else".to_string()
        })
    );
    assert_eq!(
        check("// SPDX-License-Identifier: TestLicense\n// Copyright (c) 2025\n"),
        Err(CheckError::WrongHolder {
            expected: "TestHolder".to_string(),
            found: String::new()
        })
    );
}

#[test]
fn check_finds_a_wrong_holder_before_a_wrong_year() {
    assert_eq!(
        check("// SPDX-License-Identifier: TestLicense\n// Copyright (c) 2020 Other\n"),
        Err(CheckError::WrongHolder {
            expected: "TestHolder".to_string(),
            found: "Other".to_string()
        })
    );
}

#[test]
fn check_finds_a_notice_that_ended_last_year() {
    assert_eq!(
        check("// SPDX-License-Identifier: TestLicense\n// Copyright (c) 2023-2024 TestHolder\n"),
        Err(CheckError::WrongYear {
            year_end: 2024,
            current_year: 2025
        })
    );
    assert_eq!(
        check("// SPDX-License-Identifier: TestLicense\n// Copyright (c) 2024 TestHolder\n"),
        Err(CheckError::WrongYear {
            year_end: 2024,
            current_year: 2025
        })
    );
}

#[test]
fn check_finds_a_notice_that_ends_in_the_future() {
    assert_eq!(
        check("// SPDX-License-Identifier: TestLicense\n// Copyright (c) 2025-2026 TestHolder\n"),
        Err(CheckError::WrongYear {
            year_end: 2026,
            current_year: 2025
        })
    );
    assert_eq!(
        check("// SPDX-License-Identifier: TestLicense\n// Copyright (c) 2030-2025 TestHolder\n"),
        Err(CheckError::WrongYear {
            year_end: 2030,
            current_year: 2025
        })
    );
}

#[test]
fn check_takes_an_unreadable_year_for_the_epoch_year() {
    assert_eq!(
        check("// SPDX-License-Identifier: TestLicense\n// Copyright (c) when TestHolder\n"),
        Ok(())
    );
    assert_eq!(
        check_file(
            Format::SlashSlash,
            "// SPDX-License-Identifier: TestLicense\n// Copyright (c) when TestHolder\n",
            "TestHolder",
            "TestLicense",
            2026
        ),
        Err(CheckError::WrongYear {
            year_end: 2025,
            current_year: 2026
        })
    );
}

#[test]
fn check_takes_an_unreadable_end_year_for_the_epoch_year() {
    let content = "// SPDX-License-Identifier: TestLicense\n// Copyright (c) 2020-abc TestHolder\n";
    assert_eq!(check(content), Ok(()));
    assert_eq!(
        check_file(Format::SlashSlash, content, "TestHolder", "TestLicense", 2026),
        Err(CheckError::WrongYear {
            year_end: 2025,
            current_year: 2026
        })
    );
    assert_eq!(
        check_file(Format::SlashSlash, content, "TestHolder", "TestLicense", 2020),
        Err(CheckError::WrongYear {
            year_end: 2025,
            current_year: 2020
        })
    );
}

#[test]
fn check_passes_every_rendered_notice() {
    for format in [Format::SlashSlash, Format::Hash] {
        for crlf in [false, true] {
            for year_start in [0u32, 1999, 2024, 2025] {
                for (holder, license) in [
                    ("TestHolder", "TestLicense"),
                    ("Some One <some@one.example>", "MIT OR Apache-2.0"),
                    ("", ""),
                    ("  spaced  out  ", " x "),
                    ("Ünï çødé", "LicenseRef-Ü"),
                ] {
                    let mut content = String::new();
                    format.format(year_start, 2025, holder, license, crlf, &mut content);
                    assert_eq!(check_file(format, &content, holder, license, 2025), Ok(()));
                    content.push_str("more\ncontent");
                    assert_eq!(check_file(format, &content, holder, license, 2025), Ok(()));
                }
            }
        }
    }
}

#[test]
fn check_error_messages() {
    assert_eq!(
        CheckError::MissingLicense.message(),
        "missing license notice line."
    );
    assert_eq!(
        CheckError::WrongLicense {
            expected: "TestLicense".to_string(),
            found: "Old".to_string()
        }
        .message(),
        "license is wrong: expected 'TestLicense', found 'Old'."
    );
    assert_eq!(
        CheckError::MissingCopyright.message(),
        "missing copyright line."
    );
    assert_eq!(
        CheckError::WrongHolder {
            expected: "TestHolder".to_string(),
            found: "Other".to_string()
        }
        .message(),
        "holder is wrong: expected 'TestHolder', found 'Other'."
    );
    assert_eq!(
        CheckError::WrongYear {
            year_end: 2024,
            current_year: 2025
        }
        .message(),
        "copyright info ends at 2024, but we are in 2025."
    );
}
