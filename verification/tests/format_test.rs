use lisensor::format::{hash_format_extensions, Format};

#[test]
fn test_hash_format_extensions() {
    let mut x = hash_format_extensions();
    x.sort();
    assert_eq!(
        x,
        hash_format_extensions(),
        "HASH_FORMAT_EXTENSIONS must be sorted"
    );
}

#[test]
fn hash_extensions_are_the_fixed_set() {
    let expected = vec![
        "bash", "ini", "mk", "php", "phtml", "pl", "pm", "ps1", "psd1", "psm1", "py", "r", "rb",
        "sh", "tcl", "toml", "yaml", "yml", "zsh",
    ];
    assert_eq!(hash_format_extensions(), expected);
}

#[test]
fn every_hash_extension_gets_the_hash_style() {
    for ext in hash_format_extensions() {
        assert_eq!(Format::from_extension(ext), Format::Hash, "{}", ext);
    }
}

#[test]
fn other_extensions_get_the_slash_style() {
    for ext in [
        "rs", "c", "h", "cpp", "js", "ts", "txt", "", "PY", "Py", "pyc", "p", "bas", "bashh",
        "zshh", "zs", "a", "zz", "s", "yam", "yamll", "tom", "ps", "ps2", "rbb", "md", "toml ",
    ] {
        assert_eq!(Format::from_extension(ext), Format::SlashSlash, "{:?}", ext);
    }
}

#[test]
fn path_picks_the_style_of_its_extension() {
    assert_eq!(Format::from_path("src/main.rs"), Format::SlashSlash);
    assert_eq!(Format::from_path("scripts/build.py"), Format::Hash);
    assert_eq!(Format::from_path("a/b/c/Cargo.toml"), Format::Hash);
    assert_eq!(Format::from_path("archive.tar.yaml"), Format::Hash);
    assert_eq!(Format::from_path("run.sh"), Format::Hash);
    assert_eq!(Format::from_path("empty_text.txt"), Format::SlashSlash);
}

#[test]
fn path_without_extension_gets_the_slash_style() {
    assert_eq!(Format::from_path("Makefile"), Format::SlashSlash);
    assert_eq!(Format::from_path("py"), Format::SlashSlash);
    assert_eq!(Format::from_path(".bash"), Format::SlashSlash);
    assert_eq!(Format::from_path("dir.py/file"), Format::SlashSlash);
    assert_eq!(Format::from_path(""), Format::SlashSlash);
    assert_eq!(Format::from_path("file."), Format::SlashSlash);
}

#[test]
fn license_line_is_stripped() {
    assert_eq!(
        Format::SlashSlash.check_strip_license_line("// SPDX-License-Identifier: MIT"),
        Some("MIT")
    );
    assert_eq!(
        Format::Hash.check_strip_license_line("# SPDX-License-Identifier: Apache-2.0 OR MIT"),
        Some("Apache-2.0 OR MIT")
    );
    assert_eq!(
        Format::SlashSlash.check_strip_license_line("// SPDX-License-Identifier: "),
        Some("")
    );
}

#[test]
fn other_lines_are_no_license_line() {
    assert_eq!(
        Format::Hash.check_strip_license_line("// SPDX-License-Identifier: MIT"),
        None
    );
    assert_eq!(
        Format::SlashSlash.check_strip_license_line("# SPDX-License-Identifier: MIT"),
        None
    );
    assert_eq!(
        Format::SlashSlash.check_strip_license_line("//SPDX-License-Identifier: MIT"),
        None
    );
    assert_eq!(
        Format::SlashSlash.check_strip_license_line(" // SPDX-License-Identifier: MIT"),
        None
    );
    assert_eq!(
        Format::SlashSlash.check_strip_license_line("// SPDX-License-Identifier:"),
        None
    );
    assert_eq!(Format::SlashSlash.check_strip_license_line(""), None);
    assert_eq!(
        Format::SlashSlash.check_strip_license_line("// Copyright (c) 2025 Me"),
        None
    );
}

#[test]
fn copyright_line_is_stripped() {
    assert_eq!(
        Format::SlashSlash.check_strip_copyright_line("// Copyright (c) 2024-2025 Some One"),
        Some("2024-2025 Some One")
    );
    assert_eq!(
        Format::Hash.check_strip_copyright_line("# Copyright (c) 2025 Me"),
        Some("2025 Me")
    );
    assert_eq!(
        Format::Hash.check_strip_copyright_line("# Copyright (c) "),
        Some("")
    );
    assert_eq!(
        Format::SlashSlash.check_strip_copyright_line("// Copyright (c) 2025 Üñí ©"),
        Some("2025 Üñí ©")
    );
}

#[test]
fn other_lines_are_no_copyright_line() {
    assert_eq!(
        Format::Hash.check_strip_copyright_line("// Copyright (c) 2025 Me"),
        None
    );
    assert_eq!(
        Format::SlashSlash.check_strip_copyright_line("// Copyright (C) 2025 Me"),
        None
    );
    assert_eq!(
        Format::SlashSlash.check_strip_copyright_line("// Copyright 2025 Me"),
        None
    );
    assert_eq!(
        Format::SlashSlash.check_strip_copyright_line("// SPDX-License-Identifier: MIT"),
        None
    );
    assert_eq!(Format::SlashSlash.check_strip_copyright_line(""), None);
}

#[test]
fn sentinel_is_recognised() {
    assert!(Format::SlashSlash.starts_with_sentinel("// * * * * *"));
    assert!(Format::SlashSlash.starts_with_sentinel("// * * * * * third party notices"));
    assert!(Format::Hash.starts_with_sentinel("# * * * * *"));
    assert!(Format::Hash.starts_with_sentinel("# * * * * **"));
}

#[test]
fn other_lines_are_no_sentinel() {
    assert!(!Format::SlashSlash.starts_with_sentinel("# * * * * *"));
    assert!(!Format::Hash.starts_with_sentinel("// * * * * *"));
    assert!(!Format::SlashSlash.starts_with_sentinel("// * * * *"));
    assert!(!Format::SlashSlash.starts_with_sentinel("//* * * * *"));
    assert!(!Format::SlashSlash.starts_with_sentinel(" // * * * * *"));
    assert!(!Format::SlashSlash.starts_with_sentinel("// *****"));
    assert!(!Format::SlashSlash.starts_with_sentinel(""));
}

#[test]
fn format_writes_one_year_for_the_current_year() {
    let mut buf = String::new();
    Format::SlashSlash.format(2025, 2025, "TestHolder", "TestLicense", false, &mut buf);
    assert_eq!(
        buf,
        "// SPDX-License-Identifier: TestLicense\n// Copyright (c) 2025 TestHolder\n"
    );
}

#[test]
fn format_writes_a_range_for_an_earlier_year() {
    let mut buf = String::new();
    Format::Hash.format(2019, 2025, "Some One", "MIT", false, &mut buf);
    assert_eq!(
        buf,
        "# SPDX-License-Identifier: MIT\n# Copyright (c) 2019-2025 Some One\n"
    );
}

#[test]
fn format_uses_the_line_ending_it_is_given() {
    let mut buf = String::new();
    Format::SlashSlash.format(2024, 2025, "H", "L", true, &mut buf);
    assert_eq!(
        buf,
        "// SPDX-License-Identifier: L\r\n// Copyright (c) 2024-2025 H\r\n"
    );
}

#[test]
fn format_appends_to_the_buffer() {
    let mut buf = String::from("before\n");
    Format::Hash.format(7, 7, "", "", false, &mut buf);
    assert_eq!(buf, "before\n# SPDX-License-Identifier: \n# Copyright (c) 7 \n");
}

#[test]
fn format_writes_every_number_in_decimal() {
    let mut buf = String::new();
    Format::Hash.format(0, 4294967295, "h", "l", false, &mut buf);
    assert_eq!(
        buf,
        "# SPDX-License-Identifier: l\n# Copyright (c) 0-4294967295 h\n"
    );
    let mut buf = String::new();
    Format::Hash.format(1000, 10, "h", "l", false, &mut buf);
    assert_eq!(
        buf,
        "# SPDX-License-Identifier: l\n# Copyright (c) 1000-10 h\n"
    );
}
