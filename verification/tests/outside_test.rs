use lisensor::copyright::parse_copyright_info;
use lisensor::format::Format;
use std::path::Path;

#[test]
fn the_number_parser_reads_plain_numerals_as_decimal() {
    for (text, expected) in [
        ("0", Some(0u32)),
        ("7", Some(7)),
        ("007", Some(7)),
        ("2025", Some(2025)),
        ("0000000000000000002025", Some(2025)),
        ("4294967295", Some(4294967295)),
        ("4294967296", None),
        ("99999999999999999999", None),
    ] {
        assert_eq!(pistonite_cu::parse::<u32>(text).ok(), expected, "{}", text);
        // and the library reads the year of a copyright line with it
        let info = format!("{} holder", text);
        let year = expected.unwrap_or(2025);
        assert_eq!(
            parse_copyright_info(&info),
            (year, year, "holder".to_string())
        );
    }
}

#[test]
fn the_extension_of_a_path_stands_behind_a_dot() {
    for path in [
        "a.py",
        "dir/a.py",
        "dir.d/a.tar.gz",
        "a.",
        "a..b",
        ".hidden.toml",
        "dir.x/",
        "dir.x/.",
        "a.b/c.d/",
        "weird.ext with space",
        "ünï.çød",
    ] {
        let ext = Path::new(path).extension().unwrap().to_str().unwrap();
        assert!(!ext.contains('.'), "{}", path);
        assert!(path.contains(&format!(".{}", ext)), "{}", path);
        assert_eq!(Format::from_path(path), Format::from_extension(ext), "{}", path);
    }
    for path in ["", "a", ".hidden", "..", "dir.x/file", "/", "a/.."] {
        assert!(Path::new(path).extension().is_none(), "{}", path);
        assert_eq!(Format::from_path(path), Format::SlashSlash, "{}", path);
    }
}

#[test]
fn the_empty_path_has_no_parent() {
    assert!(Path::new("").parent().is_none());
}
