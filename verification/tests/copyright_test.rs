use lisensor::copyright::{parse_copyright_info, year_range, EPOCH_YEAR};

#[test]
fn copyright_info_with_one_year() {
    assert_eq!(
        parse_copyright_info("2024 Pistonite"),
        (2024, 2024, "Pistonite".to_string())
    );
}

#[test]
fn copyright_info_with_a_range() {
    assert_eq!(
        parse_copyright_info("2020-2024 Some Holder, Inc."),
        (2020, 2024, "Some Holder, Inc.".to_string())
    );
}

#[test]
fn copyright_info_without_holder() {
    assert_eq!(parse_copyright_info("2021"), (2021, 2021, String::new()));
    assert_eq!(parse_copyright_info("2021 "), (2021, 2021, String::new()));
    assert_eq!(parse_copyright_info("2019-2021"), (2019, 2021, String::new()));
}

#[test]
fn copyright_info_defaults_to_the_epoch_year() {
    assert_eq!(EPOCH_YEAR, 2025);
    assert_eq!(parse_copyright_info(""), (2025, 2025, String::new()));
    assert_eq!(
        parse_copyright_info("someday Me"),
        (2025, 2025, "Me".to_string())
    );
    assert_eq!(
        parse_copyright_info("-2030 Me"),
        (2025, 2030, "Me".to_string())
    );
    assert_eq!(
        parse_copyright_info(" 2024 Me"),
        (2025, 2025, "2024 Me".to_string())
    );
    assert_eq!(
        parse_copyright_info("99999999999 Me"),
        (2025, 2025, "Me".to_string())
    );
}

#[test]
fn copyright_info_without_end_year_ends_in_the_start_year() {
    assert_eq!(
        parse_copyright_info("2022 Me"),
        (2022, 2022, "Me".to_string())
    );
    assert_eq!(
        parse_copyright_info("2031 Me"),
        (2031, 2031, "Me".to_string())
    );
}

#[test]
fn copyright_info_unreadable_end_year_is_the_epoch_year() {
    assert_eq!(
        parse_copyright_info("2020-abc H"),
        (2020, 2025, "H".to_string())
    );
    assert_eq!(
        parse_copyright_info("2022-later Me"),
        (2022, 2025, "Me".to_string())
    );
    assert_eq!(
        parse_copyright_info("2022- Me"),
        (2022, 2025, "Me".to_string())
    );
    assert_eq!(
        parse_copyright_info("2020-2021-2022 Me"),
        (2020, 2025, "Me".to_string())
    );
    assert_eq!(
        parse_copyright_info("when-ever Me"),
        (2025, 2025, "Me".to_string())
    );
    assert_eq!(
        parse_copyright_info("2020-99999999999 Me"),
        (2020, 2025, "Me".to_string())
    );
}

#[test]
fn copyright_info_unreadable_end_year_is_not_before_the_start_year() {
    assert_eq!(
        parse_copyright_info("2030-abc H"),
        (2030, 2030, "H".to_string())
    );
}

#[test]
fn copyright_info_end_year_is_not_before_the_start_year() {
    assert_eq!(
        parse_copyright_info("2024-2020 Me"),
        (2024, 2024, "Me".to_string())
    );
}

#[test]
fn copyright_info_reads_years_as_the_parser_does() {
    // the year fields go through the number parser, which knows other bases
    assert_eq!(
        parse_copyright_info("0x7E8 Me"),
        (2024, 2024, "Me".to_string())
    );
    assert_eq!(
        parse_copyright_info("+2023-0b11111101001 Me"),
        (2023, 2025, "Me".to_string())
    );
    assert_eq!(
        parse_copyright_info("0002024 Me"),
        (2024, 2024, "Me".to_string())
    );
    assert_eq!(parse_copyright_info("0 Me"), (0, 0, "Me".to_string()));
    assert_eq!(
        parse_copyright_info("4294967295 Me"),
        (4294967295, 4294967295, "Me".to_string())
    );
    assert_eq!(
        parse_copyright_info("4294967296 Me"),
        (2025, 2025, "Me".to_string())
    );
}

#[test]
fn copyright_info_keeps_the_holder_as_it_is() {
    assert_eq!(
        parse_copyright_info("2024  two spaces "),
        (2024, 2024, " two spaces ".to_string())
    );
    assert_eq!(
        parse_copyright_info("2024 Ünï çødé"),
        (2024, 2024, "Ünï çødé".to_string())
    );
}

#[test]
fn year_range_fills_what_is_missing() {
    assert_eq!(year_range(Some(2020), Some(Some(2024))), (2020, 2024));
    assert_eq!(year_range(Some(2020), None), (2020, 2020));
    assert_eq!(year_range(Some(2020), Some(None)), (2020, 2025));
    assert_eq!(year_range(Some(2030), Some(None)), (2030, 2030));
    assert_eq!(year_range(Some(2030), None), (2030, 2030));
    assert_eq!(year_range(None, Some(Some(2030))), (2025, 2030));
    assert_eq!(year_range(None, Some(Some(2020))), (2025, 2025));
    assert_eq!(year_range(None, Some(None)), (2025, 2025));
    assert_eq!(year_range(None, None), (2025, 2025));
    assert_eq!(year_range(Some(2024), Some(Some(2020))), (2024, 2024));
}
