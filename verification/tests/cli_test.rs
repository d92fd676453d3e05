use lisensor::cli::{config_from_cli, Cli, ConfigSource};
use lisensor::clock::{current_year, year_from_calendar};
use lisensor::config::{try_find_default_config_file, Config, ConfigError};

fn args(holder: Option<&str>, license: Option<&str>, paths: &[&str]) -> Cli {
    Cli {
        fix: true,
        holder: holder.map(|s| s.to_string()),
        license: license.map(|s| s.to_string()),
        paths: paths.iter().map(|s| s.to_string()).collect(),
    }
}

#[test]
fn default_config_file_prefers_the_capital() {
    assert_eq!(try_find_default_config_file(true, true), Some("Lisensor.toml"));
    assert_eq!(try_find_default_config_file(true, false), Some("Lisensor.toml"));
    assert_eq!(try_find_default_config_file(false, true), Some("lisensor.toml"));
    assert_eq!(try_find_default_config_file(false, false), None);
}

#[test]
fn inline_flags_make_the_config() {
    let mut cli = args(Some("TestHolder"), Some("TestLicense"), &["src/*.rs", "*.py"]);
    assert_eq!(
        config_from_cli(&mut cli, None),
        Ok(ConfigSource::Inline(Config::new(
            "TestHolder".to_string(),
            "TestLicense".to_string(),
            vec!["src/*.rs".to_string(), "*.py".to_string()]
        )))
    );
    assert_eq!(cli, args(None, None, &[]));
}

#[test]
fn inline_flags_and_a_default_config_file_exclude_each_other() {
    let mut cli = args(Some("TestHolder"), Some("TestLicense"), &["src/*.rs"]);
    assert_eq!(
        config_from_cli(&mut cli, Some("Lisensor.toml")),
        Err(ConfigError::InlineWithConfigFile("Lisensor.toml".to_string()))
    );
    assert_eq!(cli, args(None, None, &["src/*.rs"]));
}

#[test]
fn paths_name_config_files() {
    let mut cli = args(None, None, &["b.toml", "a.toml", "b.toml"]);
    assert_eq!(
        config_from_cli(&mut cli, Some("lisensor.toml")),
        Ok(ConfigSource::Files(vec![
            "b.toml".to_string(),
            "a.toml".to_string(),
            "b.toml".to_string()
        ]))
    );
    assert_eq!(cli, args(None, None, &[]));
}

#[test]
fn default_config_file_stands_in_for_no_paths() {
    let mut cli = args(None, None, &[]);
    assert_eq!(
        config_from_cli(&mut cli, Some("lisensor.toml")),
        Ok(ConfigSource::Files(vec!["lisensor.toml".to_string()]))
    );
}

#[test]
fn no_paths_and_no_default_config_file_is_an_error() {
    let mut cli = args(None, None, &[]);
    assert_eq!(config_from_cli(&mut cli, None), Err(ConfigError::NoConfig));
}

#[test]
fn one_inline_flag_alone_does_not_make_inline_mode() {
    let mut cli = args(Some("TestHolder"), None, &["a.toml"]);
    assert_eq!(
        config_from_cli(&mut cli, None),
        Ok(ConfigSource::Files(vec!["a.toml".to_string()]))
    );
    assert_eq!(cli, args(None, None, &[]));
    let mut cli = args(None, Some("TestLicense"), &[]);
    assert_eq!(config_from_cli(&mut cli, None), Err(ConfigError::NoConfig));
    assert_eq!(cli, args(None, None, &[]));
}

#[test]
fn the_fix_flag_stays() {
    let mut cli = Cli {
        fix: false,
        holder: None,
        license: None,
        paths: vec!["a.toml".to_string()],
    };
    config_from_cli(&mut cli, None).unwrap();
    assert!(!cli.fix);
}

#[test]
fn years_before_zero_count_as_zero() {
    assert_eq!(year_from_calendar(2025), 2025);
    assert_eq!(year_from_calendar(0), 0);
    assert_eq!(year_from_calendar(-1), 0);
    assert_eq!(year_from_calendar(i32::MIN), 0);
    assert_eq!(year_from_calendar(i32::MAX), 2147483647);
}

#[test]
fn the_current_year_is_a_year_of_this_century() {
    let year = current_year();
    assert!(year >= 2025, "{}", year);
    assert!(year < 2100, "{}", year);
}
