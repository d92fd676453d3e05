use lisensor::claims::{Claims, Conflict};
use lisensor::config::{merge_file, shared_with_file, Config, ConfigError};
use std::sync::Arc;

fn entries(config: Config) -> Vec<(String, String, String)> {
    config
        .into_iter()
        .into_iter()
        .map(|(glob, holder, license)| (glob, holder.to_string(), license.to_string()))
        .collect()
}

fn triple(glob: &str, holder: &str, license: &str) -> (String, String, String) {
    (glob.to_string(), holder.to_string(), license.to_string())
}

fn conflict(
    key: &str,
    holder: &str,
    license: &str,
    existing_holder: &str,
    existing_license: &str,
) -> Conflict {
    Conflict {
        key: key.to_string(),
        holder: Arc::new(holder.to_string()),
        license: Arc::new(license.to_string()),
        existing_holder: Arc::new(existing_holder.to_string()),
        existing_license: Arc::new(existing_license.to_string()),
    }
}

#[test]
fn new_config_gives_every_glob_the_pair() {
    let config = Config::new(
        "TestHolder".to_string(),
        "TestLicense".to_string(),
        vec!["src/**/*.rs".to_string(), "*.py".to_string()],
    );
    assert_eq!(
        entries(config),
        vec![
            triple("*.py", "TestHolder", "TestLicense"),
            triple("src/**/*.rs", "TestHolder", "TestLicense"),
        ]
    );
}

#[test]
fn new_config_takes_globs_as_they_are() {
    let config = Config::new(
        "H".to_string(),
        "L".to_string(),
        vec!["./a/../b".to_string(), "/abs/*".to_string(), String::new()],
    );
    assert_eq!(
        entries(config),
        vec![
            triple("", "H", "L"),
            triple("./a/../b", "H", "L"),
            triple("/abs/*", "H", "L"),
        ]
    );
}

#[test]
fn new_config_keeps_a_repeated_glob_once() {
    let config = Config::new(
        "H".to_string(),
        "L".to_string(),
        vec![
            "b".to_string(),
            "a".to_string(),
            "b".to_string(),
            "a".to_string(),
            "c".to_string(),
        ],
    );
    assert_eq!(
        entries(config),
        vec![triple("a", "H", "L"), triple("b", "H", "L"), triple("c", "H", "L")]
    );
}

#[test]
fn new_config_without_globs_is_the_default() {
    let config = Config::new("H".to_string(), "L".to_string(), vec![]);
    assert_eq!(config, Config::default());
    assert_eq!(entries(config), vec![]);
}

#[test]
fn config_lists_globs_in_the_order_of_strings() {
    let mut globs: Vec<String> = ["z", "a", "B", "ab", "a/b", "é", "a b", "", "~", "€"]
        .iter()
        .map(|s| s.to_string())
        .collect();
    let config = Config::new("H".to_string(), "L".to_string(), globs.clone());
    globs.sort();
    let listed: Vec<String> = config.into_iter().into_iter().map(|e| e.0).collect();
    assert_eq!(listed, globs);
}

#[test]
fn config_lists_its_globs() {
    let config = Config::new(
        "H".to_string(),
        "L".to_string(),
        vec!["b".to_string(), "a".to_string(), "b".to_string()],
    );
    assert_eq!(config.globs(), vec!["a".to_string(), "b".to_string()]);
    assert_eq!(Config::default().globs(), Vec::<String>::new());
}

#[test]
fn absorb_takes_in_the_other_config() {
    let mut config = Config::new("A".to_string(), "MIT".to_string(), vec!["a/*".to_string()]);
    let other = Config::new(
        "B".to_string(),
        "GPL".to_string(),
        vec!["b/*".to_string(), "0".to_string()],
    );
    assert_eq!(config.absorb(other), Ok(()));
    assert_eq!(
        entries(config),
        vec![
            triple("0", "B", "GPL"),
            triple("a/*", "A", "MIT"),
            triple("b/*", "B", "GPL"),
        ]
    );
}

#[test]
fn absorb_into_an_empty_config_gives_the_other() {
    let other = Config::new(
        "B".to_string(),
        "GPL".to_string(),
        vec!["b/*".to_string(), "0".to_string()],
    );
    let mut config = Config::default();
    assert_eq!(config.absorb(other.clone()), Ok(()));
    assert_eq!(config, other);
}

#[test]
fn absorb_accepts_the_same_claim_twice() {
    let mut config = Config::new(
        "A".to_string(),
        "MIT".to_string(),
        vec!["a/*".to_string(), "shared".to_string()],
    );
    let other = Config::new(
        "A".to_string(),
        "MIT".to_string(),
        vec!["shared".to_string(), "b/*".to_string()],
    );
    assert_eq!(config.absorb(other), Ok(()));
    assert_eq!(
        entries(config),
        vec![
            triple("a/*", "A", "MIT"),
            triple("b/*", "A", "MIT"),
            triple("shared", "A", "MIT"),
        ]
    );
}

#[test]
fn absorb_finds_two_holders_for_one_glob() {
    let mut config = Config::new("A".to_string(), "MIT".to_string(), vec!["src/*".to_string()]);
    let other = Config::new("B".to_string(), "MIT".to_string(), vec!["src/*".to_string()]);
    assert_eq!(
        config.absorb(other),
        Err(ConfigError::Conflict(conflict("src/*", "B", "MIT", "A", "MIT")))
    );
}

#[test]
fn absorb_finds_two_licenses_for_one_glob() {
    let mut config = Config::new("A".to_string(), "MIT".to_string(), vec!["src/*".to_string()]);
    let other = Config::new("A".to_string(), "GPL".to_string(), vec!["src/*".to_string()]);
    assert_eq!(
        config.absorb(other),
        Err(ConfigError::Conflict(conflict("src/*", "A", "GPL", "A", "MIT")))
    );
}

#[test]
fn absorb_stops_at_the_first_conflict() {
    let mut config = Config::new(
        "A".to_string(),
        "MIT".to_string(),
        vec!["m".to_string(), "x".to_string()],
    );
    let other = Config::new(
        "B".to_string(),
        "MIT".to_string(),
        vec![
            "a".to_string(),
            "m".to_string(),
            "n".to_string(),
            "x".to_string(),
        ],
    );
    assert_eq!(
        config.absorb(other),
        Err(ConfigError::Conflict(conflict("m", "B", "MIT", "A", "MIT")))
    );
    // what came before the conflict was taken in
    assert_eq!(
        entries(config),
        vec![
            triple("a", "B", "MIT"),
            triple("m", "A", "MIT"),
            triple("x", "A", "MIT"),
        ]
    );
}

#[test]
fn build_reads_holders_globs_and_licenses() {
    let text = r#"
["Holder A"]
"src/**/*.rs" = "MIT"
"*.py" = "Apache-2.0"

[HolderB]
"docs/*.md" = "CC0-1.0"
"#;
    let config = Config::build("Lisensor.toml", text).unwrap();
    assert_eq!(
        entries(config),
        vec![
            triple("*.py", "Holder A", "Apache-2.0"),
            triple("docs/*.md", "HolderB", "CC0-1.0"),
            triple("src/**/*.rs", "Holder A", "MIT"),
        ]
    );
}

#[test]
fn build_resolves_globs_from_the_directory_of_the_config_file() {
    let text = "[Me]\n\"src/*.rs\" = \"MIT\"\n\"/abs/*.rs\" = \"MIT\"\n";
    let config = Config::build("some/dir/Lisensor.toml", text).unwrap();
    assert_eq!(
        entries(config),
        vec![
            triple("/abs/*.rs", "Me", "MIT"),
            triple("some/dir/src/*.rs", "Me", "MIT"),
        ]
    );
    let config = Config::build("/etc/lisensor.toml", text).unwrap();
    assert_eq!(
        entries(config),
        vec![triple("/abs/*.rs", "Me", "MIT"), triple("/etc/src/*.rs", "Me", "MIT")]
    );
}

#[test]
fn build_of_an_empty_file_is_an_empty_config() {
    assert_eq!(Config::build("Lisensor.toml", ""), Ok(Config::default()));
    assert_eq!(
        Config::build("Lisensor.toml", "# nothing here\n[Holder]\n"),
        Ok(Config::default())
    );
}

#[test]
fn build_refuses_text_that_is_no_config() {
    for text in [
        "not toml at all",
        "[Holder]\n\"glob\" = 1\n",
        "top = \"level\"\n",
        "[Holder]\n\"glob\" = \"MIT\"\n\"glob\" = \"MIT\"\n",
        "[Holder]\n[Holder.nested]\n\"glob\" = \"MIT\"\n",
    ] {
        match Config::build("Lisensor.toml", text) {
            Err(ConfigError::Malformed(message)) => assert!(!message.is_empty()),
            other => panic!("{:?} gave {:?}", text, other),
        }
    }
}

#[test]
fn build_needs_a_parent_directory() {
    let text = "[Me]\n\"src/*.rs\" = \"MIT\"\n";
    assert_eq!(Config::build("", text), Err(ConfigError::NoParent));
    assert_eq!(Config::build("/", text), Err(ConfigError::NoParent));
    // the text is read first
    match Config::build("/", "not toml at all") {
        Err(ConfigError::Malformed(_)) => {}
        other => panic!("{:?}", other),
    }
}

#[test]
fn build_finds_a_conflict_within_one_file() {
    let text = "[A]\n\"x\" = \"MIT\"\n[B]\n\"x\" = \"MIT\"\n";
    assert_eq!(
        Config::build("Lisensor.toml", text),
        Err(ConfigError::Conflict(conflict("x", "B", "MIT", "A", "MIT")))
    );
    let text = "[B]\n\"x\" = \"GPL\"\n[A]\n\"/dir/x\" = \"MIT\"\n";
    assert_eq!(
        Config::build("/dir/Lisensor.toml", text),
        Err(ConfigError::Conflict(conflict(
            "/dir/x", "B", "GPL", "A", "MIT"
        )))
    );
}

#[test]
fn build_accepts_the_same_claim_twice_within_one_file() {
    let text = "[A]\n\"x\" = \"MIT\"\n\"/dir/x\" = \"MIT\"\n";
    assert_eq!(
        entries(Config::build("/dir/Lisensor.toml", text).unwrap()),
        vec![triple("/dir/x", "A", "MIT")]
    );
}

#[test]
fn merged_files_conflict_as_one_file_does() {
    let mut config = Config::build("a/Lisensor.toml", "[A]\n\"../x\" = \"MIT\"\n").unwrap();
    let other = Config::build("a/other.toml", "[B]\n\"../x\" = \"MIT\"\n").unwrap();
    assert_eq!(
        config.absorb(other),
        Err(ConfigError::Conflict(conflict("a/../x", "B", "MIT", "A", "MIT")))
    );
}

#[test]
fn claims_enter_free_keys_and_find_taken_ones() {
    let mut claims = Claims::new();
    assert_eq!(claims.len(), 0);
    assert_eq!(claims.get("a"), None);
    let a = Arc::new("A".to_string());
    let b = Arc::new("B".to_string());
    let mit = Arc::new("MIT".to_string());
    assert_eq!(claims.claim("k".to_string(), a.clone(), mit.clone()), Ok(true));
    assert_eq!(claims.claim("k".to_string(), a.clone(), mit.clone()), Ok(false));
    assert_eq!(
        claims.claim("k".to_string(), b.clone(), mit.clone()),
        Err(conflict("k", "B", "MIT", "A", "MIT"))
    );
    assert_eq!(
        claims.claim("k".to_string(), a.clone(), b.clone()),
        Err(conflict("k", "A", "B", "A", "MIT"))
    );
    assert_eq!(claims.claim("j".to_string(), b.clone(), mit.clone()), Ok(true));
    assert_eq!(claims.len(), 2);
    assert_eq!(claims.get("k"), Some((&a, &mit)));
    assert_eq!(claims.get("j"), Some((&b, &mit)));
    assert_eq!(claims.get("i"), None);
    assert_eq!(claims.get("kk"), None);
    assert_eq!(
        claims.into_entries(),
        vec![
            ("j".to_string(), b.clone(), mit.clone()),
            ("k".to_string(), a.clone(), mit.clone()),
        ]
    );
}

#[test]
fn claims_stay_in_order_whatever_the_order_of_entry() {
    let keys = [
        "m", "c", "x", "a", "z", "b", "y", "n", "l", "o", "aa", "ab", "", "zz", "mm",
    ];
    let mut claims = Claims::new();
    let pair = Arc::new("P".to_string());
    for key in keys {
        assert_eq!(
            claims.claim(key.to_string(), pair.clone(), pair.clone()),
            Ok(true)
        );
    }
    for key in keys {
        assert!(claims.get(key).is_some());
        assert_eq!(
            claims.claim(key.to_string(), pair.clone(), pair.clone()),
            Ok(false)
        );
    }
    let mut sorted: Vec<String> = keys.iter().map(|k| k.to_string()).collect();
    sorted.sort();
    let listed: Vec<String> = claims.into_entries().into_iter().map(|e| e.0).collect();
    assert_eq!(listed, sorted);
}

fn strings(list: &[&str]) -> Vec<String> {
    list.iter().map(|s| s.to_string()).collect()
}

fn tables(list: &[(&str, &[(&str, &str)])]) -> Vec<(String, Vec<(String, String)>)> {
    list.iter()
        .map(|(holder, licenses)| {
            (
                holder.to_string(),
                licenses
                    .iter()
                    .map(|(glob, license)| (glob.to_string(), license.to_string()))
                    .collect(),
            )
        })
        .collect()
}

#[test]
fn repeated_globs_are_those_that_come_again() {
    assert_eq!(
        Config::repeated_globs(&strings(&["b", "a", "b", "a", "c", "b"])),
        strings(&["b", "a", "b"])
    );
    assert_eq!(
        Config::repeated_globs(&strings(&["a", "b", "c"])),
        Vec::<String>::new()
    );
    assert_eq!(Config::repeated_globs(&vec![]), Vec::<String>::new());
    assert_eq!(
        Config::repeated_globs(&strings(&["", "", ""])),
        strings(&["", ""])
    );
}

#[test]
fn shared_globs_are_those_held_with_the_same_pair() {
    let config = Config::new(
        "A".to_string(),
        "MIT".to_string(),
        strings(&["a/*", "shared", "z"]),
    );
    let other = Config::new(
        "A".to_string(),
        "MIT".to_string(),
        strings(&["z", "shared", "b/*"]),
    );
    assert_eq!(config.shared_globs(&other), strings(&["shared", "z"]));
    assert_eq!(other.shared_globs(&config), strings(&["shared", "z"]));
    assert_eq!(
        config.shared_globs(&Config::default()),
        Vec::<String>::new()
    );
    assert_eq!(
        Config::default().shared_globs(&config),
        Vec::<String>::new()
    );
    assert_eq!(
        config.shared_globs(&config.clone()),
        strings(&["a/*", "shared", "z"])
    );
}

#[test]
fn shared_globs_end_at_the_first_conflict() {
    let config = Config::new("A".to_string(), "MIT".to_string(), strings(&["k", "m", "z"]));
    let mut other = Config::new("A".to_string(), "MIT".to_string(), strings(&["k", "z"]));
    other
        .absorb(Config::new(
            "B".to_string(),
            "MIT".to_string(),
            strings(&["m"]),
        ))
        .unwrap();
    assert_eq!(config.shared_globs(&other), strings(&["k"]));
    let mut merged = config.clone();
    assert_eq!(
        merged.absorb(other),
        Err(ConfigError::Conflict(conflict("m", "B", "MIT", "A", "MIT")))
    );
}

#[test]
fn from_tables_joins_each_glob_to_the_directory() {
    let config = Config::from_tables(
        "conf",
        tables(&[
            ("Holder A", &[("*.py", "Apache-2.0"), ("src/*.rs", "MIT")]),
            ("HolderB", &[("/abs/*.md", "CC0-1.0")]),
        ]),
    )
    .unwrap();
    assert_eq!(
        entries(config),
        vec![
            triple("/abs/*.md", "HolderB", "CC0-1.0"),
            triple("conf/*.py", "Holder A", "Apache-2.0"),
            triple("conf/src/*.rs", "Holder A", "MIT"),
        ]
    );
    assert_eq!(Config::from_tables("conf", vec![]), Ok(Config::default()));
}

#[test]
fn from_tables_finds_the_first_conflict() {
    assert_eq!(
        Config::from_tables(
            "conf",
            tables(&[
                ("A", &[("w", "MIT"), ("x", "MIT")]),
                ("B", &[("w", "MIT"), ("x", "MIT")]),
            ])
        ),
        Err(ConfigError::Conflict(conflict(
            "conf/w", "B", "MIT", "A", "MIT"
        )))
    );
    assert_eq!(
        Config::from_tables(
            "",
            tables(&[("A", &[("x", "MIT")]), ("A", &[("x", "GPL")])])
        ),
        Err(ConfigError::Conflict(conflict("x", "A", "GPL", "A", "MIT")))
    );
}

#[test]
fn take_in_tables_notes_the_globs_that_come_again() {
    let given = tables(&[
        ("A", &[("x", "MIT"), ("y", "MIT"), ("/d/x", "MIT")]),
        ("A", &[("y", "MIT")]),
        ("B", &[("/d/x", "MIT"), ("z", "MIT")]),
    ]);
    let (config, repeated) = Config::take_in_tables("/d", &given);
    assert_eq!(
        config,
        Err(ConfigError::Conflict(conflict("/d/x", "B", "MIT", "A", "MIT")))
    );
    assert_eq!(repeated, strings(&["/d/x", "/d/y"]));
    let given = tables(&[("A", &[("x", "MIT")]), ("B", &[("y", "MIT")])]);
    let (config, repeated) = Config::take_in_tables("/d", &given);
    assert_eq!(
        entries(config.unwrap()),
        vec![triple("/d/x", "A", "MIT"), triple("/d/y", "B", "MIT")]
    );
    assert_eq!(repeated, Vec::<String>::new());
}

#[test]
fn repeated_in_file_names_the_globs_that_build_passes_over() {
    let text = "[A]\n\"x\" = \"MIT\"\n\"/dir/x\" = \"MIT\"\n\"y\" = \"MIT\"\n";
    assert_eq!(
        Config::repeated_in_file("/dir/Lisensor.toml", text),
        strings(&["/dir/x"])
    );
    assert_eq!(
        Config::repeated_in_file("/other/Lisensor.toml", text),
        Vec::<String>::new()
    );
    assert_eq!(
        Config::repeated_in_file("/dir/Lisensor.toml", "not toml at all"),
        Vec::<String>::new()
    );
    assert_eq!(
        Config::repeated_in_file("", text),
        Vec::<String>::new()
    );
}

#[test]
fn merge_file_builds_and_merges() {
    let mut config = Config::new("A".to_string(), "MIT".to_string(), strings(&["a/x"]));
    assert_eq!(
        merge_file(&mut config, "a/Lisensor.toml", "[A]\n\"x\" = \"MIT\"\n\"y\" = \"GPL\"\n"),
        Ok(())
    );
    assert_eq!(
        entries(config.clone()),
        vec![triple("a/x", "A", "MIT"), triple("a/y", "A", "GPL")]
    );
    assert_eq!(
        merge_file(&mut config, "a/more.toml", "[B]\n\"w\" = \"MIT\"\n\"y\" = \"GPL\"\n"),
        Err(ConfigError::Conflict(conflict("a/y", "B", "GPL", "A", "GPL")))
    );
    // what came before the conflict was taken in
    assert_eq!(
        entries(config.clone()),
        vec![
            triple("a/w", "B", "MIT"),
            triple("a/x", "A", "MIT"),
            triple("a/y", "A", "GPL"),
        ]
    );
}

#[test]
fn merge_file_leaves_the_config_where_the_file_gives_none() {
    let mut config = Config::new("A".to_string(), "MIT".to_string(), strings(&["a/x"]));
    let before = config.clone();
    match merge_file(&mut config, "a/Lisensor.toml", "not toml at all") {
        Err(ConfigError::Malformed(_)) => {}
        other => panic!("{:?}", other),
    }
    assert_eq!(config, before);
    assert_eq!(
        merge_file(&mut config, "", "[B]\n\"w\" = \"MIT\"\n"),
        Err(ConfigError::NoParent)
    );
    assert_eq!(config, before);
    assert_eq!(
        merge_file(&mut config, "a/L.toml", "[A]\n\"x\" = \"MIT\"\n[B]\n\"x\" = \"MIT\"\n"),
        Err(ConfigError::Conflict(conflict("a/x", "B", "MIT", "A", "MIT")))
    );
    assert_eq!(config, before);
}

#[test]
fn shared_with_file_names_the_globs_that_a_merge_passes_over() {
    let config = Config::new("A".to_string(), "MIT".to_string(), strings(&["a/x", "a/z"]));
    assert_eq!(
        shared_with_file(&config, "a/L.toml", "[A]\n\"y\" = \"MIT\"\n\"z\" = \"MIT\"\n\"x\" = \"MIT\"\n"),
        strings(&["a/x", "a/z"])
    );
    assert_eq!(
        shared_with_file(&config, "a/L.toml", "[A]\n\"x\" = \"MIT\"\n[B]\n\"z\" = \"MIT\"\n"),
        strings(&["a/x"])
    );
    assert_eq!(
        shared_with_file(&config, "a/L.toml", "not toml"),
        Vec::<String>::new()
    );
}

#[test]
fn claims_hand_out_their_entries() {
    let mut claims = Claims::new();
    let pair = Arc::new("P".to_string());
    claims.claim("b".to_string(), pair.clone(), pair.clone()).unwrap();
    claims.claim("a".to_string(), pair.clone(), pair.clone()).unwrap();
    assert_eq!(
        claims.entries(),
        &vec![
            ("a".to_string(), pair.clone(), pair.clone()),
            ("b".to_string(), pair.clone(), pair.clone()),
        ]
    );
    assert_eq!(claims.keys(), vec!["a".to_string(), "b".to_string()]);
}
