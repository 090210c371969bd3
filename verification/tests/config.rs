use minigrep::{Config, ConfigError, CASE_INSENSITIVE};

fn strings(items: &[&str]) -> Vec<String> {
    items.iter().map(|item| String::from(*item)).collect()
}

#[test]
fn create_a_new_config() {
    let args = vec![
        String::from("arg0"),
        String::from("arg1"),
        String::from("arg2"),
    ];

    let config = Config::new(args, None).unwrap();

    assert_eq!("arg1", config.query);
    assert_eq!("arg2", config.filename);
}

#[test]
fn create_a_new_config_not_enough_args() {
    let args = vec![String::from("arg0"), String::from("arg1")];

    let config = Config::new(args, None);

    assert!(config.is_err());
}

#[test]
fn resolves_query_source_and_case_sensitivity() {
    let config = Config::new(strings(&["prog", "needle", "haystack.txt"]), None);

    assert_eq!(
        config,
        Ok(Config {
            query: String::from("needle"),
            filename: String::from("haystack.txt"),
            case_sensitive: true,
        })
    );
}

#[test]
fn missing_source_without_toggle() {
    let config = Config::new(strings(&["prog", "needle"]), None);

    assert_eq!(config, Err(ConfigError::MissingSource));
}

#[test]
fn missing_source_with_toggle() {
    let config = Config::new(strings(&["prog", "needle"]), Some(String::from("1")));

    assert_eq!(config, Err(ConfigError::MissingSource));
}

#[test]
fn missing_query_with_program_name_only() {
    let config = Config::new(strings(&["prog"]), None);

    assert_eq!(config, Err(ConfigError::MissingQuery));
}

#[test]
fn missing_query_without_any_argument() {
    let config = Config::new(Vec::new(), Some(String::new()));

    assert_eq!(config, Err(ConfigError::MissingQuery));
}

#[test]
fn further_arguments_are_ignored() {
    let config = Config::new(
        strings(&["prog", "needle", "haystack.txt", "more", "and more"]),
        None,
    )
    .unwrap();

    assert_eq!(config.query, "needle");
    assert_eq!(config.filename, "haystack.txt");
    assert!(config.case_sensitive);
}

#[test]
fn program_name_is_not_looked_at() {
    let config = Config::new(strings(&["", "needle", "haystack.txt"]), None).unwrap();

    assert_eq!(config.query, "needle");
    assert_eq!(config.filename, "haystack.txt");
}

#[test]
fn empty_query_and_source_are_taken_as_given() {
    let config = Config::new(strings(&["prog", "", ""]), None).unwrap();

    assert_eq!(config.query, "");
    assert_eq!(config.filename, "");
}

#[test]
fn toggle_set_to_the_empty_value_turns_case_sensitivity_off() {
    let config = Config::new(
        strings(&["prog", "needle", "haystack.txt"]),
        Some(String::new()),
    )
    .unwrap();

    assert!(!config.case_sensitive);
}

#[test]
fn toggle_is_not_read_as_a_truth_value() {
    for value in ["0", "false", "no", "off", "1", "true"] {
        let config = Config::new(
            strings(&["prog", "needle", "haystack.txt"]),
            Some(String::from(value)),
        )
        .unwrap();

        assert!(!config.case_sensitive);
        assert_eq!(config.query, "needle");
        assert_eq!(config.filename, "haystack.txt");
    }
}

#[test]
fn toggle_has_its_documented_name() {
    assert_eq!(CASE_INSENSITIVE, "CASE_INSENSITIVE");
}

#[test]
fn errors_say_what_is_missing() {
    assert_eq!(ConfigError::MissingQuery.message(), "Didn't get a query string");
    assert_eq!(ConfigError::MissingSource.message(), "Didn't get a file name");
}
