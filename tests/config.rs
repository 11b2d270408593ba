use minigrep::{run_search, Config, ConfigError};

fn strings(items: &[&str]) -> Vec<String> {
    items.iter().map(|s| s.to_string()).collect()
}

#[test]
fn program_name_alone_is_insufficient() {
    let r = Config::new(&strings(&["prog"]), false);
    assert_eq!(r.err(), Some(ConfigError::InsufficientArguments));
}

#[test]
fn missing_file_name_is_insufficient() {
    assert_eq!(
        Config::new(&strings(&["prog", "query"]), false).err(),
        Some(ConfigError::InsufficientArguments)
    );
    assert_eq!(
        Config::new(&strings(&[]), true).err(),
        Some(ConfigError::InsufficientArguments)
    );
}

#[test]
fn error_message_is_fixed() {
    assert_eq!("Not enough arguments", ConfigError::InsufficientArguments.message());
}

#[test]
fn three_arguments_give_query_and_file_name() {
    let c = Config::new(&strings(&["prog", "needle", "poem.txt"]), false).unwrap();
    assert_eq!("needle", c.query);
    assert_eq!("poem.txt", c.filename);
    assert!(c.case_sensitive);
}

#[test]
fn environment_turns_off_case() {
    let c = Config::new(&strings(&["prog", "needle", "poem.txt"]), true).unwrap();
    assert!(!c.case_sensitive);
}

#[test]
fn flag_turns_off_case() {
    let c = Config::new(&strings(&["prog", "needle", "poem.txt", "-S"]), false).unwrap();
    assert!(!c.case_sensitive);
    let c = Config::new(&strings(&["prog", "needle", "poem.txt", "-x", "-S"]), false).unwrap();
    assert!(!c.case_sensitive);
}

#[test]
fn other_flags_leave_case_to_environment() {
    let c = Config::new(&strings(&["prog", "needle", "poem.txt", "-x"]), false).unwrap();
    assert!(c.case_sensitive);
    let c = Config::new(&strings(&["prog", "needle", "poem.txt", "-x"]), true).unwrap();
    assert!(!c.case_sensitive);
}

#[test]
fn query_equal_to_flag_is_a_query() {
    let c = Config::new(&strings(&["prog", "-S", "poem.txt"]), false).unwrap();
    assert_eq!("-S", c.query);
    assert!(c.case_sensitive);
}

#[test]
fn run_search_follows_case_setting() {
    let contents = "Rust:\nsafe, fast, productive.\nPick three.\nTrust me.";
    let exact = Config::new(&strings(&["prog", "rUsT", "f"]), false).unwrap();
    assert!(run_search(&exact, contents).is_empty());
    let folded = Config::new(&strings(&["prog", "rUsT", "f"]), true).unwrap();
    assert_eq!(vec!["Rust:", "Trust me."], run_search(&folded, contents));
}
