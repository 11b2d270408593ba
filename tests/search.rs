use minigrep::text::line_contains;
use minigrep::{search, search_case_insensitive};

#[test]
fn case_sensitive() {
    let query = "duct";
    let contents = "\
Rust:
safe, fast, productive.
Pick three.
Duct tape.";

    assert_eq!(vec!["safe, fast, productive."], search(query, contents));
}

#[test]
fn case_insensitive() {
    let query = "rUsT";
    let contents = "\
Rust:
safe, fast, productive.
Pick three.
Trust me.";
    assert_eq!(
        vec!["Rust:", "Trust me."],
        search_case_insensitive(query, contents)
    );
}

#[test]
fn returned_lines_hold_query_and_others_do_not() {
    let contents = "alpha\nbeta\ngamma\nalphabet";
    let found = search("alph", contents);
    assert_eq!(vec!["alpha", "alphabet"], found);
    for line in contents.lines() {
        assert_eq!(found.contains(&line), line.contains("alph"));
    }
}

#[test]
fn insensitive_covers_sensitive() {
    let contents = "Rust:\nrust is fun\nTRUST\nnothing here";
    let exact = search("rust", contents);
    let folded = search_case_insensitive("rust", contents);
    assert_eq!(vec!["rust is fun"], exact);
    assert_eq!(vec!["Rust:", "rust is fun", "TRUST"], folded);
    for line in &exact {
        assert!(folded.contains(line));
    }
}

#[test]
fn empty_query_returns_every_line() {
    let contents = "one\n\nThree\r\nfour";
    let all = vec!["one", "", "Three", "four"];
    assert_eq!(all, search("", contents));
    assert_eq!(all, search_case_insensitive("", contents));
}

#[test]
fn results_keep_content_order() {
    let contents = "b x\na x\nc\nd x";
    assert_eq!(vec!["b x", "a x", "d x"], search("x", contents));
    assert_eq!(vec!["b x", "a x", "d x"], search_case_insensitive("X", contents));
}

#[test]
fn duplicate_lines_are_all_kept() {
    assert_eq!(vec!["same", "same"], search("same", "same\nother\nsame"));
}

#[test]
fn line_terminators_are_dropped() {
    assert_eq!(vec!["a1", "a2"], search("a", "a1\r\na2\n"));
    assert_eq!(vec!["a\r"], search("a", "a\r"));
    assert_eq!(vec![""], search("", "\n"));
}

#[test]
fn empty_content_has_no_lines() {
    assert!(search("", "").is_empty());
    assert!(search_case_insensitive("x", "").is_empty());
}

#[test]
fn query_longer_than_line_does_not_match() {
    assert!(search("longer query", "short").is_empty());
}

#[test]
fn insensitive_search_lowercases_non_ascii_text() {
    assert_eq!(vec!["ÄPFEL"], search_case_insensitive("äpf", "ÄPFEL\nbirnen"));
    assert!(search("äpf", "ÄPFEL\nbirnen").is_empty());
}

#[test]
fn line_contains_finds_occurrences() {
    assert!(line_contains("productive", "duct"));
    assert!(line_contains("abc", ""));
    assert!(line_contains("abc", "abc"));
    assert!(!line_contains("abc", "abcd"));
    assert!(!line_contains("Duct", "duct"));
    assert!(line_contains("aab", "ab"));
}

#[test]
fn returned_lines_lie_inside_content() {
    let contents = String::from("Rust:\nsafe, fast, productive.\nTrust me.");
    let start = contents.as_ptr() as usize;
    let end = start + contents.len();
    for line in search("t", &contents)
        .into_iter()
        .chain(search_case_insensitive("RUST", &contents))
    {
        let at = line.as_ptr() as usize;
        assert!(start <= at && at + line.len() <= end);
        assert!(contents.contains(line));
    }
}
