use learning_rust::mgrep::{self, Config};

#[test]
fn it_parse_config() {
    let args = vec!["".to_string(), "query".to_string(), "filename".to_string()];

    let config = Config::new(&args, true).unwrap_or_else(|err| {
        panic!("Error: {}", err);
    });

    assert_eq!(config.query, "query");
    assert_eq!(config.filename, "filename");
}

#[test]
fn parse_config_too_few_arguments() {
    let args = vec!["".to_string()];
    match Config::new(&args, true) {
        Ok(_) => panic!("accepted one argument"),
        Err(e) => assert_eq!(e, "Not enough arguments"),
    }
    let args = vec!["".to_string(), "query".to_string()];
    assert!(Config::new(&args, false).is_err());
}

#[test]
fn parse_config_keeps_case_flag_and_ignores_extra() {
    let args = vec![
        "prog".to_string(),
        "q".to_string(),
        "f.txt".to_string(),
        "extra".to_string(),
    ];
    let config = Config::new(&args, false).unwrap();
    assert_eq!(config.query, "q");
    assert_eq!(config.filename, "f.txt");
    assert!(!config.case_sensitive);
}

#[test]
fn it_one_result() {
    let query = "duct";
    let contents = "\
Rust:
safe, fast, productive.
Pick three.";

    assert_eq!(
        vec!["safe, fast, productive."],
        mgrep::search(query, contents)
    );
}

#[test]
fn it_case_sensitive() {
    let query = "duct";
    let contents = "\
Rust:
safe, fast, productive.
Pick three
Duct tape.";

    assert_eq!(
        vec!["safe, fast, productive."],
        mgrep::search(query, contents)
    );
}

#[test]
fn it_case_insensitive() {
    let query = "duct";
    let contents = "\
Rust:
safe, fast, productive.
Pick three
Duct tape.";

    assert_eq!(
        vec!["safe, fast, productive.", "Duct tape."],
        mgrep::search_case_insensitive(query, contents)
    );
}

#[test]
fn case_insensitive_lowers_the_query_too() {
    let contents = "one\nTWO\nthree";
    assert_eq!(vec!["TWO"], mgrep::search_case_insensitive("Two", contents));
    assert!(mgrep::search("Two", contents).is_empty());
}

#[test]
fn lines_follow_line_endings() {
    assert_eq!(vec!["a", "b", "", "c"], mgrep::lines("a\r\nb\n\nc"));
    assert_eq!(vec!["a", "b"], mgrep::lines("a\nb\n"));
    assert!(mgrep::lines("").is_empty());
    assert_eq!(vec![""], mgrep::lines("\n"));
}

#[test]
fn empty_query_matches_every_line() {
    assert_eq!(vec!["x", "", "y"], mgrep::search("", "x\n\ny"));
}

#[test]
fn search_in_empty_contents() {
    assert!(mgrep::search("a", "").is_empty());
}

#[test]
fn contains_query_finds_runs() {
    assert!(mgrep::contains_query("productive", "duct"));
    assert!(!mgrep::contains_query("produc", "duct"));
    assert!(mgrep::contains_query("abc", ""));
    assert!(!mgrep::contains_query("", "a"));
}

#[test]
fn run_picks_the_search() {
    let sensitive = Config {
        query: "rust".to_string(),
        filename: "poem.txt".to_string(),
        case_sensitive: true,
    };
    let insensitive = Config {
        query: "rust".to_string(),
        filename: "poem.txt".to_string(),
        case_sensitive: false,
    };
    let text = "Rust:\nTrust me.";
    assert_eq!(vec!["Trust me."], mgrep::run(&sensitive, text));
    assert_eq!(vec!["Rust:", "Trust me."], mgrep::run(&insensitive, text));
}
