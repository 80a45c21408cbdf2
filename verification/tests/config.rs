use minigrep::{run, Config};

#[test]
fn it_has_enough_arguments() {
    let args = vec![
        String::from("exec"),
        String::from("word"),
        String::from("filename"),
    ];
    let config = Config::new(&args, None).unwrap();
    assert_eq!(config.query, "word");
}

#[test]
#[should_panic]
fn it_does_not_have_enough_arguments() {
    let args = vec![String::from("word"), String::from("filename")];
    let _config = Config::new(&args, None).unwrap_or_else(|err| {
        panic!("Error running config: {}", err);
    });
}

#[test]
fn arguments_give_query_and_filename() {
    let args = vec![
        String::from("prog"),
        String::from("word"),
        String::from("file.txt"),
    ];
    let config = Config::new(&args, None).unwrap();
    assert_eq!(config.query, "word");
    assert_eq!(config.filename, "file.txt");
    assert!(config.case_sensitive);
}

#[test]
fn further_arguments_are_ignored() {
    let args = vec![
        String::from("prog"),
        String::from("word"),
        String::from("file.txt"),
        String::from("more"),
    ];
    let config = Config::new(&args, None).unwrap();
    assert_eq!(config.query, "word");
    assert_eq!(config.filename, "file.txt");
}

#[test]
fn missing_filename_is_an_error() {
    let args = vec![String::from("prog"), String::from("word")];
    match Config::new(&args, None) {
        Ok(_) => panic!("a configuration was built without a file name"),
        Err(reason) => assert_eq!(reason, "Didn't get a filename argument"),
    }
}

#[test]
fn missing_query_is_an_error() {
    let only_program = vec![String::from("prog")];
    match Config::new(&only_program, None) {
        Ok(_) => panic!("a configuration was built without a query"),
        Err(reason) => assert_eq!(reason, "Didn't get a query argument"),
    }
    let nothing: Vec<String> = Vec::new();
    match Config::new(&nothing, Some("1")) {
        Ok(_) => panic!("a configuration was built without arguments"),
        Err(reason) => assert_eq!(reason, "Didn't get a query argument"),
    }
}

#[test]
fn case_variable_switches_case_off() {
    let args = vec![
        String::from("prog"),
        String::from("word"),
        String::from("file.txt"),
    ];
    assert!(Config::new(&args, None).unwrap().case_sensitive);
    assert!(!Config::new(&args, Some("1")).unwrap().case_sensitive);
    assert!(!Config::new(&args, Some("0")).unwrap().case_sensitive);
    assert!(!Config::new(&args, Some("")).unwrap().case_sensitive);
}

#[test]
fn run_searches_in_the_mode_asked_for() {
    let contents = "Rust:\nsafe, fast, productive.\nPick three.\nTrust me.";
    let exact = Config {
        query: String::from("rust"),
        filename: String::from("poem.txt"),
        case_sensitive: true,
    };
    assert_eq!(run(&exact, contents), vec!["Trust me."]);
    let folded = Config {
        query: String::from("rust"),
        filename: String::from("poem.txt"),
        case_sensitive: false,
    };
    assert_eq!(run(&folded, contents), vec!["Rust:", "Trust me."]);
}
