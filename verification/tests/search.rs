use minigrep::lines::lines;
use minigrep::occurrence::contains;
use minigrep::{search, search_case_insensitive};

#[test]
fn one_result() {
    let query = "duct";
    let contents = "\
Rust:
safe, fast, productive.
Pick three.";
    assert_eq!(vec!["safe, fast, productive."], search(query, contents));
}

#[test]
fn case_insensitive_search_test() {
    let query = "rUsT";
    let contents = "\
Rust:
safe, fast, productive.
Pick three.
Trust me.";
    assert_eq!(
        vec!["Rust:", "Trust me."],
        search_case_insensitive(query, contents)
    );
}

#[test]
fn exact_search_tells_case_apart() {
    let contents = "Rust:\nsafe, fast, productive.\nPick three.\nTrust me.";
    assert_eq!(search("rUsT", contents), Vec::<&str>::new());
    assert_eq!(search("rust", contents), vec!["Trust me."]);
    assert_eq!(search("Rust", contents), vec!["Rust:"]);
}

#[test]
fn folded_search_needs_the_lowercase_form() {
    assert_eq!(search_case_insensitive("RUST", "rust"), vec!["rust"]);
    assert_eq!(search_case_insensitive("rust", "RUST"), vec!["RUST"]);
    assert_eq!(search_case_insensitive("ÄB", "xäby\nAB"), vec!["xäby"]);
}

#[test]
fn no_match_is_an_empty_result() {
    assert_eq!(search("zebra", "one\ntwo\nthree"), Vec::<&str>::new());
    assert_eq!(
        search_case_insensitive("zebra", "one\ntwo\nthree"),
        Vec::<&str>::new()
    );
}

#[test]
fn matches_keep_their_order_and_repeat() {
    let contents = "b a\nc\na b\nb a\n";
    assert_eq!(search("a", contents), vec!["b a", "a b", "b a"]);
    assert_eq!(
        search_case_insensitive("A", contents),
        vec!["b a", "a b", "b a"]
    );
}

#[test]
fn matches_are_not_trimmed() {
    let contents = "  lead\ntrail  \n\tmid\t";
    assert_eq!(search("a", contents), vec!["  lead", "trail  "]);
    assert_eq!(search("mid", contents), vec!["\tmid\t"]);
}

#[test]
fn matches_borrow_from_the_text() {
    let contents = String::from("first\nsecond line\nthird");
    let found = search("second", &contents);
    assert_eq!(found.len(), 1);
    let start = contents.as_ptr() as usize;
    let line = found[0].as_ptr() as usize;
    assert_eq!(line - start, 6);
    assert_eq!(found[0].len(), 11);
}

#[test]
fn empty_query_finds_every_line() {
    let contents = "one\n\ntwo\r\nthree";
    assert_eq!(search("", contents), vec!["one", "", "two", "three"]);
    assert_eq!(
        search_case_insensitive("", contents),
        vec!["one", "", "two", "three"]
    );
}

#[test]
fn empty_text_finds_nothing() {
    assert_eq!(search("a", ""), Vec::<&str>::new());
    assert_eq!(search("", ""), Vec::<&str>::new());
    assert_eq!(search_case_insensitive("a", ""), Vec::<&str>::new());
    assert_eq!(search_case_insensitive("", ""), Vec::<&str>::new());
}

#[test]
fn searching_twice_gives_the_same() {
    let contents = "Alpha\nbeta\nALPHABET\nalpine";
    assert_eq!(search("lp", contents), search("lp", contents));
    assert_eq!(
        search_case_insensitive("LP", contents),
        search_case_insensitive("LP", contents)
    );
    assert_eq!(search("lp", contents), vec!["Alpha", "alpine"]);
    assert_eq!(
        search_case_insensitive("LP", contents),
        vec!["Alpha", "ALPHABET", "alpine"]
    );
}

#[test]
fn exact_matches_are_among_folded_matches() {
    let contents = "Rust:\nsafe, fast, productive.\nTrust me.\nrusty\nDUST";
    let exact = search("ust", contents);
    let folded = search_case_insensitive("ust", contents);
    assert_eq!(exact, vec!["Rust:", "Trust me.", "rusty"]);
    assert_eq!(folded, vec!["Rust:", "Trust me.", "rusty", "DUST"]);
    for line in &exact {
        assert!(folded.contains(line));
    }
}

#[test]
fn query_across_a_line_break_matches_nothing() {
    assert_eq!(search("a\nb", "a\nb"), Vec::<&str>::new());
    assert_eq!(search("\n", "a\nb"), Vec::<&str>::new());
}

#[test]
fn lines_end_at_line_feeds() {
    assert_eq!(lines("a\nb\nc"), vec!["a", "b", "c"]);
    assert_eq!(lines("a\nb\nc\n"), vec!["a", "b", "c"]);
    assert_eq!(lines("a\n\nb"), vec!["a", "", "b"]);
    assert_eq!(lines("\n"), vec![""]);
    assert_eq!(lines("\n\n"), vec!["", ""]);
    assert_eq!(lines("single"), vec!["single"]);
    assert_eq!(lines(""), Vec::<&str>::new());
}

#[test]
fn lines_drop_a_carriage_return_before_a_line_feed() {
    assert_eq!(lines("a\r\nb\r\n"), vec!["a", "b"]);
    assert_eq!(lines("a\r\r\nb"), vec!["a\r", "b"]);
    assert_eq!(lines("\r\n"), vec![""]);
    assert_eq!(lines("a\rb\nc"), vec!["a\rb", "c"]);
    assert_eq!(lines("a\nb\r"), vec!["a", "b\r"]);
    assert_eq!(lines("\r"), vec!["\r"]);
}

#[test]
fn lines_agree_with_the_standard_library() {
    let texts = [
        "",
        "\n",
        "\r",
        "\r\n",
        "\n\r",
        "a",
        "a\n",
        "a\r\n",
        "a\r",
        "a\n\nb\r\n\r\nc\r",
        "é\nñandú\r\n日本語\n\u{1F600}\r\n",
        "\u{85}x\u{2028}y\n\u{0A0D}z",
        "tab\there\r\r\n\rnext",
    ];
    for text in texts {
        let expected: Vec<&str> = text.lines().collect();
        assert_eq!(lines(text), expected);
    }
}

#[test]
fn lines_hold_characters_of_every_width() {
    assert_eq!(
        lines("é\r\n日本語\n\u{1F600}\n"),
        vec!["é", "日本語", "\u{1F600}"]
    );
    assert_eq!(search("本", "é\n日本語\n\u{1F600}"), vec!["日本語"]);
}

#[test]
fn contains_finds_runs_of_characters() {
    assert!(contains("safe, fast, productive.", "duct"));
    assert!(contains("abc", "abc"));
    assert!(contains("abc", "a"));
    assert!(contains("abc", "c"));
    assert!(contains("aab", "ab"));
    assert!(contains("abc", ""));
    assert!(contains("", ""));
    assert!(!contains("", "a"));
    assert!(!contains("abc", "abcd"));
    assert!(!contains("abc", "ac"));
    assert!(!contains("abc", "B"));
}

#[test]
fn contains_works_on_characters_of_every_width() {
    assert!(contains("naïve café", "ï"));
    assert!(contains("日本語のテキスト", "語の"));
    assert!(contains("a\u{1F600}b", "\u{1F600}b"));
    assert!(!contains("日本語", "語本"));
    assert!(!contains("é", "e"));
    assert!(!contains("\u{00E9}", "\u{00A9}"));
}

#[test]
fn contains_agrees_with_the_standard_library() {
    let texts = ["", "a", "ab", "aab", "abab", "é", "éa", "日本", "a日b本", "\u{1F600}"];
    for haystack in texts {
        for needle in texts {
            assert_eq!(contains(haystack, needle), haystack.contains(needle));
        }
    }
}

#[test]
fn folding_a_letter_may_depend_on_its_place() {
    // A capital sigma at the end of a word folds to the final form of the
    // small letter, which the folded query, a sigma alone, does not hold.
    assert_eq!(search("Σ", "ΑΣ"), vec!["ΑΣ"]);
    assert_eq!(search_case_insensitive("Σ", "ΑΣ"), Vec::<&str>::new());
    assert_eq!(search_case_insensitive("Σ", "ΣΑ"), vec!["ΣΑ"]);
}
