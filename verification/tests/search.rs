use minigrep::lines::split_first_line;
use minigrep::substring::contains;
use minigrep::{run, search, search_case_insensitive, Config};

/// Every text of up to `longest` characters over `alphabet`.
fn texts(alphabet: &[char], longest: usize) -> Vec<String> {
    let mut all = vec![String::new()];
    let mut last = vec![String::new()];
    for _ in 0..longest {
        let mut next = Vec::new();
        for text in &last {
            for c in alphabet {
                let mut longer = text.clone();
                longer.push(*c);
                next.push(longer);
            }
        }
        all.extend(next.iter().cloned());
        last = next;
    }
    all
}

#[test]
fn case_sensitive() {
    let query = "duct";
    let contents = "\
Rust:
safe, fast, productive.
Pick three.
Duct tape.
        ";

    assert_eq!(vec!["safe, fast, productive."], search(query, contents));
}

#[test]
fn case_insensitive() {
    let query = "rUsT";
    let contents = "\
Rust:
safe, fast, productive.
Pick three.
Trust me.";

    assert_eq!(
        vec!["Rust:", "Trust me."],
        search_case_insensitive(query, contents)
    );
}

#[test]
fn run_ok() {
    let config = Config {
        query: String::from("arg1"),
        filename: String::from("poem.txt"),
        case_sensitive: true,
    };
    let poem = "\
I'm nobody! Who are you?
Are you nobody, too?
Then there's a pair of us - don't tell!
They'd banish us, you know.

How dreary to be somebody!
How public, like a frog
To tell your name the livelong day
To an admiring bog!
";

    let found = run(config, poem);

    assert!(found.is_empty());
}

#[test]
fn exact_search_is_case_sensitive() {
    let text = "Rust:\nsafe, fast, productive.\nPick three.\nDuct tape.";

    assert_eq!(search("duct", text), vec!["safe, fast, productive."]);
    assert_eq!(search("Duct", text), vec!["Duct tape."]);
}

#[test]
fn insensitive_search_ignores_case() {
    let text = "Rust:\nsafe, fast, productive.\nPick three.\nTrust me.";

    assert_eq!(
        search_case_insensitive("rUsT", text),
        vec!["Rust:", "Trust me."]
    );
}

#[test]
fn insensitive_search_returns_lines_as_they_stand() {
    let text = "HELLO World\nhello world\nHeLLo\nbye";

    assert_eq!(
        search_case_insensitive("hello", text),
        vec!["HELLO World", "hello world", "HeLLo"]
    );
    assert_eq!(
        search_case_insensitive("HELLO", text),
        vec!["HELLO World", "hello world", "HeLLo"]
    );
}

#[test]
fn insensitive_search_folds_beyond_ascii() {
    let text = "ÉCOLE\nécole\nEcole\nÄRGER";

    assert_eq!(search_case_insensitive("école", text), vec!["ÉCOLE", "école"]);
    assert_eq!(search_case_insensitive("Ärger", text), vec!["ÄRGER"]);
    assert_eq!(search("école", text), vec!["école"]);
}

#[test]
fn empty_query_returns_every_line() {
    let text = "one\ntwo\n\nfour\n";

    assert_eq!(search("", text), vec!["one", "two", "", "four"]);
    assert_eq!(
        search_case_insensitive("", text),
        vec!["one", "two", "", "four"]
    );
}

#[test]
fn empty_text_has_no_lines() {
    assert!(search("", "").is_empty());
    assert!(search("a", "").is_empty());
    assert!(search_case_insensitive("", "").is_empty());
    assert!(search_case_insensitive("a", "").is_empty());
}

#[test]
fn no_match_is_an_empty_result() {
    let text = "one\ntwo\nthree";

    assert!(search("four", text).is_empty());
    assert!(search_case_insensitive("FOUR", text).is_empty());
}

#[test]
fn final_line_without_break_is_a_line() {
    assert_eq!(search("", "one\ntwo"), vec!["one", "two"]);
    assert_eq!(search("two", "one\ntwo"), vec!["two"]);
}

#[test]
fn final_break_adds_no_line() {
    assert_eq!(search("", "one\ntwo\n"), vec!["one", "two"]);
    assert_eq!(search("", "one\ntwo\r\n"), vec!["one", "two"]);
    assert_eq!(search("", "\n"), vec![""]);
    assert_eq!(search("", "\n\n"), vec!["", ""]);
}

#[test]
fn carriage_return_before_line_feed_ends_the_line_with_it() {
    assert_eq!(search("", "one\r\ntwo\r\nthree"), vec!["one", "two", "three"]);
    assert!(search("\r", "one\r\ntwo\r\n").is_empty());
}

#[test]
fn carriage_return_elsewhere_is_part_of_the_line() {
    assert_eq!(search("", "one\rtwo\nthree\r"), vec!["one\rtwo", "three\r"]);
    assert_eq!(search("", "one\r\r\ntwo"), vec!["one\r", "two"]);
    assert_eq!(search("\r", "one\rtwo\nthree\nfour\r"), vec!["one\rtwo", "four\r"]);
}

#[test]
fn lines_that_occur_twice_are_reported_twice() {
    let text = "same\nother\nsame\nsame";

    assert_eq!(search("same", text), vec!["same", "same", "same"]);
    assert_eq!(search_case_insensitive("SAME", text), vec!["same", "same", "same"]);
}

#[test]
fn query_is_not_matched_across_lines() {
    let text = "ab\ncd";

    assert!(search("b\nc", text).is_empty());
    assert!(search("bc", text).is_empty());
    assert!(search("\n", text).is_empty());
    assert!(search_case_insensitive("B\nC", text).is_empty());
}

#[test]
fn query_longer_than_line_does_not_match() {
    assert!(search("abcd", "abc\nbcd").is_empty());
    assert_eq!(search("abc", "abc\nbcd"), vec!["abc"]);
}

#[test]
fn query_is_found_at_start_middle_and_end() {
    let text = "needle in front\nin the needle middle\nat the end needle\nnone";

    assert_eq!(
        search("needle", text),
        vec!["needle in front", "in the needle middle", "at the end needle"]
    );
}

#[test]
fn characters_of_several_bytes_are_compared_whole() {
    let text = "caf\u{e9}\ncafe\n\u{65e5}\u{672c}\u{8a9e}\n\u{1f980} crab";

    assert_eq!(search("\u{e9}", text), vec!["caf\u{e9}"]);
    assert_eq!(search("\u{672c}", text), vec!["\u{65e5}\u{672c}\u{8a9e}"]);
    assert_eq!(search("\u{1f980}", text), vec!["\u{1f980} crab"]);
    assert!(search("\u{e8}", text).is_empty());
    assert!(search("\u{1f981}", text).is_empty());
}

#[test]
fn results_are_slices_of_the_text() {
    let text = String::from("zero\none\ntwo one\nthree");
    let first = text.as_ptr() as usize;
    let found = search("one", &text);

    assert_eq!(found, vec!["one", "two one"]);
    assert_eq!(found[0].as_ptr() as usize, first + 5);
    assert_eq!(found[1].as_ptr() as usize, first + 9);

    let found = search_case_insensitive("ONE", &text);

    assert_eq!(found, vec!["one", "two one"]);
    assert_eq!(found[0].as_ptr() as usize, first + 5);
    assert_eq!(found[1].as_ptr() as usize, first + 9);
}

#[test]
fn exact_search_agrees_with_the_standard_library() {
    let alphabet = ['a', 'b', '\n', '\r', '\u{e9}'];
    let queries = ["", "a", "ab", "ba", "\u{e9}", "a\u{e9}", "\r", "\n", "a\r", "aa"];
    for text in texts(&alphabet, 5) {
        for query in queries {
            let expected: Vec<&str> = text.lines().filter(|line| line.contains(query)).collect();
            assert_eq!(search(query, &text), expected, "{:?} in {:?}", query, text);
        }
    }
}

#[test]
fn insensitive_search_agrees_with_the_standard_library() {
    let alphabet = ['a', 'A', '\n', '\r', '\u{c9}', '\u{e9}'];
    let queries = ["", "a", "A", "aA", "\u{e9}", "\u{c9}a", "\r", "\n", "A\r"];
    for text in texts(&alphabet, 4) {
        for query in queries {
            let folded = query.to_lowercase();
            let expected: Vec<&str> = text
                .lines()
                .filter(|line| line.to_lowercase().contains(&folded))
                .collect();
            assert_eq!(
                search_case_insensitive(query, &text),
                expected,
                "{:?} in {:?}",
                query,
                text
            );
        }
    }
}

#[test]
fn exact_result_is_an_ordered_selection_of_the_lines() {
    let text = "b1\na2\nb3\nb4\na5\nb6";
    let lines: Vec<&str> = text.lines().collect();
    let found = search("b", text);
    let mut next: usize = 0;
    for line in &found {
        assert!(line.contains("b"));
        while lines[next] != *line {
            next += 1;
        }
        next += 1;
    }

    assert_eq!(found, vec!["b1", "b3", "b4", "b6"]);
}

#[test]
fn insensitive_result_holds_the_exact_result_on_plain_letters() {
    let text = "Rust\nrust\nRUST\ntrust\nTRUSTY\nrest";

    let exact = search("rust", text);
    let insensitive = search_case_insensitive("rust", text);

    assert_eq!(exact, vec!["rust", "trust"]);
    assert_eq!(insensitive, vec!["Rust", "rust", "RUST", "trust", "TRUSTY"]);
    for line in &exact {
        assert!(insensitive.contains(line));
    }
    for line in &insensitive {
        assert!(line.to_lowercase().contains(&"rust".to_lowercase()));
    }
}

#[test]
fn folding_a_final_sigma_can_lose_a_match() {
    let text = "\u{391}\u{3a3}";

    assert_eq!(search("\u{3a3}", text), vec![text]);
    assert!(search_case_insensitive("\u{3a3}", text).is_empty());
}

#[test]
fn run_follows_the_configured_policy() {
    let text = "Rust:\nsafe, fast, productive.\nPick three.\nTrust me.";
    let sensitive = Config {
        query: String::from("rUsT"),
        filename: String::from("poem.txt"),
        case_sensitive: true,
    };
    let insensitive = Config {
        query: String::from("rUsT"),
        filename: String::from("poem.txt"),
        case_sensitive: false,
    };

    assert!(run(sensitive, text).is_empty());
    assert_eq!(run(insensitive, text), vec!["Rust:", "Trust me."]);
}

#[test]
fn run_reports_matches_in_order() {
    let config = Config {
        query: String::from("o"),
        filename: String::from("numbers.txt"),
        case_sensitive: true,
    };

    assert_eq!(run(config, "one\ntwo\nthree\nfour\n"), vec!["one", "two", "four"]);
}

#[test]
fn contains_finds_a_part_anywhere() {
    assert!(contains("haystack", ""));
    assert!(contains("", ""));
    assert!(!contains("", "a"));
    assert!(contains("haystack", "hay"));
    assert!(contains("haystack", "yst"));
    assert!(contains("haystack", "stack"));
    assert!(contains("haystack", "haystack"));
    assert!(!contains("haystack", "haystacks"));
    assert!(!contains("haystack", "Hay"));
    assert!(contains("aab", "ab"));
    assert!(!contains("caf\u{e9}", "\u{e8}"));
    assert!(contains("caf\u{e9}s", "\u{e9}s"));
}

#[test]
fn split_first_line_parts() {
    assert_eq!(split_first_line(""), ("", ""));
    assert_eq!(split_first_line("one"), ("one", ""));
    assert_eq!(split_first_line("one\n"), ("one", ""));
    assert_eq!(split_first_line("one\ntwo\nthree"), ("one", "two\nthree"));
    assert_eq!(split_first_line("one\r\ntwo"), ("one", "two"));
    assert_eq!(split_first_line("one\r"), ("one\r", ""));
    assert_eq!(split_first_line("one\r\r\ntwo"), ("one\r", "two"));
    assert_eq!(split_first_line("\ntwo"), ("", "two"));
    assert_eq!(split_first_line("\r\ntwo"), ("", "two"));
    assert_eq!(split_first_line("\u{e9}t\u{e9}\n\u{1f980}"), ("\u{e9}t\u{e9}", "\u{1f980}"));
}
