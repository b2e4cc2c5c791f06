use minigrep::{search, search_case_insensitive};

#[test]
fn one_result() {
    let query = "duct";
    let contents = "\
Rust:
safe, fast, productive.
Pick three.";

    assert_eq!(vec!["safe, fast, productive."], search(query, contents));
}

#[test]
fn case_insensitive() {
    let query = "rUsT";
    let contents = "\
Rust:
safe, fast, productive.
Pick three.
Trust me.";

    assert_eq!(
        vec!["Rust:", "Trust me."],
        search_case_insensitive(query, contents)
    );
}

#[test]
fn search_is_case_sensitive() {
    let contents = "Rust:\nsafe, fast, productive.\nPick three.\nTrust me.";
    assert_eq!(search("rUsT", contents), Vec::<&str>::new());
    assert_eq!(search("rust", contents), vec!["Trust me."]);
    assert_eq!(search("Rust", contents), vec!["Rust:"]);
}

#[test]
fn every_returned_line_holds_the_query() {
    let contents = "one\ntwo\nthree\nfour\ntwenty-one\n";
    let found = search("on", contents);
    assert_eq!(found, vec!["one", "twenty-one"]);
    for line in found {
        assert!(line.contains("on"));
        assert!(contents.lines().any(|l| l == line));
    }
}

#[test]
fn empty_query_returns_every_line() {
    let contents = "alpha\n\nbeta\r\ngamma";
    assert_eq!(search("", contents), vec!["alpha", "", "beta", "gamma"]);
    assert_eq!(
        search_case_insensitive("", contents),
        vec!["alpha", "", "beta", "gamma"]
    );
}

#[test]
fn empty_text_has_no_matches() {
    assert_eq!(search("duct", ""), Vec::<&str>::new());
    assert_eq!(search("", ""), Vec::<&str>::new());
    assert_eq!(search_case_insensitive("duct", ""), Vec::<&str>::new());
    assert_eq!(search_case_insensitive("", ""), Vec::<&str>::new());
}

#[test]
fn query_longer_than_every_line_matches_nothing() {
    let contents = "ab\ncd\nef";
    assert_eq!(search("abcd", contents), Vec::<&str>::new());
    assert_eq!(search_case_insensitive("ABCD", contents), Vec::<&str>::new());
}

#[test]
fn query_does_not_match_across_lines() {
    assert_eq!(search("ab\ncd", "ab\ncd"), Vec::<&str>::new());
    assert_eq!(search("b\nc", "ab\ncd"), Vec::<&str>::new());
    assert_eq!(search("\n", "ab\ncd"), Vec::<&str>::new());
}

#[test]
fn matches_come_in_text_order_with_repeats() {
    let contents = "b1\na\nb2\nb1\n";
    assert_eq!(search("b", contents), vec!["b1", "b2", "b1"]);
    assert_eq!(search_case_insensitive("B", contents), vec!["b1", "b2", "b1"]);
}

#[test]
fn same_inputs_give_same_results() {
    let contents = "Rust:\nsafe, fast, productive.\nPick three.\nTrust me.";
    assert_eq!(search("t", contents), search("t", contents));
    assert_eq!(
        search_case_insensitive("T", contents),
        search_case_insensitive("T", contents)
    );
    assert_eq!(
        search("t", contents),
        vec!["Rust:", "safe, fast, productive.", "Pick three.", "Trust me."]
    );
}

#[test]
fn folded_search_keeps_the_spelling_of_the_text() {
    let contents = "RUST is loud\nrust is quiet\nRuSt is odd\nno match";
    assert_eq!(
        search_case_insensitive("rust", contents),
        vec!["RUST is loud", "rust is quiet", "RuSt is odd"]
    );
}

#[test]
fn folded_search_covers_plain_search_on_ascii() {
    let contents = "Rust:\nsafe, fast, productive.\nPick three.\nTrust me.";
    for query in ["Rust", "rust", "t", "Pick", "three.", ""] {
        let folded = search_case_insensitive(query, contents);
        for line in search(query, contents) {
            assert!(folded.contains(&line));
        }
    }
}

#[test]
fn final_sigma_folds_apart_from_a_lone_sigma() {
    // A capital sigma at the end of a word folds to the final form, a lone
    // one to the medial form: the folded line no longer holds the folded query.
    let query = "\u{3a3}";
    let contents = "\u{391}\u{3a3}";
    assert_eq!(search(query, contents), vec!["\u{391}\u{3a3}"]);
    assert_eq!(search_case_insensitive(query, contents), Vec::<&str>::new());
}

#[test]
fn folding_can_lengthen_a_line() {
    // The dotted capital I folds to two characters, so a line of one
    // character can hold a query of two once both are folded.
    let query = "i\u{307}";
    let contents = "\u{130}";
    assert_eq!(search(query, contents), Vec::<&str>::new());
    assert_eq!(search_case_insensitive(query, contents), vec!["\u{130}"]);
}

#[test]
fn folded_search_handles_letters_outside_ascii() {
    let contents = "STRASSE\n\u{c4}pfel\n\u{e4}pfel\nApfel";
    assert_eq!(
        search_case_insensitive("\u{c4}PFEL", contents),
        vec!["\u{c4}pfel", "\u{e4}pfel"]
    );
    assert_eq!(search("\u{e4}", contents), vec!["\u{e4}pfel"]);
}

#[test]
fn results_are_slices_of_the_text() {
    let contents = String::from("first\nsecond\nthird");
    let found = search("second", &contents);
    assert_eq!(found.len(), 1);
    let start = contents.as_ptr() as usize;
    let line = found[0].as_ptr() as usize;
    assert_eq!(line - start, 6);
    assert_eq!(found[0].len(), 6);
}

#[test]
fn carriage_return_before_line_feed_is_not_part_of_the_line() {
    let contents = "one\r\ntwo\r\n";
    assert_eq!(search("o", contents), vec!["one", "two"]);
    assert_eq!(search("\r", contents), Vec::<&str>::new());
    assert_eq!(search("\r", "one\rtwo\nthree\r"), vec!["one\rtwo", "three\r"]);
}
