use minigrep::lines::lines;
use minigrep::{search, search_case_insensitive};

#[test]
fn one_result() {
    let query = "duct";
    let contents = "\
Rust:
safe, fast, productive.
Pick three.";

    assert_eq!(vec!["safe, fast, productive."], search(query, contents));
}

#[test]
fn case_insensitive() {
    let query = "rUsT";
    let contents = "\
Rust:
safe, fast, productive.
Pick three.
Trust me.";

    assert_eq!(
        vec!["Rust:", "Trust me."],
        search_case_insensitive(query, contents)
    );
}

#[test]
fn search_regards_case() {
    let contents = "Rust:\nsafe, fast, productive.\nPick three.\nTrust me.";
    assert_eq!(vec!["Trust me."], search("rust", contents));
    assert_eq!(vec!["Rust:"], search("Rust", contents));
}

#[test]
fn search_without_match_is_empty() {
    let contents = "Rust:\nsafe, fast, productive.\nPick three.";
    assert!(search("monomorphization", contents).is_empty());
    assert!(search_case_insensitive("MONOMORPHIZATION", contents).is_empty());
}

#[test]
fn search_query_longer_than_every_line() {
    assert!(search("abcdef", "abc\ndef\nabcde").is_empty());
}

#[test]
fn search_in_empty_contents() {
    assert!(search("a", "").is_empty());
    assert!(search("", "").is_empty());
    assert!(search_case_insensitive("", "").is_empty());
}

#[test]
fn empty_query_selects_every_line() {
    let contents = "one\n\ntwo\nthree\n";
    assert_eq!(vec!["one", "", "two", "three"], search("", contents));
    assert_eq!(
        vec!["one", "", "two", "three"],
        search_case_insensitive("", contents)
    );
}

#[test]
fn search_keeps_order_and_repeats() {
    let contents = "b a\na\nc\na b\na";
    assert_eq!(vec!["b a", "a", "a b", "a"], search("a", contents));
}

#[test]
fn selected_lines_contain_the_query_and_the_others_do_not() {
    let query = "st";
    let contents = "Rust:\nsafe, fast, productive.\nPick three.\nTrust me.\nlast";
    let found = search(query, contents);
    assert_eq!(
        vec!["Rust:", "safe, fast, productive.", "Trust me.", "last"],
        found
    );
    for line in lines(contents) {
        assert_eq!(found.contains(&line), line.contains(query));
    }
}

#[test]
fn folded_search_selects_by_folded_forms() {
    let query = "ÄR";
    let contents = "Bär\nbÄr\nBar\nÄRGER\nnichts";
    let found = search_case_insensitive(query, contents);
    assert_eq!(vec!["Bär", "bÄr", "ÄRGER"], found);
    for line in lines(contents) {
        assert_eq!(
            found.contains(&line),
            line.to_lowercase().contains(&query.to_lowercase())
        );
    }
}

#[test]
fn folded_search_returns_lines_unfolded() {
    let found = search_case_insensitive("to", "Are you nobody, TOO?\nHow dreary");
    assert_eq!(vec!["Are you nobody, TOO?"], found);
}
