use minigrep::Config;

fn args(words: &[&str]) -> Vec<String> {
    words.iter().map(|word| word.to_string()).collect()
}

#[test]
fn build_needs_a_query() {
    assert_eq!(
        Some("Didn't get a query string"),
        Config::build(args(&[]), false).err()
    );
    assert_eq!(
        Some("Didn't get a query string"),
        Config::build(args(&["minigrep"]), true).err()
    );
}

#[test]
fn build_takes_query_only() {
    let config = Config::build(args(&["minigrep", "duct"]), false).ok().unwrap();
    assert_eq!("duct", config.query);
    assert_eq!(None, config.file_path);
    assert!(!config.ignore_case);
}

#[test]
fn build_takes_query_and_file() {
    let config = Config::build(args(&["minigrep", "duct", "poem.txt"]), true)
        .ok()
        .unwrap();
    assert_eq!("duct", config.query);
    assert_eq!(Some(String::from("poem.txt")), config.file_path);
    assert!(config.ignore_case);
}

#[test]
fn build_ignores_further_arguments() {
    let config = Config::build(args(&["minigrep", "", "a", "b", "c"]), false)
        .ok()
        .unwrap();
    assert_eq!("", config.query);
    assert_eq!(Some(String::from("a")), config.file_path);
}

#[test]
fn render_line_regards_case() {
    let config = Config {
        query: String::from("rust"),
        file_path: None,
        ignore_case: false,
    };
    assert_eq!(None, config.render_line("Rust:"));
    assert_eq!(
        Some(String::from("T\x1b[31mrust\x1b[0m me.")),
        config.render_line("Trust me.")
    );
}

#[test]
fn render_line_ignores_case() {
    let config = Config {
        query: String::from("rUsT"),
        file_path: None,
        ignore_case: true,
    };
    assert_eq!(
        Some(String::from("\x1b[31mRust\x1b[0m:")),
        config.render_line("Rust:")
    );
    assert_eq!(
        Some(String::from("T\x1b[31mRUST\x1b[0m me, t\x1b[31mrust\x1b[0m.")),
        config.render_line("TRUST me, trust.")
    );
    assert_eq!(None, config.render_line("Pick three."));
}

#[test]
fn render_line_with_empty_query_shows_every_line() {
    let config = Config {
        query: String::new(),
        file_path: None,
        ignore_case: true,
    };
    assert_eq!(Some(String::from("Pick three.")), config.render_line("Pick three."));
    assert_eq!(Some(String::new()), config.render_line(""));
}

#[test]
fn render_line_shows_the_line_as_it_was_read() {
    let config = Config {
        query: String::from("straße"),
        file_path: None,
        ignore_case: true,
    };
    assert_eq!(
        Some(String::from("Große \x1b[31mSTRAẞE\x1b[0m")),
        config.render_line("Große STRAẞE")
    );
}
