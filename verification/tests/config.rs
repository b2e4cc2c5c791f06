use minigrep::{run, Config};

fn args(words: &[&str]) -> Vec<String> {
    words.iter().map(|w| w.to_string()).collect()
}

#[test]
fn build_takes_query_and_path_from_the_command_line() {
    let config = Config::build(&args(&["minigrep", "duct", "poem.txt"]), None).unwrap();
    assert_eq!(config.query(), "duct");
    assert_eq!(config.file_path(), "poem.txt");
    assert!(!config.ignore_case());
}

#[test]
fn build_fails_without_query_and_path() {
    assert_eq!(
        Config::build(&args(&[]), None).err(),
        Some("Not enough arguments")
    );
    assert_eq!(
        Config::build(&args(&["minigrep"]), None).err(),
        Some("Not enough arguments")
    );
    assert_eq!(
        Config::build(&args(&["minigrep", "duct"]), Some("1")).err(),
        Some("Not enough arguments")
    );
    assert_eq!(
        Config::build(&args(&["minigrep", "-i"]), None).err(),
        Some("Not enough arguments")
    );
}

#[test]
fn flag_switches_folding_on_when_the_environment_is_silent() {
    let short = Config::build(&args(&["minigrep", "duct", "poem.txt", "-i"]), None).unwrap();
    assert!(short.ignore_case());
    let long =
        Config::build(&args(&["minigrep", "duct", "poem.txt", "--ignore-case"]), None).unwrap();
    assert!(long.ignore_case());
    let other = Config::build(&args(&["minigrep", "duct", "poem.txt", "-I"]), None).unwrap();
    assert!(!other.ignore_case());
    let longer = Config::build(&args(&["minigrep", "duct", "poem.txt", "-ii"]), None).unwrap();
    assert!(!longer.ignore_case());
}

#[test]
fn flag_counts_wherever_it_stands() {
    let as_query = Config::build(&args(&["minigrep", "-i", "poem.txt"]), None).unwrap();
    assert!(as_query.ignore_case());
    assert_eq!(as_query.query(), "-i");
    let as_path = Config::build(&args(&["minigrep", "duct", "--ignore-case"]), None).unwrap();
    assert!(as_path.ignore_case());
    assert_eq!(as_path.file_path(), "--ignore-case");
    let as_name = Config::build(&args(&["-i", "duct", "poem.txt"]), None).unwrap();
    assert!(as_name.ignore_case());
    let late = Config::build(&args(&["minigrep", "duct", "poem.txt", "x", "y", "-i"]), None)
        .unwrap();
    assert!(late.ignore_case());
}

#[test]
fn environment_decides_alone_when_it_has_a_setting() {
    let on = Config::build(&args(&["minigrep", "duct", "poem.txt"]), Some("1")).unwrap();
    assert!(on.ignore_case());
    let off = Config::build(&args(&["minigrep", "duct", "poem.txt", "-i"]), Some("0")).unwrap();
    assert!(!off.ignore_case());
    let empty = Config::build(&args(&["minigrep", "duct", "poem.txt", "-i"]), Some("")).unwrap();
    assert!(!empty.ignore_case());
    let word =
        Config::build(&args(&["minigrep", "duct", "poem.txt", "--ignore-case"]), Some("true"))
            .unwrap();
    assert!(!word.ignore_case());
    let padded = Config::build(&args(&["minigrep", "duct", "poem.txt"]), Some("1 ")).unwrap();
    assert!(!padded.ignore_case());
    let both = Config::build(&args(&["minigrep", "duct", "poem.txt", "-i"]), Some("1")).unwrap();
    assert!(both.ignore_case());
}

#[test]
fn run_searches_as_the_config_asks() {
    let contents = "Rust:\nsafe, fast, productive.\nPick three.\nTrust me.";
    let plain = Config::build(&args(&["minigrep", "rUsT", "poem.txt"]), None).unwrap();
    assert_eq!(run(&plain, contents), Vec::<&str>::new());
    let folded = Config::build(&args(&["minigrep", "rUsT", "poem.txt"]), Some("1")).unwrap();
    assert_eq!(run(&folded, contents), vec!["Rust:", "Trust me."]);
    let exact = Config::build(&args(&["minigrep", "duct", "poem.txt"]), None).unwrap();
    assert_eq!(run(&exact, contents), vec!["safe, fast, productive."]);
}
