use minigrep::Config;

fn args(list: &[&str]) -> std::vec::IntoIter<String> {
    let owned: Vec<String> = list.iter().map(|arg| arg.to_string()).collect();
    owned.into_iter()
}

#[test]
fn build_takes_query_and_file_path() {
    let config = Config::build(args(&["minigrep", "needle", "haystack.txt"]), false).unwrap();
    assert_eq!("needle", config.query);
    assert_eq!("haystack.txt", config.file_path);
    assert!(!config.ignore_case);
}

#[test]
fn build_hands_the_case_flag_on() {
    let config = Config::build(args(&["minigrep", "needle", "haystack.txt"]), true).unwrap();
    assert!(config.ignore_case);
    let config = Config::build(args(&["minigrep", "needle", "haystack.txt"]), false).unwrap();
    assert!(!config.ignore_case);
}

#[test]
fn build_without_a_query_fails() {
    let built = Config::build(args(&["minigrep"]), false);
    assert_eq!(Some("Didn't get a query string"), built.err());
    let built = Config::build(args(&[]), true);
    assert_eq!(Some("Didn't get a query string"), built.err());
}

#[test]
fn build_without_a_file_path_fails() {
    let built = Config::build(args(&["minigrep", "needle"]), false);
    assert_eq!(Some("Didn't get a file path"), built.err());
}

#[test]
fn build_disregards_further_arguments() {
    let config =
        Config::build(args(&["minigrep", "needle", "haystack.txt", "more", "still more"]), false)
            .unwrap();
    assert_eq!("needle", config.query);
    assert_eq!("haystack.txt", config.file_path);
}

#[test]
fn build_disregards_the_program_name() {
    let config = Config::build(args(&["", "", ""]), false).unwrap();
    assert_eq!("", config.query);
    assert_eq!("", config.file_path);
}
