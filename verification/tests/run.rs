use minigrep::{run, Config};

fn colour_on() {
    colored::control::set_override(true);
}

fn config(query: &str, ignore_case: bool) -> Config {
    Config { query: String::from(query), file_path: String::from("poem.txt"), ignore_case }
}

const POEM: &str = "\
I'm nobody! Who are you?
Are you nobody, too?
Then there's a pair of us - don't tell!
They'd banish us, you know.

How dreary to be somebody!
How public, like a frog
To tell your name the livelong day
To an admiring bog!
";

#[test]
fn run_shows_the_matching_lines_highlighted() {
    colour_on();
    let shown = run(&config("to", false), POEM).unwrap();
    assert_eq!(
        vec![
            "Are you nobody, \u{1b}[31mto\u{1b}[0mo?",
            "How dreary \u{1b}[31mto\u{1b}[0m be somebody!",
        ],
        shown
    );
}

#[test]
fn run_without_case_shows_more() {
    colour_on();
    let shown = run(&config("to", true), POEM).unwrap();
    assert_eq!(
        vec![
            "Are you nobody, \u{1b}[31mto\u{1b}[0mo?",
            "How dreary \u{1b}[31mto\u{1b}[0m be somebody!",
            "\u{1b}[31mto\u{1b}[0m tell your name the livelong day",
            "\u{1b}[31mto\u{1b}[0m an admiring bog!",
        ],
        shown
    );
}

#[test]
fn run_shows_nothing_where_nothing_matches() {
    colour_on();
    assert_eq!(Some(Vec::<String>::new()), run(&config("monomorphization", false), POEM));
    assert_eq!(Some(Vec::<String>::new()), run(&config("x", true), ""));
}

#[test]
fn run_declines_where_a_line_cannot_be_highlighted() {
    colour_on();
    assert_eq!(None, run(&config("b", true), "fine b\n\u{212a}ab\n"));
    assert!(run(&config("b", false), "fine b\n\u{212a}ab\n").is_some());
}
