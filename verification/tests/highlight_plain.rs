use colored::Colorize;
use minigrep::{highlight_matches, try_highlight_matches};

fn colour_off() {
    colored::control::set_override(false);
}

#[test]
fn without_colour_highlight_with_case_gives_the_line() {
    colour_off();
    let lines = ["", "hello world", "banana", "aaaa", "\u{e9}t\u{e9} \u{e9}", "x\u{1b}[0my"];
    let queries = ["", "world", "an", "aa", "\u{e9}", "\u{1b}[0m", "nothing"];
    for line in lines {
        for query in queries {
            assert_eq!(line, highlight_matches(line, query, &false), "{:?} in {:?}", query, line);
        }
    }
}

#[test]
fn without_colour_the_mark_is_the_bare_match() {
    colour_off();
    assert_eq!("world", "world".red().to_string());
    assert_eq!("Hello world", highlight_matches("Hello WORLD", "world", &true));
    assert_eq!("Hello world", highlight_matches("Hello WORLD", "WORLD", &true));
    assert_eq!(
        Some(String::from("\u{130}bb")),
        try_highlight_matches("\u{130}b ", "b", &true)
    );
}

#[test]
fn without_colour_the_marks_agree_with_the_crate() {
    colour_off();
    assert_eq!(
        format!("hello {}", "world".red()),
        highlight_matches("hello world", "world", &false)
    );
    assert_eq!(
        format!("Hello {}", "world".red()),
        highlight_matches("Hello WORLD", "world", &true)
    );
}
