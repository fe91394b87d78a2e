use colored::Colorize;
use minigrep::highlight::{mark_found, marks_fit, splice};
use minigrep::{highlight_matches, try_highlight_matches};

const RED: &str = "\u{1b}[31m";
const RESET: &str = "\u{1b}[0m";

fn colour_on() {
    colored::control::set_override(true);
}

fn red(text: &str) -> String {
    format!("{}{}{}", RED, text, RESET)
}

#[test]
fn highlight_marks_the_match() {
    colour_on();
    let expected = format!("hello {}", "world".red());
    assert_eq!(expected, highlight_matches("hello world", "world", &false));
    assert_eq!("hello \u{1b}[31mworld\u{1b}[0m", highlight_matches("hello world", "world", &false));
}

#[test]
fn highlight_without_case_shows_the_match_in_lower_case() {
    colour_on();
    let expected = format!("Hello {}", "world".red());
    assert_eq!(expected, highlight_matches("Hello WORLD", "world", &true));
    assert_eq!("Hello \u{1b}[31mworld\u{1b}[0m", highlight_matches("Hello WORLD", "world", &true));
    assert_eq!(
        "Hello \u{1b}[31mworld\u{1b}[0m",
        highlight_matches("Hello WORLD", "WoRlD", &true)
    );
}

#[test]
fn highlight_with_case_passes_over_other_case() {
    colour_on();
    assert_eq!("Hello WORLD", highlight_matches("Hello WORLD", "world", &false));
}

#[test]
fn highlight_marks_every_match() {
    colour_on();
    let mark = red("an");
    assert_eq!(
        format!("b{}{}a {}d", mark, mark, mark),
        highlight_matches("banana and", "an", &false)
    );
    assert_eq!(
        format!("B{}{}A {}d", mark, mark, mark),
        highlight_matches("BANANA And", "aN", &true)
    );
}

#[test]
fn highlight_marks_matches_that_do_not_overlap() {
    colour_on();
    let mark = red("aa");
    assert_eq!(format!("{}{}a", mark, mark), highlight_matches("aaaaa", "aa", &false));
    let mark = red("aba");
    assert_eq!(format!("{}b{}", mark, mark), highlight_matches("abababa", "aba", &false));
}

#[test]
fn highlight_keeps_what_does_not_match() {
    colour_on();
    assert_eq!("no match here", highlight_matches("no match here", "xyz", &false));
    assert_eq!("no match here", highlight_matches("no match here", "xyz", &true));
    assert_eq!("", highlight_matches("", "xyz", &false));
    assert_eq!(red("all"), highlight_matches("all", "all", &false));
}

#[test]
fn highlight_with_case_is_replace() {
    colour_on();
    let lines = ["", "a", "banana", "aaaa", "\u{e9}t\u{e9} \u{e9}", "x\u{1b}[0my", "[31m"];
    let queries = ["", "a", "an", "aa", "\u{e9}", "\u{1b}[0m", "[", "m", "nothing"];
    for line in lines {
        for query in queries {
            let expected = line.replace(query, &query.red().to_string());
            assert_eq!(expected, highlight_matches(line, query, &false), "{:?} in {:?}", query, line);
        }
    }
}

#[test]
fn highlight_of_the_empty_query_marks_every_gap() {
    colour_on();
    let mark = red("");
    assert_eq!(
        format!("{}a{}b{}", mark, mark, mark),
        highlight_matches("ab", "", &false)
    );
    assert_eq!(
        format!("{}A{}\u{e9}{}", mark, mark, mark),
        highlight_matches("A\u{e9}", "", &true)
    );
    assert_eq!(mark, highlight_matches("", "", &false));
}

#[test]
fn highlight_turns_red_on_again_after_a_reset_in_the_query() {
    colour_on();
    let query = "a\u{1b}[0mb";
    let expected = "<\u{1b}[31ma\u{1b}[0m\u{1b}[31mb\u{1b}[0m>";
    assert_eq!(expected, highlight_matches("<a\u{1b}[0mb>", query, &false));
    assert_eq!(format!("<{}>", query.red()), highlight_matches("<a\u{1b}[0mb>", query, &false));
}

#[test]
fn highlight_without_case_goes_by_the_offsets_of_the_lowered_line() {
    colour_on();
    // U+0130 takes two bytes and its lower-case form three: the match of "b"
    // is found one byte further on than it stands in the line, and one byte
    // of the line is left out after it.
    assert_eq!(
        Some(format!("\u{130}b{}", red("b"))),
        try_highlight_matches("\u{130}b ", "b", &true)
    );
    assert_eq!(
        format!("\u{130}b{}", red("b")),
        highlight_matches("\u{130}b ", "b", &true)
    );
}

#[test]
fn highlight_without_case_skips_the_length_of_the_query_as_given() {
    colour_on();
    // The query takes three bytes as given and one in lower case: the two
    // bytes after the match are left out with it.
    assert_eq!(
        Some(format!("{}c", red("k"))),
        try_highlight_matches("kabc", "\u{212a}", &true)
    );
    // The query takes two bytes as given and three in lower case: the line
    // would be taken up again inside a character.
    assert_eq!(None, try_highlight_matches("ai\u{307}cd", "\u{130}", &true));
}

#[test]
fn try_highlight_declines_where_the_line_cannot_be_cut() {
    colour_on();
    // The last part of the line would begin after its end.
    assert_eq!(None, try_highlight_matches("\u{130}ab", "b", &true));
    // U+212A takes three bytes and its lower-case form one: the offsets of
    // the lowered line fall inside the character.
    assert_eq!(None, try_highlight_matches("\u{212a}ab", "b", &true));
    assert_eq!(None, try_highlight_matches("\u{212a}ab", "k", &true));
    // The query takes three bytes as given and one in lower case: the part
    // after the first match would begin after the second match.
    assert_eq!(None, try_highlight_matches("kk", "\u{212a}", &true));
}

#[test]
fn try_highlight_agrees_with_highlight() {
    colour_on();
    for ignore_case in [false, true] {
        assert_eq!(
            Some(highlight_matches("Hello WORLD, world", "world", &ignore_case)),
            try_highlight_matches("Hello WORLD, world", "world", &ignore_case)
        );
        assert_eq!(
            Some(highlight_matches("\u{212a}ab", "x", &ignore_case)),
            try_highlight_matches("\u{212a}ab", "x", &ignore_case)
        );
    }
    assert_eq!(
        Some(highlight_matches("\u{212a}ab", "b", &false)),
        try_highlight_matches("\u{212a}ab", "b", &false)
    );
}

#[test]
fn mark_found_puts_the_mark_at_each_match() {
    assert_eq!("a[x]c[x]", mark_found("abcb", "abcb", "b", 1, "[x]"));
    assert_eq!("He[ll]o", mark_found("HeLLo", "hello", "ll", 2, "[ll]"));
    assert_eq!("abc", mark_found("abc", "abc", "d", 1, "[x]"));
    assert_eq!("-a-b-", mark_found("ab", "ab", "", 0, "-"));
}

#[test]
fn mark_found_leaves_out_as_many_bytes_as_told() {
    assert_eq!("a[x]bc[x]b", mark_found("abcb", "abcb", "b", 0, "[x]"));
    assert_eq!("a[x]", mark_found("abcd", "abcd", "b", 3, "[x]"));
    assert_eq!("[x]d", mark_found("abcd", "xbcd", "x", 3, "[x]"));
}

#[test]
fn splice_cuts_at_the_offsets() {
    assert_eq!("0_23_5", splice("012345", &vec![1, 4], 1, "_"));
    assert_eq!("_", splice("012345", &vec![0], 6, "_"));
    assert_eq!("012345", splice("012345", &vec![], 2, "_"));
    assert_eq!("012345_", splice("012345", &vec![6], 0, "_"));
}

#[test]
fn marks_fit_tells_where_a_line_can_be_cut() {
    assert!(marks_fit("012345", &vec![1, 4], 1));
    assert!(marks_fit("012345", &vec![1, 4], 2));
    assert!(marks_fit("012345", &vec![0, 3], 3));
    assert!(marks_fit("012345", &vec![], 9));
    assert!(marks_fit("", &vec![0], 0));
    // a part would end before it begins
    assert!(!marks_fit("012345", &vec![1, 2], 2));
    // a part would begin after the end
    assert!(!marks_fit("012345", &vec![5], 2));
    assert!(!marks_fit("012345", &vec![7], 0));
    assert!(!marks_fit("012345", &vec![3], usize::MAX));
    // a part would begin or end inside a character
    assert!(!marks_fit("\u{e9}a", &vec![1], 1));
    assert!(!marks_fit("a\u{e9}", &vec![0], 2));
    assert!(marks_fit("a\u{e9}", &vec![1], 2));
}

fn without_escapes(text: &str) -> String {
    let mut shown = String::new();
    let mut in_escape = false;
    for c in text.chars() {
        if in_escape {
            in_escape = c != 'm';
        } else if c == '\u{1b}' {
            in_escape = true;
        } else {
            shown.push(c);
        }
    }
    shown
}

#[test]
fn highlight_with_case_adds_nothing_but_escapes() {
    colour_on();
    let lines = ["", "hello world", "banana", "aaaa", "\u{e9}t\u{e9} \u{e9}", "[31m [0m", "mmm"];
    let queries = ["world", "an", "aa", "a", "\u{e9}", "m", "[", "[31m", "nothing", "\u{1b}[0m", ""];
    for line in lines {
        for query in queries {
            let out = highlight_matches(line, query, &false);
            assert_eq!(line, without_escapes(&out), "{:?} in {:?}", query, line);
        }
    }
}

#[test]
fn highlight_with_case_grows_by_the_escapes_of_each_match() {
    colour_on();
    let out = highlight_matches("banana", "an", &false);
    assert_eq!("banana".len() + 2 * (RED.len() + RESET.len()), out.len());
    let out = highlight_matches("banana", "x", &false);
    assert_eq!("banana".len(), out.len());
}
