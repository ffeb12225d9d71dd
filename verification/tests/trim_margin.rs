use galvanic_assert::matchers::eq;
use galvanic_assert::matchers::variant::maybe_some;
use galvanic_assert::MatchResult;
use trim_margin::MarginTrimmable;

#[test]
fn should_not_modify_empty_string() {
    let trimmed = "".trim_margin();
    let expected = maybe_some(eq(String::new()));
    assert!(matches!(expected.check(&trimmed), MatchResult::Matched { .. }));
    assert_eq!(trimmed, Some(String::new()));
}

#[test]
fn should_not_modify_single_line_string() {
    let trimmed = "hello, world".trim_margin();
    let expected = maybe_some(eq("hello, world".into()));
    assert!(matches!(expected.check(&trimmed), MatchResult::Matched { .. }));
    assert_eq!(trimmed, Some(String::from("hello, world")));
}

#[test]
fn should_trim_margin_of_multiline_string() {
    let txt = "|this
                   |  is a
                   |  multiline string
                   |with margin";
    let trimmed = txt.trim_margin();
    let expected =
        maybe_some(eq(vec!["this", "  is a", "  multiline string", "with margin"].join("\n")));
    assert!(matches!(expected.check(&trimmed), MatchResult::Matched { .. }));
    assert_eq!(
        trimmed,
        Some(String::from("this\n  is a\n  multiline string\nwith margin"))
    );
}

#[test]
fn should_remove_first_and_last_line_if_blank() {
    let txt = "
            |ignore blank
            |surrounding lines
        ";
    let trimmed = txt.trim_margin();
    let expected = maybe_some(eq(vec!["ignore blank", "surrounding lines"].join("\n")));
    assert!(matches!(expected.check(&trimmed), MatchResult::Matched { .. }));
    assert_eq!(trimmed, Some(String::from("ignore blank\nsurrounding lines")));
}

#[test]
fn should_allow_arbitrary_margin_character() {
    let txt = "
            #ignore blank
            #surrounding lines
        ";
    let trimmed = txt.trim_margin_with("#");
    let expected = maybe_some(eq(vec!["ignore blank", "surrounding lines"].join("\n")));
    assert!(matches!(expected.check(&trimmed), MatchResult::Matched { .. }));
    assert_eq!(trimmed, Some(String::from("ignore blank\nsurrounding lines")));
}

#[test]
fn should_fail_on_line_without_margin() {
    assert_eq!("|ok\nnot-prefixed\n|ok2".trim_margin(), None);
    assert_eq!("|ok\nnot-prefixed\n|ok2".trim_margin_with("|"), None);
}

#[test]
fn should_fail_on_first_or_last_line_without_margin() {
    assert_eq!("not-prefixed\n|ok".trim_margin(), None);
    assert_eq!("|ok\nnot-prefixed".trim_margin(), None);
    assert_eq!("#ok\n#ok2".trim_margin(), None);
}

#[test]
fn should_keep_single_line_whatever_the_prefix() {
    assert_eq!("no margin here".trim_margin_with("#"), Some(String::from("no margin here")));
    assert_eq!("  |indented".trim_margin(), Some(String::from("  |indented")));
    assert_eq!("|a".trim_margin(), Some(String::from("|a")));
    assert_eq!("   ".trim_margin_with(">"), Some(String::from("   ")));
    assert_eq!("".trim_margin_with(""), Some(String::new()));
    assert_eq!("tab\tand\rreturn".trim_margin_with("tab"), Some(String::from("tab\tand\rreturn")));
}

#[test]
fn should_give_back_lines_written_with_margin() {
    let lines = vec!["first", "  second", "", "third  ", "|fourth"];
    let text = lines.iter().map(|line| format!("|{}", line)).collect::<Vec<String>>().join("\n");
    assert_eq!(text, "|first\n|  second\n|\n|third  \n||fourth");
    assert_eq!(text.trim_margin(), Some(lines.join("\n")));
    assert_eq!(text.trim_margin(), Some(String::from("first\n  second\n\nthird  \n|fourth")));
}

#[test]
fn should_give_back_lines_written_between_blank_lines() {
    let lines = vec!["first", "  second", "", "third  "];
    let text = lines.iter().map(|line| format!("|{}", line)).collect::<Vec<String>>().join("\n");
    let framed = format!("\n  {}\n   ", text);
    assert_eq!(framed.trim_margin(), Some(lines.join("\n")));
    let framed = format!(" \t\n{}\n", text);
    assert_eq!(framed.trim_margin(), Some(String::from("first\n  second\n\nthird  ")));
    assert_eq!("\n |only\n ".trim_margin(), Some(String::from("only")));
}

#[test]
fn should_drop_only_one_blank_line_at_each_end() {
    assert_eq!("\n\n|a".trim_margin(), None);
    assert_eq!("|a\n\n".trim_margin(), None);
    assert_eq!("\n|\n|a\n|\n".trim_margin(), Some(String::from("\na\n")));
    assert_eq!("|a\n".trim_margin(), Some(String::from("a")));
    assert_eq!("\n|a".trim_margin(), Some(String::from("a")));
}

#[test]
fn should_trim_blank_lines_alone_to_nothing() {
    assert_eq!("\n".trim_margin(), Some(String::new()));
    assert_eq!("  \n\t".trim_margin(), Some(String::new()));
    assert_eq!("\n".trim_margin_with("\n"), Some(String::new()));
    assert_eq!("\n\n".trim_margin(), None);
    assert_eq!("\n\n".trim_margin_with(""), Some(String::new()));
}

#[test]
fn should_require_margin_on_blank_interior_line() {
    assert_eq!("|a\n\n|b".trim_margin(), None);
    assert_eq!("|a\n   \n|b".trim_margin(), None);
    assert_eq!("|a\n  |\n|b".trim_margin(), Some(String::from("a\n\nb")));
}

#[test]
fn should_keep_trailing_whitespace() {
    assert_eq!("|a  \n  |b\t\n|  ".trim_margin(), Some(String::from("a  \nb\t\n  ")));
    assert_eq!("|a\r\n|b\r".trim_margin(), Some(String::from("a\r\nb\r")));
}

#[test]
fn should_strip_the_prefix_once() {
    assert_eq!("||a\n|| b".trim_margin(), Some(String::from("|a\n| b")));
    assert_eq!("| |a\n|  |b".trim_margin(), Some(String::from(" |a\n  |b")));
}

#[test]
fn should_match_prefix_of_several_characters() {
    assert_eq!(">> a\n   >> b".trim_margin_with(">> "), Some(String::from("a\nb")));
    assert_eq!(">> a\n>>b".trim_margin_with(">> "), None);
    assert_eq!("|\n|".trim_margin_with("||"), None);
    assert_eq!("ab\nAb".trim_margin_with("a"), None);
}

#[test]
fn should_left_trim_only_with_empty_prefix() {
    assert_eq!("  a \n\tb\n".trim_margin_with(""), Some(String::from("a \nb")));
    assert_eq!("\n  a\n\n b\n  ".trim_margin_with(""), Some(String::from("a\n\nb")));
}

#[test]
fn should_never_match_prefix_that_begins_with_whitespace() {
    assert_eq!(" |a\n |b".trim_margin_with(" |"), None);
    assert_eq!("\t#a\n\t#b".trim_margin_with("\t#"), None);
}

#[test]
fn should_never_match_prefix_with_line_break() {
    assert_eq!("|\n|a\n|\n|b".trim_margin_with("|\n|"), None);
}

#[test]
fn should_treat_unicode_whitespace_as_indentation() {
    assert_eq!(
        "\u{a0}|a\n\u{2003}\u{3000}|b\n\u{2028}\u{85}".trim_margin(),
        Some(String::from("a\nb"))
    );
    assert_eq!("\u{200b}|a\n|b".trim_margin(), None);
    assert_eq!("|a\n\u{b}\u{c}|b".trim_margin(), Some(String::from("a\nb")));
}

#[test]
fn should_handle_characters_of_several_bytes() {
    assert_eq!("│äö\n  │日本語 ".trim_margin_with("│"), Some(String::from("äö\n日本語 ")));
    assert_eq!("→→x\n→y".trim_margin_with("→→"), None);
    assert_eq!("é|a\n|b".trim_margin(), None);
}

#[test]
fn should_trim_owned_strings() {
    let text = String::from("\n  |a\n  |b\n");
    assert_eq!(text.trim_margin(), Some(String::from("a\nb")));
    assert_eq!(text.trim_margin_with("|"), Some(String::from("a\nb")));
    assert_eq!(text.trim_margin_with("#"), None);
    assert_eq!(text, "\n  |a\n  |b\n");
    let prefix = String::from("|");
    assert_eq!(MarginTrimmable::trim_margin_with(&text, &prefix), Some(String::from("a\nb")));
}

#[test]
fn should_trim_through_references() {
    let text: &str = "\n  |a\n  |b\n";
    assert_eq!(<&str as MarginTrimmable>::trim_margin(&text), Some(String::from("a\nb")));
    assert_eq!((&&text).trim_margin_with("|"), Some(String::from("a\nb")));
    let owned = String::from(text);
    assert_eq!(<&String as MarginTrimmable>::trim_margin_with(&&owned, "#"), None);
    assert_eq!((&owned).trim_margin(), Some(String::from("a\nb")));
}
