use later::command::{get_args, parse_command, parse_position, Command, Todo};

fn words(v: &[&str]) -> Vec<String> {
    v.iter().map(|s| s.to_string()).collect()
}

#[test]
fn tokenize_keeps_quoted_span() {
    assert_eq!(get_args("add \"a b\" c".to_string()), words(&["add", "a b", "c"]));
}

#[test]
fn tokenize_only_spaces_is_empty() {
    assert_eq!(get_args("   ".to_string()), Vec::<String>::new());
}

#[test]
fn tokenize_empty_line() {
    assert_eq!(get_args(String::new()), Vec::<String>::new());
}

#[test]
fn tokenize_unterminated_quote_is_flushed() {
    assert_eq!(get_args("a \"b".to_string()), words(&["a", "b"]));
}

#[test]
fn tokenize_collapses_runs_of_spaces() {
    assert_eq!(get_args("  list   now  ".to_string()), words(&["list", "now"]));
}

#[test]
fn tokenize_closing_quote_ends_token() {
    assert_eq!(get_args("\"ab\"cd".to_string()), words(&["ab", "cd"]));
    assert_eq!(get_args("x\"y z\" w".to_string()), words(&["xy z", "w"]));
}

#[test]
fn tokenize_empty_quotes_give_empty_token() {
    assert_eq!(get_args("add \"\"".to_string()), words(&["add", ""]));
}

#[test]
fn tokenize_rejoined_is_stable() {
    let first = get_args("  save   my.json   now ".to_string());
    let again = get_args(first.join(" "));
    assert_eq!(again, first);
    assert_eq!(first, words(&["save", "my.json", "now"]));
}

fn title_and_desc(c: Option<Command>) -> (String, Option<String>) {
    match c {
        Some(Command::Add(Todo { title, description })) => (title, description),
        _ => panic!("expected an add command"),
    }
}

#[test]
fn match_add_with_title_only() {
    let (t, d) = title_and_desc(parse_command("add X".to_string()));
    assert_eq!(t, "X");
    assert_eq!(d, None);
}

#[test]
fn match_add_with_description() {
    let (t, d) = title_and_desc(parse_command("add \"Buy milk\" \"two litres\"".to_string()));
    assert_eq!(t, "Buy milk");
    assert_eq!(d, Some("two litres".to_string()));
}

#[test]
fn match_remove_zero() {
    assert!(matches!(parse_command("remove 0".to_string()), Some(Command::Remove(0))));
}

#[test]
fn match_remove_number() {
    assert!(matches!(parse_command("remove 12".to_string()), Some(Command::Remove(12))));
    assert!(matches!(parse_command("remove +3".to_string()), Some(Command::Remove(3))));
}

#[test]
fn match_remove_negative_is_none() {
    assert!(parse_command("remove -1".to_string()).is_none());
}

#[test]
fn match_remove_not_a_number_is_none() {
    assert!(parse_command("remove one".to_string()).is_none());
    assert!(parse_command("remove".to_string()).is_none());
}

#[test]
fn match_remove_overflow_is_none() {
    assert!(parse_command("remove 99999999999999999999999".to_string()).is_none());
}

#[test]
fn match_bogus_is_none() {
    assert!(parse_command("bogus".to_string()).is_none());
    assert!(parse_command("".to_string()).is_none());
}

#[test]
fn match_wrong_arity_is_none() {
    assert!(parse_command("list all".to_string()).is_none());
    assert!(parse_command("help me".to_string()).is_none());
    assert!(parse_command("add a b c".to_string()).is_none());
    assert!(parse_command("save".to_string()).is_none());
}

#[test]
fn match_simple_keywords() {
    assert!(matches!(parse_command("list".to_string()), Some(Command::List)));
    assert!(matches!(parse_command("help".to_string()), Some(Command::Help)));
    match parse_command("load \"my file.json\"".to_string()) {
        Some(Command::Load(p)) => assert_eq!(p, "my file.json"),
        _ => panic!("expected load"),
    }
    match parse_command("save out.json".to_string()) {
        Some(Command::Save(p)) => assert_eq!(p, "out.json"),
        _ => panic!("expected save"),
    }
}

#[test]
fn match_keyword_is_case_sensitive() {
    assert!(parse_command("LIST".to_string()).is_none());
}

#[test]
fn position_parsing() {
    assert_eq!(parse_position("0"), Some(0));
    assert_eq!(parse_position("007"), Some(7));
    assert_eq!(parse_position("+42"), Some(42));
    assert_eq!(parse_position("18446744073709551615"), Some(usize::MAX));
    assert_eq!(parse_position("18446744073709551616"), None);
    assert_eq!(parse_position(""), None);
    assert_eq!(parse_position("+"), None);
    assert_eq!(parse_position("-0"), None);
    assert_eq!(parse_position("1a"), None);
    assert_eq!(parse_position(" 1"), None);
}

#[test]
fn position_parsing_agrees_with_std() {
    for s in ["0", "9", "+5", "-5", "", "+", "12x", "340282366920938463463374607431768211456", "00"] {
        assert_eq!(parse_position(s), s.parse::<usize>().ok(), "{}", s);
    }
}
