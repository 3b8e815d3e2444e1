use symmetry::envfile::{parse, quote, set_var, unset_var};
use symmetry::vars::{unset, UnsetError};

#[test]
fn parses_comments_quotes_and_blanks() {
    let vars = parse(b"# comment\nA=1\n\nB=\"two words\"\nC='single'\n").unwrap();
    assert_eq!(
        vars,
        vec![
            ("A".into(), "1".into()),
            ("B".into(), "two words".into()),
            ("C".into(), "single".into()),
        ]
    );
}

#[test]
fn parse_reports_a_bad_line() {
    let err = parse(b"A=1\nthis is not an assignment\n").err().unwrap();
    assert!(!err.cause.is_empty());
}

#[test]
fn set_replaces_the_first_assignment_and_drops_the_rest() {
    let text = "# db\nDB=old\nOTHER=1\n  DB = older\n";
    assert_eq!(set_var(text, "DB", "new"), "# db\nDB=new\nOTHER=1\n");
}

#[test]
fn set_appends_a_missing_variable() {
    assert_eq!(set_var("A=1\n", "B", "2"), "A=1\nB=2\n");
    assert_eq!(set_var("A=1", "B", "2"), "A=1\nB=2\n");
    assert_eq!(set_var("", "B", "2"), "B=2\n");
}

#[test]
fn set_sees_exported_assignments() {
    assert_eq!(set_var("export KEY=1\n", "KEY", "2"), "KEY=2\n");
    assert_eq!(set_var("KEYS=1\n", "KEY", "2"), "KEYS=1\nKEY=2\n");
}

#[test]
fn values_are_quoted_when_they_need_it() {
    let q = |s: &str| quote(&s.chars().collect::<Vec<char>>()).into_iter().collect::<String>();
    assert_eq!(q("postgres://u@h:5432/db"), "postgres://u@h:5432/db");
    assert_eq!(q(""), "\"\"");
    assert_eq!(q("two words"), "\"two words\"");
    assert_eq!(q("a\"b\\c$d\ne"), "\"a\\\"b\\\\c\\$d\\ne\"");
}

#[test]
fn a_set_value_parses_back() {
    for value in ["plain", "two words", "with \"quotes\" and \\", "$HOME", "line\nbreak", ""] {
        let text = set_var("A=1\n", "KEY", value);
        let vars = parse(text.as_bytes()).unwrap();
        assert_eq!(vars[1], ("KEY".to_string(), value.to_string()));
    }
}

#[test]
fn unset_removes_every_assignment() {
    let (text, found) = unset_var("A=1\nB=2\nA=3\n", "A");
    assert_eq!(text, "B=2\n");
    assert!(found);
    let (text, found) = unset_var("A=1\r\nB=2\r\n", "C");
    assert_eq!(text, "A=1\nB=2\n");
    assert!(!found);
}

#[test]
fn unset_after_set_is_unset() {
    let text = "A=1\nB=2\n# note\nA=3\n";
    assert_eq!(
        unset_var(&set_var(text, "A", "9"), "A"),
        (unset_var(text, "A").0, true)
    );
    assert_eq!(
        unset_var(&set_var(text, "C", "9"), "C"),
        (unset_var(text, "C").0, true)
    );
}

#[test]
fn setting_twice_is_setting_once() {
    let text = "A=1\nB=2\nA=3\n";
    let once = set_var(text, "A", "x y");
    assert_eq!(set_var(&once, "A", "x y"), once);
}

#[test]
fn set_and_unset_check_the_name() {
    assert!(symmetry::vars::set("A=1\n", "2BAD", "x").is_err());
    assert_eq!(symmetry::vars::set("A=1\n", "B", "2").unwrap(), "A=1\nB=2\n");
    assert!(matches!(unset("A=1\n", "BAD NAME"), Err(UnsetError::Invalid(_))));
    match unset("A=1\n", "B") {
        Err(UnsetError::NotSet(k)) => assert_eq!(k, "B"),
        _ => panic!("expected NotSet"),
    }
    assert_eq!(unset("A=1\nB=2\n", "A").unwrap(), "B=2\n");
}

#[test]
fn parsed_values_are_the_file_values() {
    let vars = parse(b"URL=postgres://u@h/db\nexport NAME='a b'\nEMPTY=\n").unwrap();
    assert_eq!(
        vars,
        vec![
            ("URL".to_string(), "postgres://u@h/db".to_string()),
            ("NAME".to_string(), "a b".to_string()),
            ("EMPTY".to_string(), String::new()),
        ]
    );
}
