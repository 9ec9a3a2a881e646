use nym::codec::{parse_alias, serialize_alias, validate_alias};
use nym::runcom::{capture_aliases, read_aliases};

fn valid_alias_strings() -> Vec<&'static str> {
    vec![
        r#"alias alias_name="echo 'test'""#,
        r#"alias_name="echo 'test'""#,
        r#"alias alias_name='echo "test"'"#,
        r#"alias_name='echo "test"'"#,
        r#"alias alias_name="echo \"nested 'test'\"""#,
        r#"alias alias_name="echo \\"test\\"""#,
        r#"alias_name="echo \\"test\\"""#,
    ]
}

fn invalid_alias_strings() -> Vec<&'static str> {
    vec![
        r#"alias alias_name = "echo 'test'"#,
        r#"alias alias_name= "echo 'test'"#,
        r#"alias_name= "echo 'test'"#,
        r#"alias alias_name="#,
        r#"alias alias name="echo 'test'"#,
        r#"alias echo 'test'"#,
        r#"alias test="echo 'test'"#,
        r#"alias_name='echo \'nested "test"\'""#,
    ]
}

#[test]
fn validate_alias_test() {
    for alias in valid_alias_strings() {
        assert!(validate_alias(alias));
    }
    for alias in invalid_alias_strings() {
        assert!(!validate_alias(alias));
    }
}

#[test]
fn test_validate_alias() {
    for alias in valid_alias_strings() {
        assert!(validate_alias(alias));
    }
    for alias in invalid_alias_strings() {
        assert!(!validate_alias(alias));
    }
}

#[test]
fn validate_alias_agrees_with_the_pattern() {
    let pattern = r#"^(?:alias\s+)?(\w+)=([\'"])((?:\\.|(?!\2).)*)\2$"#;
    let re = fancy_regex::Regex::new(pattern).unwrap();
    let mut inputs: Vec<&str> = valid_alias_strings();
    inputs.extend(invalid_alias_strings());
    inputs.extend(vec![
        "",
        "x=''",
        "x=\"\"",
        "=\"a\"",
        "a=\"b\nc\"",
        "a=\"b\\\"",
        "prefix ll=\"ls -la\" suffix",
        "ll='ls\n'",
        "a='b\"",
        "a_1=\"x\" b=\"y\"",
        "x='a' junk",
        "ll=ls -la",
        "ll= \"ls\"",
        "\u{e9}=\"x\"",
        "caf\u{e9}_2='x'",
        "x\u{301}=\"a\"",
        "\u{bd}=\"a\"",
        "a\u{a0}=\"x\"",
        "alias\nll=\"x\"",
        "alias\u{3000}ll='x'",
        "alias\r\tll='x'",
        "ll=\"x\"\n",
    ]);
    for input in inputs {
        assert_eq!(validate_alias(input), re.is_match(input).unwrap(), "{:?}", input);
    }
}

#[test]
fn serialize_escapes_double_quotes() {
    assert_eq!(serialize_alias("ll", "ls -la"), "alias ll=\"ls -la\"\n");
    assert_eq!(
        serialize_alias("e", r#"echo "hi" 'there'"#),
        "alias e=\"echo \\\"hi\\\" 'there'\"\n"
    );
    assert_eq!(serialize_alias("empty", ""), "alias empty=\"\"\n");
}

#[test]
fn parse_reads_both_quote_styles() {
    assert_eq!(
        parse_alias(r#"alias ll="ls -la""#),
        Some(("ll".to_string(), "ls -la".to_string()))
    );
    assert_eq!(
        parse_alias(r#"gs='git status'"#),
        Some(("gs".to_string(), "git status".to_string()))
    );
    assert_eq!(
        parse_alias(r#"alias q='it\'s'"#),
        Some(("q".to_string(), "it's".to_string()))
    );
    assert_eq!(parse_alias(r#"alias e="""#), Some(("e".to_string(), "".to_string())));
}

#[test]
fn parse_rejects_malformed_definitions() {
    assert_eq!(parse_alias(r#"alias ll = "ls""#), None);
    assert_eq!(parse_alias(r#"alias ll="ls"#), None);
    assert_eq!(parse_alias(r#"alias ll="a"b""#), None);
    assert_eq!(parse_alias(r#"alias l l="ls""#), None);
    assert_eq!(parse_alias("alias"), None);
    assert_eq!(parse_alias("ll=\"a\nb\""), None);
}

#[test]
fn round_trip_through_the_canonical_form() {
    let cases = vec![
        ("ll", "ls -la"),
        ("e", r#"echo "nested 'quotes'""#),
        ("bs", r#"echo \"already\" \\ back"#),
        ("trail", "ends with \\"),
        ("empty", ""),
    ];
    for (name, command) in cases {
        let line = serialize_alias(name, command);
        assert_eq!(parse_alias(&line), Some((name.to_string(), command.to_string())));
    }
}

#[test]
fn values_must_be_quoted_and_whole() {
    assert_eq!(parse_alias("ll=ls -la"), None);
    assert_eq!(parse_alias(r#"ll= "ls""#), None);
    assert_eq!(parse_alias(r#"alias test1="echo "test command 1"""#), None);
    assert!(!validate_alias("x='a' junk"));
    assert!(!validate_alias("x='a'\n"));
    assert!(validate_alias("x=''"));
}

#[test]
fn runcom_capture_aliases_test() {
    let capture_from = r#"###############Aliases###############

        ##########uncategorized##########
        alias test_alias_1="echo \"test alias 1\""
        alias test_alias_2="echo \"test alias 2\""

        ##########group1##########
        alias test_alias_3="echo \"test alias 3\"""#;
    let alias_strings = capture_aliases(capture_from);
    assert_eq!(
        alias_strings,
        vec![
            "alias test_alias_1=\"echo \\\"test alias 1\\\"\"".to_string(),
            "alias test_alias_2=\"echo \\\"test alias 2\\\"\"".to_string(),
            "alias test_alias_3=\"echo \\\"test alias 3\\\"\"".to_string(),
        ]
    );
}

#[test]
fn read_aliases_unescapes_commands() {
    let text = "# header\nalias a=\"echo \\\"x\\\"\"\n\tb='y'\nnot an alias\n";
    let aliases = read_aliases(text);
    assert_eq!(aliases.len(), 2);
    assert_eq!(aliases[0].name, "a");
    assert_eq!(aliases[0].command, "echo \"x\"");
    assert_eq!(aliases[1].name, "b");
    assert_eq!(aliases[1].command, "y");
    assert!(aliases.iter().all(|a| a.enabled && a.group_id == 0 && a.description.is_empty()));
}

#[test]
fn unicode_names_and_whitespace() {
    assert!(validate_alias("\u{e9}=\"x\""));
    assert!(validate_alias("alias\nll=\"x\""));
    assert!(!validate_alias("\u{bd}=\"x\""));
    assert_eq!(
        parse_alias("alias \u{e9}t\u{e9}='summer'"),
        Some(("\u{e9}t\u{e9}".to_string(), "summer".to_string()))
    );
    let line = serialize_alias("\u{e9}", "x");
    assert_eq!(parse_alias(&line), Some(("\u{e9}".to_string(), "x".to_string())));
    let back = read_aliases(&line);
    assert_eq!(back.len(), 1);
    assert_eq!(back[0].name, "\u{e9}");
}
