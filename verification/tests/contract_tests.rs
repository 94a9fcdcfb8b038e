use rsnx::{count_braces, extract_nginx_format, remove_surrounding_quotes, Entry, Error, Parser};

#[test]
fn test_round_trip_fields() {
    let format = r#"$a-$sep-$c"#;
    let parser = Parser::new(format).unwrap();
    let entry = parser.parse_string("one-two-three").unwrap();
    assert_eq!(entry.field("a").unwrap(), "one");
    assert_eq!(entry.field("sep").unwrap(), "two");
    assert_eq!(entry.field("c").unwrap(), "three");
    assert_eq!(entry.len(), 3);
}

#[test]
fn test_compiled_pattern_text() {
    let format = r#"$remote_addr [$time_local] "$request" $status $body_bytes_sent"#;
    let parser = Parser::new(format).unwrap();
    assert_eq!(parser.format(), format);
    assert_eq!(
        parser.regex().as_str(),
        r#"^(?P<remote_addr>[^ ]*) \[(?P<time_local>[^\]]*)\] "(?P<request>[^"]*)" (?P<status>[^ ]*) (?P<body_bytes_sent>.*)$"#
    );
}

#[test]
fn test_adjacent_host_pattern_text() {
    let parser = Parser::new("$host$request_uri $method").unwrap();
    assert_eq!(
        parser.regex().as_str(),
        r#"^(?P<host>[a-zA-Z0-9.-]+)(?P<request_uri>[^ ]*) (?P<method>.*)$"#
    );
}

#[test]
fn test_adjacent_pair_at_end_of_template() {
    let parser = Parser::new("$host$request_uri").unwrap();
    assert_eq!(
        parser.regex().as_str(),
        r#"^(?P<host>[a-zA-Z0-9.-]+)(?P<request_uri>.*)$"#
    );
    let entry = parser.parse_string("example.com/api/users?id=123").unwrap();
    assert_eq!(entry.field("host").unwrap(), "example.com");
    assert_eq!(entry.field("request_uri").unwrap(), "/api/users?id=123");

    // Without the host policy the pair is ambiguous: the first field takes
    // everything to the end of the line.
    let parser = Parser::new("$alpha$beta").unwrap();
    assert_eq!(parser.regex().as_str(), r#"^(?P<alpha>.*)(?P<beta>.*)$"#);
    let entry = parser.parse_string("xy").unwrap();
    assert_eq!(entry.field("alpha").unwrap(), "xy");
    assert_eq!(entry.field("beta").unwrap(), "");
}

#[test]
fn test_mismatch_is_line_format_mismatch() {
    let parser = Parser::new(r#"$a [$b]"#).unwrap();
    let err = parser.parse_string("no brackets here").unwrap_err();
    assert!(matches!(err, Error::LineFormatMismatch { .. }));
}

#[test]
fn test_anchored_match_rejects_substring() {
    let parser = Parser::new("a=$a").unwrap();
    assert!(parser.parse_string("xx a=1").is_err());
    assert!(parser.parse_string("a=1").is_ok());
}

#[test]
fn test_empty_format_matches_only_empty_line() {
    let parser = Parser::new("").unwrap();
    let entry = parser.parse_string("").unwrap();
    assert!(entry.is_empty());
    assert!(parser.parse_string("x").is_err());
}

#[test]
fn test_empty_capture_is_present_field() {
    let parser = Parser::new("$a|$b").unwrap();
    let entry = parser.parse_string("|hello").unwrap();
    assert_eq!(entry.field("a").unwrap(), "");
    assert_eq!(entry.field("b").unwrap(), "hello");
    assert!(matches!(
        entry.field("c").unwrap_err(),
        Error::FieldNotFound { .. }
    ));
}

#[test]
fn test_invalid_format_error() {
    // Two fields with one name make the engine reject the pattern.
    let err = Parser::new("$a $a").unwrap_err();
    assert!(matches!(err, Error::InvalidFormat { .. }));
}

#[test]
fn test_int_field_boundaries() {
    let mut entry = Entry::new();
    entry.set_field("n", "-2147483648");
    assert_eq!(entry.int_field("n").unwrap(), -2147483648i32);
    entry.set_field("n", "2147483648");
    assert!(matches!(
        entry.int_field("n").unwrap_err(),
        Error::FieldParseError { .. }
    ));
    assert_eq!(entry.int64_field("n").unwrap(), 2147483648i64);
    entry.set_field("n", "+17");
    assert_eq!(entry.int_field("n").unwrap(), 17);
    entry.set_field("n", "9223372036854775807");
    assert_eq!(entry.int64_field("n").unwrap(), i64::MAX);
    entry.set_field("n", "-9223372036854775808");
    assert_eq!(entry.int64_field("n").unwrap(), i64::MIN);
    entry.set_field("n", "9223372036854775808");
    assert!(entry.int64_field("n").is_err());
    entry.set_field("n", "12 ");
    assert!(entry.int64_field("n").is_err());
    entry.set_field("n", "");
    assert!(entry.int64_field("n").is_err());
    entry.set_field("n", "+");
    assert!(entry.int64_field("n").is_err());
}

#[test]
fn test_projection_missing_becomes_empty() {
    let mut entry = Entry::new();
    entry.set_field("a", "1");
    let p = entry.partial(&["a", "missing"]);
    assert_eq!(p.field("a").unwrap(), "1");
    assert_eq!(p.field("missing").unwrap(), "");
    assert_eq!(p.len(), 2);
}

#[test]
fn test_fields_hash_exact() {
    let mut entry = Entry::new();
    entry.set_field("remote_addr", "127.0.0.1");
    entry.set_field("status", "200");
    let hash = entry.fields_hash(&["remote_addr", "status", "x"]);
    assert_eq!(hash, "'remote_addr'=127.0.0.1;'status'=200;'x'=NULL");
    assert_eq!(entry.fields_hash(&[]), "");
}

#[test]
fn test_merge_overwrites() {
    let mut a = Entry::new();
    a.set_field("k", "old");
    a.set_field("only_a", "1");
    let mut b = Entry::new();
    b.set_field("k", "new");
    b.set_field("only_b", "2");
    a.merge(&b);
    assert_eq!(a.field("k").unwrap(), "new");
    assert_eq!(a.field("only_a").unwrap(), "1");
    assert_eq!(a.field("only_b").unwrap(), "2");
    assert_eq!(a.len(), 3);
}

#[test]
fn test_set_uint_and_len() {
    let mut entry = Entry::new();
    assert!(entry.is_empty());
    entry.set_uint_field("zero", 0);
    entry.set_uint_field("big", 18446744073709551615u64);
    assert_eq!(entry.field("zero").unwrap(), "0");
    assert_eq!(entry.field("big").unwrap(), "18446744073709551615");
    assert_eq!(entry.len(), 2);
    entry.set_field("zero", "0");
    assert_eq!(entry.len(), 2);
    assert!(!entry.is_empty());
}

#[test]
fn test_from_fields_last_wins() {
    let fields = vec![
        ("k".to_string(), "first".to_string()),
        ("k".to_string(), "second".to_string()),
    ];
    let entry = Entry::from_fields(fields);
    assert_eq!(entry.field("k").unwrap(), "second");
    assert_eq!(entry.len(), 1);
}

#[test]
fn test_count_braces_cases() {
    assert_eq!(count_braces("{{}"), 1);
    assert_eq!(count_braces("{}{}"), 0);
    assert_eq!(count_braces("}"), -1);
    assert_eq!(count_braces("'{'"), 0);
    assert_eq!(count_braces("\"{ }\" {"), 1);
    assert_eq!(count_braces("\\\"{"), 1);
    assert_eq!(count_braces(""), 0);
}

#[test]
fn test_remove_surrounding_quotes_cases() {
    assert_eq!(remove_surrounding_quotes("  'abc'  "), "abc");
    assert_eq!(remove_surrounding_quotes("\"abc\""), "abc");
    assert_eq!(remove_surrounding_quotes("'abc\""), "'abc\"");
    assert_eq!(remove_surrounding_quotes("''"), "");
    assert_eq!(remove_surrounding_quotes("'"), "'");
    assert_eq!(remove_surrounding_quotes(" plain "), "plain");
}

#[test]
fn test_extract_idempotent() {
    let config = r#"
    log_format main '$remote_addr [$time_local] "$request"';
    "#;
    let first = extract_nginx_format(config, "main").unwrap();
    let second = extract_nginx_format(config, "main").unwrap();
    assert_eq!(first, second);
}

#[test]
fn test_multiline_equals_single_line() {
    let multi = r#"
    log_format main '$remote_addr - $remote_user '
                    '[$time_local] '
                    '"$request"';
    "#;
    let single = r#"
    log_format main '$remote_addr - $remote_user [$time_local] "$request"';
    "#;
    let from_multi = extract_nginx_format(multi, "main").unwrap();
    let from_single = extract_nginx_format(single, "main").unwrap();
    assert_eq!(from_multi, from_single);
    assert_eq!(from_multi, r#"$remote_addr - $remote_user [$time_local] "$request""#);
}

#[test]
fn test_extract_skips_comments_and_other_names() {
    let config = "# log_format main 'commented out';\nlog_format mainx 'wrong';\nlog_format main '$a $b';\n";
    let format = extract_nginx_format(config, "main").unwrap();
    assert_eq!(format, "$a $b");
}

#[test]
fn test_extract_unterminated_directive() {
    let config = "log_format main '$a $b'";
    let format = extract_nginx_format(config, "main").unwrap();
    assert_eq!(format, "$a $b");
}

#[test]
fn test_extract_brace_balance() {
    // The first `;` stands inside unbalanced braces and must not terminate
    // the directive.
    let config = "log_format main {abc;\ndef};\n";
    let format = extract_nginx_format(config, "main").unwrap();
    assert_eq!(format, "{abc def}");

    // A quoted brace does not count towards the balance.
    let config = "log_format main 'a{b';\n";
    let format = extract_nginx_format(config, "main").unwrap();
    assert_eq!(format, "a{b");
}

#[test]
fn test_nginx_config_error_value() {
    let err = Error::nginx_config_error("unbalanced braces");
    assert!(matches!(err, Error::NginxConfigError { .. }));
}

#[test]
fn test_entry_clone_and_default() {
    let mut entry = Entry::default();
    assert!(entry.is_empty());
    entry.set_field("a", "1");
    let copy = entry.clone();
    assert_eq!(copy.field("a").unwrap(), "1");
    assert_eq!(copy.len(), 1);
}

#[test]
fn test_fields_and_iter_views() {
    let mut entry = Entry::new();
    entry.set_field("a", "1");
    entry.set_field("b", "2");
    let pairs = entry.fields();
    assert_eq!(pairs.len(), 2);
    let pairs = entry.iter();
    assert!(pairs.iter().any(|p| p.0 == "a" && p.1 == "1"));
    assert!(pairs.iter().any(|p| p.0 == "b" && p.1 == "2"));
}

#[test]
fn test_delimiter_with_meta_character() {
    // The delimiter after the field is `]`, which must be escaped inside
    // the capture's character class for the pattern to compile.
    let parser = Parser::new("[$level] rest").unwrap();
    let entry = parser.parse_string("[INFO] rest").unwrap();
    assert_eq!(entry.field("level").unwrap(), "INFO");
}

#[test]
fn test_trailing_field_takes_rest() {
    let parser = Parser::new("$a $tail").unwrap();
    let entry = parser.parse_string("x y z w").unwrap();
    assert_eq!(entry.field("a").unwrap(), "x");
    assert_eq!(entry.field("tail").unwrap(), "y z w");
}
