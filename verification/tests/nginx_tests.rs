use rsnx::{extract_nginx_format, Error, Parser};

#[test]
fn test_extract_simple_format() {
    let config = r#"
        log_format main '$remote_addr - $remote_user [$time_local] "$request" $status';
        "#;

    let format = extract_nginx_format(config, "main").unwrap();

    assert_eq!(
        format,
        r#"$remote_addr - $remote_user [$time_local] "$request" $status"#
    );
}

#[test]
fn test_extract_multiline_format() {
    let config = r#"
        log_format main '$remote_addr - $remote_user [$time_local] "$request" '
                        '$status $body_bytes_sent "$http_referer" '
                        '"$http_user_agent" "$http_x_forwarded_for"';
        "#;

    let format = extract_nginx_format(config, "main").unwrap();

    let expected = r#"$remote_addr - $remote_user [$time_local] "$request" $status $body_bytes_sent "$http_referer" "$http_user_agent" "$http_x_forwarded_for""#;
    assert_eq!(format, expected);
}

#[test]
fn test_format_not_found() {
    let config = r#"
        log_format main '$remote_addr - $remote_user [$time_local]';
        "#;

    let result = extract_nginx_format(config, "nonexistent");

    assert!(result.is_err());
    assert!(matches!(
        result.unwrap_err(),
        Error::NginxFormatNotFound { .. }
    ));
}

#[test]
fn test_nginx_reader() {
    let config = r#"
        log_format main '$remote_addr - $remote_user [$time_local] "$request" $status';
        "#;

    let log_data = r#"127.0.0.1 - - [08/Nov/2013:13:39:18 +0000] "GET /api/foo HTTP/1.1" 200"#;

    let format = extract_nginx_format(config, "main").unwrap();
    let parser = Parser::new(&format).unwrap();

    let entry = parser.parse_string(log_data).unwrap();
    assert_eq!(entry.field("remote_addr").unwrap(), "127.0.0.1");
    assert_eq!(entry.field("status").unwrap(), "200");
}
