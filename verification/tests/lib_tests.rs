use rsnx::Parser;

fn parse_all(parser: &Parser, log_data: &str) -> Result<Vec<rsnx::Entry>, rsnx::Error> {
    log_data.lines().filter(|l| !l.trim().is_empty()).map(|l| parser.parse_string(l)).collect()
}

#[test]
fn test_basic_parsing() {
    let log_line = r#"127.0.0.1 [08/Nov/2013:13:39:18 +0000] "GET /api/foo HTTP/1.1" 200 612"#;
    let format = r#"$remote_addr [$time_local] "$request" $status $body_bytes_sent"#;

    let parser = Parser::new(format).unwrap();
    let entries = parse_all(&parser, log_line).unwrap();

    assert_eq!(entries.len(), 1);
    let entry = &entries[0];

    assert_eq!(entry.field("remote_addr").unwrap(), "127.0.0.1");
    assert_eq!(entry.field("status").unwrap(), "200");
    assert_eq!(entry.int_field("status").unwrap(), 200);
    assert_eq!(entry.int_field("body_bytes_sent").unwrap(), 612);
}

#[test]
fn test_multiple_lines() {
    let log_data = r#"127.0.0.1 [08/Nov/2013:13:39:18 +0000] "GET /api/foo HTTP/1.1" 200 612
192.168.1.1 [08/Nov/2013:13:40:18 +0000] "POST /api/bar HTTP/1.1" 404 0"#;
    let format = r#"$remote_addr [$time_local] "$request" $status $body_bytes_sent"#;

    let parser = Parser::new(format).unwrap();
    let entries = parse_all(&parser, log_data).unwrap();

    assert_eq!(entries.len(), 2);
    assert_eq!(entries[0].field("remote_addr").unwrap(), "127.0.0.1");
    assert_eq!(entries[1].field("remote_addr").unwrap(), "192.168.1.1");
    assert_eq!(entries[0].int_field("status").unwrap(), 200);
    assert_eq!(entries[1].int_field("status").unwrap(), 404);
}
