use rsnx::Parser;

fn parse_all(parser: &Parser, log_data: &str) -> Result<Vec<rsnx::Entry>, rsnx::Error> {
    log_data.lines().filter(|l| !l.trim().is_empty()).map(|l| parser.parse_string(l)).collect()
}

#[test]
fn test_reader_basic() {
    let log_data = r#"127.0.0.1 [08/Nov/2013:13:39:18 +0000] "GET /api/foo HTTP/1.1" 200 612"#;
    let format = r#"$remote_addr [$time_local] "$request" $status $body_bytes_sent"#;

    let parser = Parser::new(format).unwrap();
    let mut lines = log_data.lines().filter(|l| !l.trim().is_empty());

    let entry = parser.parse_string(lines.next().unwrap()).unwrap();
    assert_eq!(entry.field("remote_addr").unwrap(), "127.0.0.1");
    assert_eq!(entry.field("status").unwrap(), "200");

    // Should be exhausted now
    assert!(lines.next().is_none());
}

#[test]
fn test_reader_iterator() {
    let log_data = r#"127.0.0.1 [08/Nov/2013:13:39:18 +0000] "GET /api/foo HTTP/1.1" 200 612
192.168.1.1 [08/Nov/2013:13:40:18 +0000] "POST /api/bar HTTP/1.1" 404 0"#;
    let format = r#"$remote_addr [$time_local] "$request" $status $body_bytes_sent"#;

    let parser = Parser::new(format).unwrap();
    let entries = parse_all(&parser, log_data).unwrap();

    assert_eq!(entries.len(), 2);
    assert_eq!(entries[0].field("remote_addr").unwrap(), "127.0.0.1");
    assert_eq!(entries[1].field("remote_addr").unwrap(), "192.168.1.1");
}

#[test]
fn test_reader_empty_lines() {
    let log_data = r#"127.0.0.1 [08/Nov/2013:13:39:18 +0000] "GET /api/foo HTTP/1.1" 200 612

192.168.1.1 [08/Nov/2013:13:40:18 +0000] "POST /api/bar HTTP/1.1" 404 0"#;
    let format = r#"$remote_addr [$time_local] "$request" $status $body_bytes_sent"#;

    let parser = Parser::new(format).unwrap();
    let entries = parse_all(&parser, log_data).unwrap();

    // Empty line should be skipped
    assert_eq!(entries.len(), 2);
}

#[test]
fn test_collect_all() {
    let log_data = r#"127.0.0.1 [08/Nov/2013:13:39:18 +0000] "GET /api/foo HTTP/1.1" 200 612
192.168.1.1 [08/Nov/2013:13:40:18 +0000] "POST /api/bar HTTP/1.1" 404 0"#;
    let format = r#"$remote_addr [$time_local] "$request" $status $body_bytes_sent"#;

    let parser = Parser::new(format).unwrap();
    let entries = parse_all(&parser, log_data).unwrap();
    assert_eq!(entries.len(), 2);
}
