use wasmcheck::{format_size, parse_size};

#[test]
fn test_parse_size_bytes() {
    assert_eq!(parse_size("500B").unwrap(), 500);
    assert_eq!(parse_size("500 B").unwrap(), 500);
}

#[test]
fn test_parse_size_kb() {
    assert_eq!(parse_size("1.5KB").unwrap(), 1536);
    assert_eq!(parse_size("10 KB").unwrap(), 10240);
}

#[test]
fn test_parse_size_mb() {
    assert_eq!(parse_size("1MB").unwrap(), 1024 * 1024);
    assert_eq!(
        parse_size("2.5 MB").unwrap(),
        (2.5 * 1024.0 * 1024.0) as u64
    );
}

#[test]
fn test_parse_size_invalid() {
    assert!(parse_size("abc").is_err());
    assert!(parse_size("10GB").is_err());
}

#[test]
fn test_format_size() {
    assert_eq!(format_size(500), "500 B");
    assert_eq!(format_size(1536), "1.50 KB");
    assert_eq!(format_size(1024 * 1024), "1.00 MB");
}
