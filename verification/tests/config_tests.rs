use csv_split::config::{detect_compression, CompressionType, TypeExtension};

#[test]
fn parse_empty_means_plain() {
    assert!(matches!(CompressionType::from_str(""), Ok(CompressionType::Plain)));
}

#[test]
fn parse_gzip_spellings() {
    assert!(matches!(CompressionType::from_str("g"), Ok(CompressionType::Gzip)));
    assert!(matches!(CompressionType::from_str("gzip"), Ok(CompressionType::Gzip)));
    assert!(matches!(CompressionType::from_str("GZIP"), Ok(CompressionType::Gzip)));
    assert!(matches!(CompressionType::from_str("GzIp"), Ok(CompressionType::Gzip)));
}

#[test]
fn parse_bzip_spellings() {
    assert!(matches!(CompressionType::from_str("b"), Ok(CompressionType::Bzip)));
    assert!(matches!(CompressionType::from_str("bzip"), Ok(CompressionType::Bzip)));
    assert!(matches!(CompressionType::from_str("B"), Ok(CompressionType::Bzip)));
}

#[test]
fn parse_detect_spellings() {
    assert!(matches!(CompressionType::from_str("d"), Ok(CompressionType::Detect)));
    assert!(matches!(CompressionType::from_str("detect"), Ok(CompressionType::Detect)));
    assert!(matches!(CompressionType::from_str("DETECT"), Ok(CompressionType::Detect)));
}

#[test]
fn parse_unknown_is_an_error() {
    assert!(CompressionType::from_str("zstd").is_err());
    assert!(CompressionType::from_str("gz").is_err());
    assert!(CompressionType::from_str(" g").is_err());
}

#[test]
fn extensions() {
    assert_eq!(CompressionType::Plain.extension(), "");
    assert_eq!(CompressionType::Gzip.extension(), ".gz");
    assert_eq!(CompressionType::Bzip.extension(), ".bz");
}

#[test]
fn detect_gzip_magic() {
    assert!(matches!(detect_compression(0x1f, 0x8b), CompressionType::Gzip));
}

#[test]
fn detect_bzip_magic() {
    assert!(matches!(detect_compression(b'B', b'Z'), CompressionType::Bzip));
}

#[test]
fn detect_anything_else_is_plain() {
    assert!(matches!(detect_compression(b'a', b','), CompressionType::Plain));
    assert!(matches!(detect_compression(0x1f, 0x8c), CompressionType::Plain));
    assert!(matches!(detect_compression(b'B', b'z'), CompressionType::Plain));
}
