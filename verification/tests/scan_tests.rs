use asm_weaver::error::WeaveError;
use asm_weaver::scan::{scan, Encoding, Section};

fn leb(mut n: u32) -> Vec<u8> {
    let mut out = Vec::new();
    loop {
        if n < 0x80 {
            out.push(n as u8);
            return out;
        }
        out.push((n % 0x80 + 0x80) as u8);
        n /= 0x80;
    }
}

fn section(id: u8, content: &[u8]) -> Vec<u8> {
    let mut out = vec![id];
    out.extend_from_slice(&leb(content.len() as u32));
    out.extend_from_slice(content);
    out
}

fn custom(name: &[u8], data: &[u8]) -> Vec<u8> {
    let mut content = leb(name.len() as u32);
    content.extend_from_slice(name);
    content.extend_from_slice(data);
    section(0, &content)
}

fn module(parts: &[Vec<u8>]) -> Vec<u8> {
    let mut out = vec![0u8, 0x61, 0x73, 0x6d, 1, 0, 0, 0];
    for p in parts {
        out.extend_from_slice(p);
    }
    out
}

#[test]
fn scan_empty_module() {
    let m = module(&[]);
    let sections = scan(&m).unwrap();
    assert_eq!(sections.len(), 2);
    assert_eq!(sections[0], Section::Version { encoding: Encoding::Module });
    assert_eq!(sections[1], Section::End);
}

#[test]
fn scan_generic_section_ranges() {
    let m = module(&[section(10, b"abc")]);
    let sections = scan(&m).unwrap();
    assert_eq!(sections.len(), 3);
    match sections[1] {
        Section::Generic { id, lo, hi } => {
            assert_eq!(id, 10);
            assert_eq!(&m[lo..hi], b"abc");
        },
        _ => panic!("expected a generic section"),
    }
}

#[test]
fn scan_custom_section_name_and_data() {
    let m = module(&[custom(b"hello", b"payload")]);
    let sections = scan(&m).unwrap();
    match sections[1] {
        Section::Custom { lo, hi, name_lo, name_hi } => {
            assert_eq!(&m[name_lo..name_hi], b"hello");
            assert_eq!(&m[name_hi..hi], b"payload");
            assert!(lo <= name_lo);
        },
        _ => panic!("expected a custom section"),
    }
}

#[test]
fn scan_component_encoding_is_fatal() {
    // A component header: version 13, layer 1. The scan fails before any
    // section is reported, even though sections follow.
    let mut m = vec![0u8, 0x61, 0x73, 0x6d, 0x0d, 0, 1, 0];
    m.extend_from_slice(&section(10, b"abc"));
    assert_eq!(scan(&m), Err(WeaveError::UnsupportedEncoding));
}

#[test]
fn scan_bad_magic_is_malformed() {
    let m = vec![0u8, 0x61, 0x73, 0x6e, 1, 0, 0, 0];
    assert_eq!(scan(&m), Err(WeaveError::MalformedContainer));
    assert_eq!(scan(&vec![0u8, 0x61]), Err(WeaveError::MalformedContainer));
}

#[test]
fn scan_bad_version_is_malformed() {
    let m = vec![0u8, 0x61, 0x73, 0x6d, 2, 0, 0, 0];
    assert_eq!(scan(&m), Err(WeaveError::MalformedContainer));
}

#[test]
fn scan_truncated_section_is_malformed() {
    let mut m = module(&[]);
    m.extend_from_slice(&[10, 5, 1, 2]);
    assert_eq!(scan(&m), Err(WeaveError::MalformedContainer));
}

#[test]
fn scan_accepts_non_minimal_size() {
    // Section size 3 encoded over two bytes: 0x83 0x00.
    let mut m = module(&[]);
    m.extend_from_slice(&[10, 0x83, 0x00]);
    m.extend_from_slice(b"abc");
    let sections = scan(&m).unwrap();
    assert_eq!(sections.len(), 3);
    match sections[1] {
        Section::Generic { id, lo, hi } => {
            assert_eq!(id, 10);
            assert_eq!(&m[lo..hi], b"abc");
        },
        _ => panic!("expected a generic section"),
    }
}

#[test]
fn scan_rejects_overlong_size() {
    // A size field carrying bits past the 32nd.
    let mut m = module(&[]);
    m.extend_from_slice(&[10, 0x80, 0x80, 0x80, 0x80, 0x70]);
    assert_eq!(scan(&m), Err(WeaveError::MalformedContainer));
}

#[test]
fn scan_rejects_bad_custom_name_length() {
    // A custom section whose name length overruns its content.
    let m = module(&[section(0, &[0x20, 0x61])]);
    assert_eq!(scan(&m), Err(WeaveError::MalformedContainer));
}

#[test]
fn describe_is_nonempty() {
    assert!(!WeaveError::UnsupportedEncoding.describe().is_empty());
    assert!(!WeaveError::MalformedArchive.describe().is_empty());
}
