use asm_weaver::error::WeaveError;
use asm_weaver::normalize::normalize;
use asm_weaver::scan::{scan, Section};

const SENTINEL: &[u8] = b"js_bindgen.assembly";

fn leb(mut n: u32) -> Vec<u8> {
    let mut out = Vec::new();
    loop {
        if n < 0x80 {
            out.push(n as u8);
            return out;
        }
        out.push((n % 0x80 + 0x80) as u8);
        n /= 0x80;
    }
}

fn section(id: u8, content: &[u8]) -> Vec<u8> {
    let mut out = vec![id];
    out.extend_from_slice(&leb(content.len() as u32));
    out.extend_from_slice(content);
    out
}

fn custom(name: &[u8], data: &[u8]) -> Vec<u8> {
    let mut content = leb(name.len() as u32);
    content.extend_from_slice(name);
    content.extend_from_slice(data);
    section(0, &content)
}

fn module(parts: &[Vec<u8>]) -> Vec<u8> {
    let mut out = vec![0u8, 0x61, 0x73, 0x6d, 1, 0, 0, 0];
    for p in parts {
        out.extend_from_slice(p);
    }
    out
}

/// The names of the custom sections of a scanned buffer.
fn custom_names(bytes: &Vec<u8>) -> Vec<Vec<u8>> {
    let mut names = Vec::new();
    for sec in scan(bytes).unwrap() {
        if let Section::Custom { name_lo, name_hi, .. } = sec {
            names.push(bytes[name_lo..name_hi].to_vec());
        }
    }
    names
}

#[test]
fn normalize_without_sentinel_is_byte_identical() {
    // A module with no sentinel section round-trips byte for byte: the
    // header is already canonical, every section is re-framed identically.
    let m = module(&[section(1, b"\x01\x60\x00\x00"), custom(b"producers", b"x"), section(10, b"q")]);
    assert_eq!(normalize(&m).unwrap(), m);
}

#[test]
fn normalize_drops_every_sentinel_section() {
    let m = module(&[
        custom(SENTINEL, b"nop\n\0"),
        section(10, b"abc"),
        custom(SENTINEL, b"ret\n\0"),
    ]);
    let out = normalize(&m).unwrap();
    assert_eq!(out, module(&[section(10, b"abc")]));
    assert_eq!(custom_names(&out).len(), 0);
}

#[test]
fn normalize_is_idempotent() {
    let m = module(&[
        section(1, b"sig"),
        custom(SENTINEL, b"nop\n\0"),
        custom(b"name", b"n"),
        section(11, b"data"),
    ]);
    let once = normalize(&m).unwrap();
    let twice = normalize(&once).unwrap();
    assert_eq!(once, twice);
}

#[test]
fn normalize_preserves_section_order() {
    let m = module(&[
        section(1, b"a"),
        custom(SENTINEL, b"x\0"),
        custom(b"keep", b"k"),
        section(10, b"b"),
        section(11, b"c"),
    ]);
    let out = normalize(&m).unwrap();
    let sections = scan(&out).unwrap();
    let mut ids = Vec::new();
    for sec in &sections {
        match sec {
            Section::Generic { id, .. } => ids.push(*id),
            Section::Custom { .. } => ids.push(0),
            _ => (),
        }
    }
    assert_eq!(ids, vec![1, 0, 10, 11]);
    assert_eq!(custom_names(&out), vec![b"keep".to_vec()]);
}

#[test]
fn normalize_rewrites_non_minimal_size_fields() {
    // Size 1 encoded over two bytes in the input comes out minimal.
    let mut m = module(&[]);
    m.extend_from_slice(&[10, 0x81, 0x00, 0x61]);
    assert_eq!(normalize(&m).unwrap(), module(&[section(10, b"a")]));
}

#[test]
fn normalize_component_is_fatal() {
    let m = vec![0u8, 0x61, 0x73, 0x6d, 0x0d, 0, 1, 0];
    assert_eq!(normalize(&m), Err(WeaveError::UnsupportedEncoding));
}

#[test]
fn normalize_malformed_is_fatal() {
    let mut m = module(&[]);
    m.extend_from_slice(&[10, 9, 1]);
    assert_eq!(normalize(&m), Err(WeaveError::MalformedContainer));
}

#[test]
fn normalize_of_only_sentinels_leaves_the_header() {
    let m = module(&[custom(SENTINEL, b"nop\n\0")]);
    assert_eq!(normalize(&m).unwrap(), vec![0u8, 0x61, 0x73, 0x6d, 1, 0, 0, 0]);
}
