use asm_weaver::error::WeaveError;
use asm_weaver::extract::extract_blocks;

const SENTINEL: &[u8] = b"js_bindgen.assembly";

fn leb(mut n: u32) -> Vec<u8> {
    let mut out = Vec::new();
    loop {
        if n < 0x80 {
            out.push(n as u8);
            return out;
        }
        out.push((n % 0x80 + 0x80) as u8);
        n /= 0x80;
    }
}

fn section(id: u8, content: &[u8]) -> Vec<u8> {
    let mut out = vec![id];
    out.extend_from_slice(&leb(content.len() as u32));
    out.extend_from_slice(content);
    out
}

fn custom(name: &[u8], data: &[u8]) -> Vec<u8> {
    let mut content = leb(name.len() as u32);
    content.extend_from_slice(name);
    content.extend_from_slice(data);
    section(0, &content)
}

fn module(parts: &[Vec<u8>]) -> Vec<u8> {
    let mut out = vec![0u8, 0x61, 0x73, 0x6d, 1, 0, 0, 0];
    for p in parts {
        out.extend_from_slice(p);
    }
    out
}

#[test]
fn blocks_split_on_null_dropping_empties() {
    // b1 ++ 0x00 ++ "" ++ 0x00 ++ b2 ++ 0x00 yields exactly [b1, b2].
    let m = module(&[custom(SENTINEL, b"first\0\0second\0")]);
    let blocks = extract_blocks(&m).unwrap();
    assert_eq!(blocks.len(), 2);
    assert_eq!(blocks[0], b"first");
    assert_eq!(blocks[1], b"second");
}

#[test]
fn blocks_without_trailing_null() {
    let m = module(&[custom(SENTINEL, b"one\0two")]);
    let blocks = extract_blocks(&m).unwrap();
    assert_eq!(blocks, vec![b"one".to_vec(), b"two".to_vec()]);
}

#[test]
fn blocks_of_empty_data() {
    let m = module(&[custom(SENTINEL, b"")]);
    assert_eq!(extract_blocks(&m).unwrap().len(), 0);
}

#[test]
fn blocks_of_only_delimiters() {
    let m = module(&[custom(SENTINEL, b"\0\0\0")]);
    assert_eq!(extract_blocks(&m).unwrap().len(), 0);
}

#[test]
fn other_custom_sections_contribute_nothing() {
    let m = module(&[custom(b"producers", b"x\0y\0"), section(10, b"abc")]);
    assert_eq!(extract_blocks(&m).unwrap().len(), 0);
}

#[test]
fn blocks_keep_order_across_sentinel_sections() {
    let m = module(&[
        custom(SENTINEL, b"a\0"),
        section(10, b"abc"),
        custom(SENTINEL, b"b\0c\0"),
    ]);
    let blocks = extract_blocks(&m).unwrap();
    assert_eq!(blocks, vec![b"a".to_vec(), b"b".to_vec(), b"c".to_vec()]);
}

#[test]
fn extraction_fails_fast_on_component() {
    let m = vec![0u8, 0x61, 0x73, 0x6d, 0x0d, 0, 1, 0];
    assert_eq!(extract_blocks(&m), Err(WeaveError::UnsupportedEncoding));
}
