use asm_weaver::leb::{leb_read, leb_write};
use asm_weaver::select::{wasm_artifact_matches, Architecture};

fn matches32(name: &[u8]) -> bool {
    wasm_artifact_matches(Architecture::Wasm32, &name.to_vec())
}

fn matches64(name: &[u8]) -> bool {
    wasm_artifact_matches(Architecture::Wasm64, &name.to_vec())
}

#[test]
fn plain_wasm_artifacts_match_both_widths() {
    assert!(matches32(b"helper.wasm"));
    assert!(matches64(b"helper.wasm"));
    assert!(matches32(b"helper"));
    assert!(matches64(b"helper"));
}

#[test]
fn width_tagged_artifacts_match_their_width_only() {
    assert!(matches32(b"helper.32.wasm"));
    assert!(!matches64(b"helper.32.wasm"));
    assert!(matches64(b"helper.64.wasm"));
    assert!(!matches32(b"helper.64.wasm"));
}

#[test]
fn other_extensions_never_match() {
    assert!(!matches32(b"helper.txt"));
    assert!(!matches64(b"notes.32.md"));
}

#[test]
fn leading_dot_is_no_extension() {
    assert!(matches32(b".hidden"));
    assert!(matches64(b".hidden"));
}

#[test]
fn tag_extension_without_wasm_is_skipped() {
    assert!(!matches32(b"helper.32"));
    assert!(!matches64(b"helper.64"));
}

#[test]
fn leb_round_trips() {
    for value in [0u32, 1, 127, 128, 624485, u32::MAX] {
        let mut bytes = Vec::new();
        leb_write(&mut bytes, value);
        let len = bytes.len();
        bytes.extend_from_slice(b"tail");
        assert_eq!(leb_read(&bytes, 0, bytes.len()), Some((value, len)));
    }
}

#[test]
fn leb_rejects_more_than_five_bytes() {
    let bytes = vec![0x80u8, 0x80, 0x80, 0x80, 0x80, 0x00];
    assert_eq!(leb_read(&bytes, 0, bytes.len()), None);
}

#[test]
fn leb_rejects_bits_past_the_width() {
    let bytes = vec![0x80u8, 0x80, 0x80, 0x80, 0x10];
    assert_eq!(leb_read(&bytes, 0, bytes.len()), None);
}

#[test]
fn leb_accepts_non_minimal_zero() {
    let bytes = vec![0x80u8, 0x00];
    assert_eq!(leb_read(&bytes, 0, bytes.len()), Some((0, 2)));
}
