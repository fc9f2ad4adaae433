use asm_weaver::archive::resolve_archive;
use asm_weaver::error::WeaveError;
use asm_weaver::weave::archive_jobs;

const SENTINEL: &[u8] = b"js_bindgen.assembly";

fn leb(mut n: u32) -> Vec<u8> {
    let mut out = Vec::new();
    loop {
        if n < 0x80 {
            out.push(n as u8);
            return out;
        }
        out.push((n % 0x80 + 0x80) as u8);
        n /= 0x80;
    }
}

fn custom(name: &[u8], data: &[u8]) -> Vec<u8> {
    let mut content = leb(name.len() as u32);
    content.extend_from_slice(name);
    content.extend_from_slice(data);
    let mut out = vec![0u8];
    out.extend_from_slice(&leb(content.len() as u32));
    out.extend_from_slice(&content);
    out
}

fn module(parts: &[Vec<u8>]) -> Vec<u8> {
    let mut out = vec![0u8, 0x61, 0x73, 0x6d, 1, 0, 0, 0];
    for p in parts {
        out.extend_from_slice(p);
    }
    out
}

fn pad_field(text: &[u8], width: usize) -> Vec<u8> {
    assert!(text.len() <= width);
    let mut out = text.to_vec();
    out.resize(width, b' ');
    out
}

fn member(name: &[u8], data: &[u8]) -> Vec<u8> {
    let mut out = pad_field(name, 16);
    out.extend_from_slice(&pad_field(b"0", 12)); // modification time
    out.extend_from_slice(&pad_field(b"0", 6)); // owner
    out.extend_from_slice(&pad_field(b"0", 6)); // group
    out.extend_from_slice(&pad_field(b"644", 8)); // mode
    out.extend_from_slice(&pad_field(format!("{}", data.len()).as_bytes(), 10));
    out.extend_from_slice(b"`\n");
    out.extend_from_slice(data);
    if data.len() % 2 == 1 {
        out.push(b'\n');
    }
    out
}

fn archive(members: &[Vec<u8>]) -> Vec<u8> {
    let mut out = b"!<arch>\n".to_vec();
    for m in members {
        out.extend_from_slice(m);
    }
    out
}

#[test]
fn resolves_members_in_archive_order() {
    let a = archive(&[member(b"a.o/", b"AA"), member(b"b.o/", b"BBBB")]);
    let members = resolve_archive(&a).unwrap();
    assert_eq!(members.len(), 2);
    assert_eq!(members[0].name, b"a.o");
    assert_eq!(&a[members[0].lo..members[0].hi], b"AA");
    assert_eq!(members[1].name, b"b.o");
    assert_eq!(&a[members[1].lo..members[1].hi], b"BBBB");
}

#[test]
fn resolves_space_padded_names_and_odd_sizes() {
    let a = archive(&[member(b"plain.o", b"XYZ"), member(b"tail.o/", b"Q")]);
    let members = resolve_archive(&a).unwrap();
    assert_eq!(members[0].name, b"plain.o");
    assert_eq!(&a[members[0].lo..members[0].hi], b"XYZ");
    assert_eq!(members[1].name, b"tail.o");
    assert_eq!(&a[members[1].lo..members[1].hi], b"Q");
}

#[test]
fn skips_symbol_table_and_resolves_long_names() {
    let a = archive(&[
        member(b"/", b"\0\0\0\0"),
        member(b"//", b"a_rather_long_member_name.o/\n"),
        member(b"/0", b"DATA"),
    ]);
    let members = resolve_archive(&a).unwrap();
    assert_eq!(members.len(), 1);
    assert_eq!(members[0].name, b"a_rather_long_member_name.o");
    assert_eq!(&a[members[0].lo..members[0].hi], b"DATA");
}

#[test]
fn bad_magic_is_malformed() {
    assert!(matches!(
        resolve_archive(&b"!<arch>x".to_vec()),
        Err(WeaveError::MalformedArchive)
    ));
    assert!(matches!(
        resolve_archive(&b"!<ar".to_vec()),
        Err(WeaveError::MalformedArchive)
    ));
}

#[test]
fn truncated_member_is_malformed() {
    let mut a = archive(&[member(b"a.o/", b"AA")]);
    a.push(b'x');
    assert!(matches!(resolve_archive(&a), Err(WeaveError::MalformedArchive)));
}

#[test]
fn oversized_member_is_malformed() {
    let mut hdr = pad_field(b"a.o/", 16);
    hdr.extend_from_slice(&pad_field(b"0", 12));
    hdr.extend_from_slice(&pad_field(b"0", 6));
    hdr.extend_from_slice(&pad_field(b"0", 6));
    hdr.extend_from_slice(&pad_field(b"644", 8));
    hdr.extend_from_slice(&pad_field(b"99", 10));
    hdr.extend_from_slice(b"`\n");
    hdr.extend_from_slice(b"short");
    let a = archive(&[hdr]);
    assert!(matches!(resolve_archive(&a), Err(WeaveError::MalformedArchive)));
}

#[test]
fn dangling_long_name_is_malformed() {
    let a = archive(&[member(b"/7", b"DATA")]);
    assert!(matches!(resolve_archive(&a), Err(WeaveError::MalformedArchive)));
}

#[test]
fn archive_traversal_yields_one_companion() {
    // Three members; only the second carries a sentinel section with one
    // block. Exactly one job comes out, named after that member's derived
    // path with occurrence index zero.
    let first = module(&[]);
    let second = module(&[custom(SENTINEL, b"nop\n\0")]);
    let third = module(&[custom(b"producers", b"p")]);
    let a = archive(&[
        member(b"a.o/", &first),
        member(b"b.o/", &second),
        member(b"c.o/", &third),
    ]);
    let jobs = archive_jobs(&b"deps/libdemo.rlib".to_vec(), &a).unwrap();
    assert_eq!(jobs.len(), 1);
    assert_eq!(jobs[0].companion, b"deps/b.o.asm.0.o");
    assert_eq!(jobs[0].text, b"nop\n");
}

#[test]
fn archive_member_with_component_encoding_is_fatal() {
    let bad = vec![0u8, 0x61, 0x73, 0x6d, 0x0d, 0, 1, 0];
    let a = archive(&[member(b"a.o/", &bad)]);
    assert!(matches!(
        archive_jobs(&b"libdemo.rlib".to_vec(), &a),
        Err(WeaveError::UnsupportedEncoding)
    ));
}
