use asm_weaver::error::WeaveError;
use asm_weaver::link::plan_link;
use asm_weaver::normalize::normalize;
use asm_weaver::scan::{scan, Section};
use asm_weaver::weave::{assemble_jobs, linker_invocation};

const SENTINEL: &[u8] = b"js_bindgen.assembly";

fn leb(mut n: u32) -> Vec<u8> {
    let mut out = Vec::new();
    loop {
        if n < 0x80 {
            out.push(n as u8);
            return out;
        }
        out.push((n % 0x80 + 0x80) as u8);
        n /= 0x80;
    }
}

fn section(id: u8, content: &[u8]) -> Vec<u8> {
    let mut out = vec![id];
    out.extend_from_slice(&leb(content.len() as u32));
    out.extend_from_slice(content);
    out
}

fn custom(name: &[u8], data: &[u8]) -> Vec<u8> {
    let mut content = leb(name.len() as u32);
    content.extend_from_slice(name);
    content.extend_from_slice(data);
    section(0, &content)
}

fn module(parts: &[Vec<u8>]) -> Vec<u8> {
    let mut out = vec![0u8, 0x61, 0x73, 0x6d, 1, 0, 0, 0];
    for p in parts {
        out.extend_from_slice(p);
    }
    out
}

fn args(list: &[&str]) -> Vec<Vec<u8>> {
    list.iter().map(|a| a.as_bytes().to_vec()).collect()
}

#[test]
fn two_blocks_make_two_numbered_jobs() {
    // One object with one sentinel section holding two blocks produces two
    // companion objects, `F.asm.0.o` and `F.asm.1.o`, in block order.
    let object = module(&[custom(SENTINEL, b"nop\n\0nop\nnop\n\0"), section(10, b"code")]);
    let jobs = assemble_jobs(&b"main.o".to_vec(), &object).unwrap();
    assert_eq!(jobs.len(), 2);
    assert_eq!(jobs[0].companion, b"main.o.asm.0.o");
    assert_eq!(jobs[0].text, b"nop\n");
    assert_eq!(jobs[1].companion, b"main.o.asm.1.o");
    assert_eq!(jobs[1].text, b"nop\nnop\n");
}

#[test]
fn end_to_end_plan_and_normalization() {
    // The whole decision side of a run: plan the invocation, derive the
    // jobs, hand the linker the original arguments plus both companion
    // paths, and normalize the linked artifact down to zero sentinel
    // sections behind a canonical header.
    let vector = args(&["ld", "-mwasm32", "-o", "out.wasm", "main.o"]);
    let plan = plan_link(&vector).unwrap();
    assert_eq!(plan.arch, b"wasm32");
    assert_eq!(plan.inputs.len(), 1);
    assert_eq!(plan.inputs[0].path, b"main.o");

    let object = module(&[custom(SENTINEL, b"nop\n\0nop\nnop\n\0")]);
    let jobs = assemble_jobs(&plan.inputs[0].path, &object).unwrap();
    let companions: Vec<Vec<u8>> = jobs.iter().map(|j| j.companion.clone()).collect();
    let invocation = linker_invocation(&vector, &companions);
    assert_eq!(
        invocation,
        args(&[
            "-mwasm32",
            "-o",
            "out.wasm",
            "main.o",
            "main.o.asm.0.o",
            "main.o.asm.1.o",
        ])
    );

    // What the linker wrote still carries the sentinel sections.
    let artifact = module(&[
        section(10, b"linked code"),
        custom(SENTINEL, b"nop\n\0"),
        custom(b"name", b"n"),
    ]);
    let normalized = normalize(&artifact).unwrap();
    assert_eq!(&normalized[0..8], &[0u8, 0x61, 0x73, 0x6d, 1, 0, 0, 0]);
    for sec in scan(&normalized).unwrap() {
        if let Section::Custom { name_lo, name_hi, .. } = sec {
            assert_ne!(&normalized[name_lo..name_hi], SENTINEL);
        }
    }
}

#[test]
fn no_companion_for_a_failing_block() {
    // An invalid block never yields a companion: the assembler's verdict
    // decides, and a failed scan of the object aborts before any job.
    let malformed = vec![0u8, 0x61, 0x73, 0x6d, 1, 0, 0, 0, 10, 5];
    assert!(matches!(
        assemble_jobs(&b"main.o".to_vec(), &malformed),
        Err(WeaveError::MalformedContainer)
    ));
}

#[test]
fn sources_number_blocks_independently() {
    let one = module(&[custom(SENTINEL, b"a\0b\0")]);
    let two = module(&[custom(SENTINEL, b"c\0")]);
    let jobs_one = assemble_jobs(&b"x.o".to_vec(), &one).unwrap();
    let jobs_two = assemble_jobs(&b"y.o".to_vec(), &two).unwrap();
    assert_eq!(jobs_one[1].companion, b"x.o.asm.1.o");
    assert_eq!(jobs_two[0].companion, b"y.o.asm.0.o");
}
