use asm_weaver::error::WeaveError;
use asm_weaver::link::{plan_link, InputKind};
use asm_weaver::weave::{
    assembler_args, assembler_failure_note, assembly_failed_message, companion_path,
    linker_invocation, member_source_path,
};

fn args(list: &[&str]) -> Vec<Vec<u8>> {
    list.iter().map(|a| a.as_bytes().to_vec()).collect()
}

#[test]
fn plan_defaults_to_wasm32() {
    let plan = plan_link(&args(&["ld", "-o", "out.wasm"])).unwrap();
    assert_eq!(plan.arch, b"wasm32");
    assert_eq!(plan.output, b"out.wasm");
}

#[test]
fn plan_takes_arch_from_m_flag() {
    let plan = plan_link(&args(&["ld", "-mwasm64", "-o", "out.wasm"])).unwrap();
    assert_eq!(plan.arch, b"wasm64");
}

#[test]
fn plan_skips_m_flag_with_equals() {
    let plan = plan_link(&args(&["ld", "-m=wasm64", "-o", "out.wasm"])).unwrap();
    assert_eq!(plan.arch, b"wasm32");
}

#[test]
fn plan_without_output_path_fails() {
    assert!(matches!(
        plan_link(&args(&["ld", "a.o"])),
        Err(WeaveError::MissingOutputPath)
    ));
    assert!(matches!(
        plan_link(&args(&["ld", "a.o", "-o"])),
        Err(WeaveError::MissingOutputPath)
    ));
}

#[test]
fn plan_collects_inputs_in_order() {
    let plan = plan_link(&args(&[
        "ld",
        "-L/usr/lib",
        "crt.o",
        "libfoo.rlib",
        "libm.so",
        "-o",
        "out.wasm",
        "main.o",
    ]))
    .unwrap();
    let got: Vec<(Vec<u8>, InputKind)> =
        plan.inputs.iter().map(|i| (i.path.clone(), i.kind)).collect();
    assert_eq!(
        got,
        vec![
            (b"crt.o".to_vec(), InputKind::Object),
            (b"libfoo.rlib".to_vec(), InputKind::Archive),
            (b"main.o".to_vec(), InputKind::Object),
        ]
    );
}

#[test]
fn companion_paths_count_from_zero() {
    let src = b"dir/main.o".to_vec();
    assert_eq!(companion_path(&src, 0), b"dir/main.o.asm.0.o");
    assert_eq!(companion_path(&src, 1), b"dir/main.o.asm.1.o");
    assert_eq!(companion_path(&src, 12), b"dir/main.o.asm.12.o");
}

#[test]
fn member_paths_sit_beside_the_archive() {
    assert_eq!(
        member_source_path(&b"deps/libfoo.rlib".to_vec(), &b"foo.o".to_vec()),
        b"deps/foo.o"
    );
    assert_eq!(
        member_source_path(&b"libfoo.rlib".to_vec(), &b"foo.o".to_vec()),
        b"foo.o"
    );
}

#[test]
fn linker_gets_original_args_plus_companions() {
    let a = args(&["ld", "-o", "out.wasm", "main.o"]);
    let companions = args(&["main.o.asm.0.o", "main.o.asm.1.o"]);
    let inv = linker_invocation(&a, &companions);
    assert_eq!(
        inv,
        args(&["-o", "out.wasm", "main.o", "main.o.asm.0.o", "main.o.asm.1.o"])
    );
}

#[test]
fn assembler_command_line_is_fixed() {
    let cmd = assembler_args(&b"wasm32".to_vec());
    assert_eq!(
        cmd,
        args(&[
            "-arch=wasm32",
            "-mattr=+reference-types,+call-indirect-overlong",
            "-filetype=obj",
        ])
    );
}

#[test]
fn failure_note_labels_nonempty_captures() {
    let note = assembler_failure_note(&b"".to_vec(), &b"bad opcode".to_vec());
    assert_eq!(
        note,
        b"------ llvm-mc stderr ------\nbad opcode\n\n".to_vec()
    );
}

#[test]
fn failure_note_keeps_trailing_newline() {
    let note = assembler_failure_note(&b"warning\n".to_vec(), &b"".to_vec());
    assert_eq!(note, b"------ llvm-mc stdout ------\nwarning\n\n".to_vec());
}

#[test]
fn failure_note_orders_stdout_before_stderr() {
    let note = assembler_failure_note(&b"out".to_vec(), &b"err".to_vec());
    assert_eq!(
        note,
        b"------ llvm-mc stdout ------\nout\n\n------ llvm-mc stderr ------\nerr\n\n".to_vec()
    );
}

#[test]
fn failed_message_carries_the_status() {
    let msg = assembly_failed_message(&b"exit status: 1".to_vec());
    assert_eq!(
        msg,
        b"`llvm-mc` process failed with status: exit status: 1\n".to_vec()
    );
}

#[test]
fn plan_takes_the_first_arch_flag() {
    let plan = plan_link(&args(&["ld", "-mwasm64", "-mwasm32", "-o", "out.wasm"])).unwrap();
    assert_eq!(plan.arch, b"wasm64");
}

#[test]
fn plan_takes_the_first_output_flag() {
    let plan = plan_link(&args(&["ld", "-o", "first.wasm", "-o", "second.wasm"])).unwrap();
    assert_eq!(plan.output, b"first.wasm");
}

#[test]
fn bare_m_flag_selects_the_empty_architecture() {
    let plan = plan_link(&args(&["ld", "-m", "-o", "out.wasm"])).unwrap();
    assert_eq!(plan.arch, b"");
}

#[test]
fn an_output_path_ending_in_o_is_scanned_too() {
    // Positional arguments are classed by suffix alone, so an output path
    // named like an object is also picked up for scanning.
    let plan = plan_link(&args(&["ld", "-o", "out.o", "main.o"])).unwrap();
    let paths: Vec<Vec<u8>> = plan.inputs.iter().map(|i| i.path.clone()).collect();
    assert_eq!(paths, vec![b"out.o".to_vec(), b"main.o".to_vec()]);
}
