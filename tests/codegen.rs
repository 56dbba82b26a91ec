use bfjit::{compile, get_32bit_offset, load, parse, run_with_ptr, Buff, Command, CompileError};

const PTR: u64 = 0x1122_3344_5566_7788;

fn prologue() -> Vec<u8> {
    vec![0x41, 0x55, 0x49, 0xbd, 0x88, 0x77, 0x66, 0x55, 0x44, 0x33, 0x22, 0x11]
}

fn epilogue() -> Vec<u8> {
    vec![0x4c, 0x89, 0xe8, 0x41, 0x5d, 0xc3]
}

fn write_setup() -> Vec<u8> {
    vec![
        0x48, 0xC7, 0xC7, 0x01, 0x00, 0x00, 0x00, 0x4C, 0x89, 0xEE, 0x48, 0xC7, 0xC2, 0x01, 0x00,
        0x00, 0x00,
    ]
}

fn write_call() -> Vec<u8> {
    vec![0x48, 0xC7, 0xC0, 0x01, 0x00, 0x00, 0x00, 0x0F, 0x05]
}

fn routine(body: &[u8]) -> Vec<u8> {
    let mut v = prologue();
    v.extend_from_slice(body);
    v.extend_from_slice(&epilogue());
    v
}

/// The bytes of a source that compiles in full.
fn code(src: &str) -> Vec<u8> {
    let t = compile(src, PTR).unwrap();
    assert_eq!(t.report, None);
    t.code
}

#[test]
fn backward_displacement_is_negative_distance() {
    assert_eq!(get_32bit_offset(10, 4), 0xFFFF_FFFA);
    assert_eq!(get_32bit_offset(10, 4) as i32, -6);
}

#[test]
fn forward_displacement_is_distance() {
    assert_eq!(get_32bit_offset(4, 10), 6);
    assert_eq!(get_32bit_offset(7, 7), 0);
}

#[test]
fn routine_saves_and_restores_r13() {
    let c = code("");
    assert_eq!(c, routine(&[]));
    assert_eq!(&c[0..2], &[0x41, 0x55]);
    assert_eq!(&c[c.len() - 3..], &[0x41, 0x5d, 0xc3]);
}

#[test]
fn increment_folds_into_one_instruction() {
    assert_eq!(code("+++"), routine(&[0x41, 0x80, 0x45, 0x00, 3]));
}

#[test]
fn decrement_count_is_taken_modulo_256() {
    let mut buff = Buff::new();
    assert_eq!(buff.encode(vec![Command::Decrement(300)], PTR), Ok(()));
    assert_eq!(buff.data, routine(&[0x41, 0x80, 0x6D, 0x00, 44]));
}

#[test]
fn short_moves_use_an_eight_bit_immediate() {
    assert_eq!(code(">>><"), routine(&[0x49, 0x83, 0xC5, 3, 0x49, 0x83, 0xED, 1]));
    assert_eq!(code(&">".repeat(127)), routine(&[0x49, 0x83, 0xC5, 0x7F]));
}

#[test]
fn moves_past_127_use_a_thirty_two_bit_immediate() {
    // an 8-bit immediate is sign-extended: 128 and up would move backwards
    assert_eq!(code(&">".repeat(128)), routine(&[0x49, 0x81, 0xC5, 0x80, 0x00, 0x00, 0x00]));
    assert_eq!(code(&"<".repeat(200)), routine(&[0x49, 0x81, 0xED, 0xC8, 0x00, 0x00, 0x00]));
}

#[test]
fn long_moves_use_a_thirty_two_bit_immediate() {
    assert_eq!(code(&">".repeat(300)), routine(&[0x49, 0x81, 0xC5, 0x2C, 0x01, 0x00, 0x00]));
    let mut buff = Buff::new();
    assert_eq!(buff.encode(vec![Command::MoveLeft(256)], PTR), Ok(()));
    assert_eq!(buff.data, routine(&[0x49, 0x81, 0xED, 0x00, 0x01, 0x00, 0x00]));
}

#[test]
fn sixty_five_plus_then_dot_writes_one_byte() {
    let src = format!("{}.", "+".repeat(65));
    let mut body = vec![0x41, 0x80, 0x45, 0x00, 65];
    body.extend_from_slice(&write_setup());
    body.extend_from_slice(&write_call());
    let c = code(&src);
    assert_eq!(c, routine(&body));
    assert_eq!(c.windows(2).filter(|w| w == &[0x0F, 0x05]).count(), 1);
}

#[test]
fn output_run_selects_write_before_each_system_call() {
    let mut body = write_setup();
    for _ in 0..3 {
        body.extend_from_slice(&write_call());
    }
    assert_eq!(code("..."), routine(&body));
}

#[test]
fn each_comma_is_one_read() {
    let read = vec![
        0x48, 0xC7, 0xC7, 0x00, 0x00, 0x00, 0x00, 0x4C, 0x89, 0xEE, 0x48, 0xC7, 0xC2, 0x01, 0x00,
        0x00, 0x00, 0x48, 0xC7, 0xC0, 0x00, 0x00, 0x00, 0x00, 0x0F, 0x05,
    ];
    let mut body = read.clone();
    body.extend_from_slice(&read);
    assert_eq!(code(",,"), routine(&body));
}

#[test]
fn clear_loop_branches_are_backpatched() {
    // [ at 12: cmp 12..17, jz 17..19, displacement 19..23
    // - at 23..28
    // ] at 28: cmp 28..33, jnz 33..35, displacement 35..39
    let body = [
        0x41, 0x80, 0x7D, 0x00, 0x00, 0x0F, 0x84, 0x10, 0x00, 0x00, 0x00, // jz +16 to 39
        0x41, 0x80, 0x6D, 0x00, 0x01, // sub byte [r13], 1
        0x41, 0x80, 0x7D, 0x00, 0x00, 0x0F, 0x85, 0xEA, 0xFF, 0xFF, 0xFF, // jnz -22 to 17
    ];
    assert_eq!(code("[-]"), routine(&body));
}

#[test]
fn nested_loops_pair_innermost_first() {
    let c = code("[[]]");
    // outer [ at 12, inner [ at 23, inner ] at 34, outer ] at 45, end 56
    assert_eq!(&c[19..23], &get_32bit_offset(23, 56).to_le_bytes());
    assert_eq!(&c[30..34], &get_32bit_offset(34, 45).to_le_bytes());
    assert_eq!(&c[41..45], &get_32bit_offset(45, 28).to_le_bytes());
    assert_eq!(&c[52..56], &get_32bit_offset(56, 17).to_le_bytes());
    assert_eq!(c.len(), 62);
}

#[test]
fn lone_loop_end_is_unmatched() {
    let t = compile("]", PTR).unwrap();
    assert_eq!(t.report, Some(CompileError::UnmatchedLoopEnd { position: 0 }));
    assert_eq!(t.code, routine(&[]));
    let t = compile("+ comment ]", PTR).unwrap();
    assert_eq!(t.report, Some(CompileError::UnmatchedLoopEnd { position: 1 }));
}

#[test]
fn stray_loop_end_keeps_the_routine_before_it() {
    let t = compile("+]+>", PTR).unwrap();
    assert_eq!(t.report, Some(CompileError::UnmatchedLoopEnd { position: 1 }));
    assert_eq!(t.code, routine(&[0x41, 0x80, 0x45, 0x00, 1]));
}

#[test]
fn lone_loop_start_is_unterminated() {
    assert_eq!(compile("[", PTR).err(), Some(CompileError::UnterminatedLoop { position: 17 }));
    assert_eq!(compile("[[]", PTR).err(), Some(CompileError::UnterminatedLoop { position: 17 }));
}

#[test]
fn generator_stops_at_unmatched_loop_end() {
    let mut buff = Buff::new();
    let r = buff.encode(
        vec![Command::Increment(1), Command::LoopEnd, Command::Increment(2)],
        PTR,
    );
    assert_eq!(r, Err(CompileError::UnmatchedLoopEnd { position: 17 }));
    assert_eq!(buff.data, routine(&[0x41, 0x80, 0x45, 0x00, 1]));
    assert!(buff.jmp_stack.is_empty());
}

#[test]
fn generator_reports_open_loop_after_epilogue() {
    let mut buff = Buff::new();
    let r = buff.encode(vec![Command::LoopStart], PTR);
    assert_eq!(r, Err(CompileError::UnterminatedLoop { position: 17 }));
    assert_eq!(buff.data, routine(&[0x41, 0x80, 0x7D, 0x00, 0x00, 0x0F, 0x84, 0, 0, 0, 0]));
    assert_eq!(buff.jmp_stack, vec![17]);
}

#[test]
fn balanced_loops_leave_no_open_branch() {
    let mut buff = Buff::new();
    let cmds = vec![
        Command::LoopStart,
        Command::LoopStart,
        Command::LoopEnd,
        Command::Decrement(1),
        Command::LoopEnd,
    ];
    assert_eq!(buff.encode(cmds, PTR), Ok(()));
    assert!(buff.jmp_stack.is_empty());
}

#[test]
fn oversized_move_is_refused() {
    let r = run_with_ptr(vec![Command::MoveRight(0x8000_0000)], PTR);
    assert_eq!(r.err(), Some(CompileError::ProgramTooLarge));
}

#[test]
fn loaded_region_holds_the_compiled_bytes() {
    let c = code("+[->+<]");
    let r = load("+[->+<]", PTR).unwrap();
    assert_eq!(r.report, None);
    assert_eq!(r.program.as_slice(), &c[..]);
    assert_ne!(r.program.as_slice(), &prologue()[..]);
}

#[test]
fn run_with_ptr_maps_the_translation() {
    let (cmds, unmatched) = parse("++>.");
    assert_eq!(unmatched, None);
    let r = run_with_ptr(cmds, PTR).unwrap();
    assert_eq!(r.report, None);
    assert_eq!(r.program.as_slice(), &code("++>.")[..]);
}

#[test]
fn run_with_ptr_maps_a_truncated_routine() {
    let r = run_with_ptr(vec![Command::LoopEnd, Command::MoveRight(1)], PTR).unwrap();
    assert_eq!(r.report, Some(CompileError::UnmatchedLoopEnd { position: 12 }));
    assert_eq!(r.program.as_slice(), &routine(&[])[..]);
}

#[test]
fn run_with_ptr_refuses_open_loop() {
    let r = run_with_ptr(vec![Command::LoopStart, Command::Increment(1)], PTR);
    assert_eq!(r.err(), Some(CompileError::UnterminatedLoop { position: 17 }));
}

#[test]
fn folded_run_adds_its_length_at_once() {
    assert_eq!(code("+++++"), routine(&[0x41, 0x80, 0x45, 0x00, 5]));
    assert_eq!(code("+"), routine(&[0x41, 0x80, 0x45, 0x00, 1]));
}

#[test]
fn increment_run_wraps_modulo_256() {
    assert_eq!(code(&"+".repeat(259)), routine(&[0x41, 0x80, 0x45, 0x00, 3]));
}
