use mcpu::assembler::{parse, tokenize, Expected, Token};
use mcpu::Emulator;

// ---------------------------------------------------------------------------
// Lexer
// ---------------------------------------------------------------------------

#[test]
fn it_parses() {
    // five tokens: Word(PUSH), Number(0x08), EndOfStatement, Word(ADD),
    // EndOfStatement
    let tokens = tokenize("PUSH 0x8;ADD;").unwrap();
    assert_eq!(tokens.len(), 5);
    assert!(matches!(&tokens[0], Token::Word(0, w) if w == "PUSH"));
    assert!(matches!(&tokens[1], Token::Number(5, 0x08)));
    assert!(matches!(&tokens[2], Token::EOL(8)));
    assert!(matches!(&tokens[3], Token::Word(9, w) if w == "ADD"));
    assert!(matches!(&tokens[4], Token::EOL(12)));
}

#[test]
fn lexes_longer_literals() {
    let tokens = tokenize("0xff 0x00 0x7F;").unwrap();
    assert!(matches!(&tokens[0], Token::Number(0, 0xff)));
    assert!(matches!(&tokens[1], Token::Number(5, 0x00)));
    assert!(matches!(&tokens[2], Token::Number(10, 0x7f)));
    assert!(matches!(&tokens[3], Token::EOL(14)));
    assert_eq!(tokens.len(), 4);
}

#[test]
fn newline_is_rejected() {
    let e = tokenize("PUSH 0x8\nADD\n").unwrap_err();
    assert_eq!(e.position, 8);
    assert_eq!(e.pattern, "\\n");
}

#[test]
fn stray_character_is_rejected() {
    let e = tokenize("a$;").unwrap_err();
    assert_eq!(e.position, 1);
    assert_eq!(e.pattern, "$");
}

#[test]
fn separator_after_hex_prefix_is_rejected() {
    let e = tokenize("0x ;").unwrap_err();
    assert_eq!(e.position, 2);
    assert_eq!(e.pattern, " ");
}

#[test]
fn non_hex_literal_is_rejected() {
    let e = tokenize("0xzz;").unwrap_err();
    assert_eq!(e.position, 0);
    assert_eq!(e.pattern, "zz");
}

#[test]
fn oversized_literal_is_rejected() {
    let e = tokenize("0x100;").unwrap_err();
    assert_eq!(e.position, 0);
    assert_eq!(e.pattern, "100");
}

#[test]
fn separator_closes_an_empty_word() {
    let tokens = tokenize(";").unwrap();
    assert_eq!(tokens.len(), 2);
    assert!(matches!(&tokens[0], Token::Word(0, w) if w.is_empty()));
    assert!(matches!(&tokens[1], Token::EOL(0)));
}

#[test]
fn unterminated_token_is_dropped() {
    let tokens = tokenize("ADD").unwrap();
    assert_eq!(tokens.len(), 0);
}

// ---------------------------------------------------------------------------
// Code generator
// ---------------------------------------------------------------------------

#[test]
fn it_assembles() {
    let tokens = tokenize("PUSH 0x1;PUSH 0x1;ADD;").unwrap();
    let mem = parse(&tokens).unwrap();
    assert_eq!(mem, vec![0x03, 0x01, 0x03, 0x01, 0x05]);
}

#[test]
fn mnemonics_are_case_insensitive() {
    let tokens = tokenize("pUsH 0x2;aDd;XOR;halt;").unwrap();
    let mem = parse(&tokens).unwrap();
    assert_eq!(mem, vec![0x03, 0x02, 0x05, 0x09, 0x00]);
}

#[test]
fn every_plain_mnemonic_has_its_opcode() {
    let tokens = tokenize("HALT;LOAD;STORE;POP;ADD;SUB;AND;OR;XOR;").unwrap();
    let mem = parse(&tokens).unwrap();
    assert_eq!(mem, vec![0x00, 0x01, 0x02, 0x04, 0x05, 0x06, 0x07, 0x08, 0x09]);
}

#[test]
fn dw_binds_labels_to_increasing_addresses() {
    // the two declarations occupy addresses 0 and 1, so the labels must
    // resolve to 0 and 1 in declaration order
    let tokens = tokenize("DW a 0x7;DW b 0x9;PUSH a;PUSH b;HALT;").unwrap();
    let mem = parse(&tokens).unwrap();
    assert_eq!(mem, vec![0x07, 0x09, 0x03, 0x00, 0x03, 0x01, 0x00]);
}

#[test]
fn labels_are_case_sensitive() {
    let tokens = tokenize("DW a 0x7;PUSH A;").unwrap();
    let e = parse(&tokens).unwrap_err();
    assert_eq!(e.expected, Expected::DeclaredLabel);
}

#[test]
fn forward_reference_is_rejected() {
    // x is declared only after the PUSH that references it
    let tokens = tokenize("PUSH x;DW x 0x1;").unwrap();
    let e = parse(&tokens).unwrap_err();
    assert_eq!(e.expected, Expected::DeclaredLabel);
    assert!(matches!(&e.token, Some(Token::Word(5, w)) if w == "x"));
}

#[test]
fn jump_forms_encode_their_condition() {
    let tokens = tokenize("JP;JP gt;JP lt;JP geq;JP leq;JP eq;JP neq;").unwrap();
    let mem = parse(&tokens).unwrap();
    assert_eq!(
        mem,
        vec![0x0A, 0x00, 0x0A, 0x01, 0x0A, 0x02, 0x0A, 0x03, 0x0A, 0x04, 0x0A, 0x05, 0x0A, 0x06]
    );
}

#[test]
fn unknown_condition_is_rejected() {
    let tokens = tokenize("JP never;").unwrap();
    let e = parse(&tokens).unwrap_err();
    assert_eq!(e.expected, Expected::Condition);
    assert!(matches!(&e.token, Some(Token::Word(3, w)) if w == "never"));
}

#[test]
fn unknown_mnemonic_is_rejected() {
    let tokens = tokenize("FOO;").unwrap();
    let e = parse(&tokens).unwrap_err();
    assert_eq!(e.expected, Expected::Mnemonic);
    assert!(matches!(&e.token, Some(Token::Word(0, w)) if w == "FOO"));
}

#[test]
fn statement_must_begin_with_a_word() {
    let tokens = tokenize("0x1;").unwrap();
    let e = parse(&tokens).unwrap_err();
    assert_eq!(e.expected, Expected::Mnemonic);
    assert!(matches!(&e.token, Some(Token::Number(0, 1))));
}

#[test]
fn dw_needs_a_literal_after_its_label() {
    let tokens = tokenize("DW a;").unwrap();
    let e = parse(&tokens).unwrap_err();
    assert_eq!(e.expected, Expected::Number);
    assert!(matches!(&e.token, Some(Token::EOL(4))));
}

#[test]
fn statement_must_end_after_its_operands() {
    let tokens = tokenize("DW a 0x1 0x2;").unwrap();
    let e = parse(&tokens).unwrap_err();
    assert_eq!(e.expected, Expected::EndOfStatement);
    assert!(matches!(&e.token, Some(Token::Number(9, 2))));
}

#[test]
fn input_may_not_end_inside_a_statement() {
    // the unterminated `a` is dropped by the lexer, so the token sequence
    // ends right after the mnemonic
    let tokens = tokenize("DW a").unwrap();
    assert_eq!(tokens.len(), 1);
    let e = parse(&tokens).unwrap_err();
    assert_eq!(e.expected, Expected::Operand);
    assert!(e.token.is_none());
}

#[test]
fn push_needs_an_operand() {
    let tokens = tokenize("PUSH;").unwrap();
    let e = parse(&tokens).unwrap_err();
    assert_eq!(e.expected, Expected::Operand);
    assert!(matches!(&e.token, Some(Token::EOL(4))));
}

#[test]
fn lone_zero_at_end_of_input_is_dropped() {
    // a `0` with no `x` after it begins an ordinary word, which the end of
    // the input then drops
    let tokens = tokenize("0").unwrap();
    assert_eq!(tokens.len(), 0);
    let tokens = tokenize("0abc;").unwrap();
    assert!(matches!(&tokens[0], Token::Word(0, w) if w == "0abc"));
}

#[test]
fn program_larger_than_memory_is_rejected() {
    // 128 PUSH statements emit 256 bytes and fill memory exactly; one more
    // statement does not fit
    let mut source = String::new();
    for _ in 0..128 {
        source.push_str("PUSH 0x1;");
    }
    let tokens = tokenize(&source).unwrap();
    assert_eq!(parse(&tokens).unwrap().len(), 256);

    source.push_str("ADD;");
    let tokens = tokenize(&source).unwrap();
    let e = parse(&tokens).unwrap_err();
    assert_eq!(e.expected, Expected::Capacity);
    assert!(matches!(&e.token, Some(Token::Word(_, w)) if w == "ADD"));
}

// ---------------------------------------------------------------------------
// Execution engine
// ---------------------------------------------------------------------------

#[test]
fn it_adds() {
    // PUSH 1, PUSH 1, ADD, HALT leaves 2 one below the final stack pointer
    let mut emu = Emulator::new();
    emu.load(&[0x03, 0x01, 0x03, 0x01, 0x05, 0x00]);
    emu.reset();
    emu.run();
    let sp = emu.read(254) as usize;
    assert_eq!(emu.read(sp + 1), 2);
}

#[test]
fn fresh_machine_is_zeroed_with_registers_initialized() {
    let emu = Emulator::new();
    assert!(emu.running);
    assert_eq!(emu.read(255), 0);
    assert_eq!(emu.read(254), 253);
    for pos in 0..254 {
        assert_eq!(emu.read(pos), 0);
    }
}

#[test]
fn write_and_read_are_uniform_over_all_cells() {
    let mut emu = Emulator::new();
    emu.write(7, 0xab);
    assert_eq!(emu.read(7), 0xab);
    // the reserved registers are ordinary addresses
    emu.write(255, 0x10);
    assert_eq!(emu.read(255), 0x10);
}

#[test]
fn add_wraps_as_signed_bytes() {
    // 127 + 1 wraps to -128 (0x80)
    let mut emu = Emulator::new();
    emu.load(&[0x03, 0x7f, 0x03, 0x01, 0x05, 0x00]);
    emu.run();
    let sp = emu.read(254) as usize;
    assert_eq!(emu.read(sp + 1), 0x80);
}

fn add_sub_round_trip(a: u8, b: u8) -> u8 {
    // push a, push b, ADD, push b, SUB
    let mut emu = Emulator::new();
    emu.load(&[0x03, a, 0x03, b, 0x05, 0x03, b, 0x06, 0x00]);
    emu.run();
    let sp = emu.read(254) as usize;
    emu.read(sp + 1)
}

#[test]
fn add_then_sub_of_same_operand_round_trips() {
    // wraparound honored at the boundaries around -128 and 127
    for &(a, b) in
        &[(5u8, 7u8), (0x80, 0x01), (0x7f, 0x7f), (0xff, 0xff), (200, 100), (0, 0)]
    {
        assert_eq!(add_sub_round_trip(a, b), a);
    }
}

#[test]
fn bitwise_ops_use_unsigned_bytes() {
    for &(op, expect) in &[(0x07u8, 0b1000u8), (0x08, 0b1110), (0x09, 0b0110)] {
        let mut emu = Emulator::new();
        emu.load(&[0x03, 0b1100, 0x03, 0b1010, op, 0x00]);
        emu.run();
        let sp = emu.read(254) as usize;
        assert_eq!(emu.read(sp + 1), expect);
    }
}

/// Runs `PUSH v; PUSH 0x9; JP cond` against a target whose code pushes a
/// marker byte; reports whether the jump was taken.
fn jump_taken(cond_source: &str, v: u8) -> bool {
    let source = format!(
        "PUSH {};PUSH 0x9;{};HALT;DW 0x0;DW 0x0;DW 0x0;PUSH 0xaa;HALT;",
        format!("0x{:x}", v),
        cond_source
    );
    let tokens = tokenize(&source).unwrap();
    let mem = parse(&tokens).unwrap();
    let mut emu = Emulator::new();
    emu.load(&mem);
    emu.run();
    // the jump lands just past the filler bytes, on code that pushes a
    // marker; the marker is on top of the stack iff the jump was taken
    let sp = emu.read(254) as usize;
    emu.read(sp + 1) == 0xaa
}

#[test]
fn jp_eq_jumps_iff_popped_value_is_zero() {
    assert!(jump_taken("JP eq", 0));
    assert!(!jump_taken("JP eq", 5));
}

#[test]
fn jp_neq_jumps_iff_popped_value_is_nonzero() {
    assert!(jump_taken("JP neq", 5));
    assert!(!jump_taken("JP neq", 0));
}

#[test]
fn jp_unconditional_always_jumps() {
    assert!(jump_taken("JP", 5));
    assert!(jump_taken("JP", 0));
}

#[test]
fn jp_gt_and_lt_compare_signed() {
    // 0xff is -1 as a signed byte
    assert!(jump_taken("JP lt", 0xff));
    assert!(!jump_taken("JP gt", 0xff));
    assert!(jump_taken("JP gt", 1));
    assert!(jump_taken("JP geq", 0));
    assert!(!jump_taken("JP leq", 1));
}

#[test]
fn unrecognized_opcode_is_a_silent_no_op() {
    let mut emu = Emulator::new();
    emu.load(&[0x3f, 0x3f, 0x00]);
    emu.run();
    assert!(!emu.running);
    assert_eq!(emu.read(255), 3);
}

#[test]
fn step_does_nothing_once_halted() {
    let mut emu = Emulator::new();
    emu.load(&[0x00]);
    emu.step();
    assert!(!emu.running);
    let pc = emu.read(255);
    emu.step();
    assert_eq!(emu.read(255), pc);
}

#[test]
fn early_halt_stops_the_run() {
    let mut emu = Emulator::new();
    emu.early_halt();
    assert!(!emu.running);
    emu.load(&[0x03, 0x01, 0x00]);
    // a halted machine ignores step
    emu.step();
    assert_eq!(emu.read(255), 0);
}

#[test]
fn reset_after_run_restores_registers_but_not_memory() {
    let program = [0x03, 0x01, 0x03, 0x01, 0x05, 0x00];
    let mut emu = Emulator::new();
    emu.load(&program);
    emu.reset();
    emu.run();
    assert!(!emu.running);
    emu.reset();
    assert!(emu.running);
    assert_eq!(emu.read(255), 0);
    assert_eq!(emu.read(254), 253);
    for (pos, byte) in program.iter().enumerate() {
        assert_eq!(emu.read(pos), *byte);
    }
}

#[test]
fn assembled_countdown_loop_runs_to_completion() {
    // sums 10 + 9 + ... + 1 into `sum` by decrementing `i` and jumping back
    // while it is nonzero; the jump target 5 resumes execution at 6
    let source = "PUSH 0x5;JP;DW sum 0x0;DW i 0xa;PUSH i;LOAD;PUSH sum;LOAD;ADD;\
PUSH sum;STORE;PUSH i;LOAD;PUSH 0x1;SUB;PUSH i;STORE;PUSH i;LOAD;PUSH 0x5;JP neq;\
PUSH sum;LOAD;HALT;";
    let tokens = tokenize(source).unwrap();
    let mem = parse(&tokens).unwrap();
    let mut emu = Emulator::new();
    emu.load(&mem);
    emu.run();
    // sum lives at address 4, i at address 5
    assert_eq!(emu.read(4), 55);
    assert_eq!(emu.read(5), 0);
    let sp = emu.read(254) as usize;
    assert_eq!(emu.read(sp + 1), 55);
}
