use bitbybit::assembler::{assemble_sap1, assemble_sap2};
use bitbybit::cpu_sap2::Sap2;
use bitbybit::utils::bits_to_int;

#[test]
fn test_assembles_every_mnemonic() {
    assert_eq!(
        assemble_sap1("NOP\nLDA 0xE\nADD 14\nSUB 3\nSTA 4\nLDI 5\nJMP 6\nJZ 7\nJC 8\nHLT"),
        Ok(vec![
            0x00, 0x1E, 0x2E, 0x33, 0x44, 0x55, 0x66, 0x77, 0x88, 0xF0
        ])
    );
}

#[test]
fn asm_test_assembles_every_mnemonic() {
    assert_eq!(
        assemble_sap2(
            "NOP\nLDA 0x0010\nSTA 16\nMVIA 1\nMVIB 2\nADD B\nSUB\nANA B\nORA B\n\
             XRA B\nCMA\nINRA\nDCRA\nIN\nOUT\nJMP 6\nJZ 7\nJNZ 8\nJM 9\n\
             CALL 0x0100\nRET\nPSHA\nPOPA\nHLT\nDB 0xFF"
        ),
        Ok(vec![
            0x00, 0x10, 0x10, 0x00, 0x20, 0x10, 0x00, 0x30, 0x01, 0x40, 0x02, 0x50, 0x51, 0x52,
            0x53, 0x54, 0x55, 0x56, 0x57, 0x60, 0x61, 0x70, 0x06, 0x00, 0x80, 0x07, 0x00, 0x90,
            0x08, 0x00, 0xA0, 0x09, 0x00, 0xB0, 0x00, 0x01, 0xC0, 0xC1, 0xC2, 0xF0, 0xFF,
        ])
    );
}

#[test]
fn test_comments_blanks_case_and_db() {
    assert_eq!(
        assemble_sap1("; full line\n\n  ldi 10 ; trailing\nDB 0x01 2"),
        Ok(vec![0x5A, 0x01, 0x02])
    );
}

#[test]
fn test_rejects_bad_lines() {
    assert!(assemble_sap1("LDA").is_err());
    assert!(assemble_sap1("LDA 16").is_err());
    assert!(assemble_sap1("FOO").is_err());
}

#[test]
fn asm_test_rejects_bad_lines() {
    assert!(assemble_sap2("MVIA").is_err());
    assert!(assemble_sap2("LDA 0x10000").is_err());
    assert!(assemble_sap2("ADD C").is_err());
    assert!(assemble_sap2("FOO").is_err());
}

#[test]
fn test_assembled_program_runs() {
    let program = assemble_sap2("MVIB 3\nMVIA 5\nADD B\nHLT").expect("assembly failed");
    let mut cpu = Sap2::default();
    cpu.load_program(&program).expect("load failed");
    cpu.run(100).expect("run failed");
    assert!(cpu.halted());
    assert_eq!(bits_to_int(&cpu.out(), false), 8);
}

#[test]
fn an_assembled_stack_program_runs() {
    let source = "\
        MVIA 3      ; 0: push 3\n\
        PSHA        ; 2\n\
        MVIA 0      ; 3: lose it\n\
        POPA        ; 5: and pop it again\n\
        CALL 10     ; 6: add one in a subroutine\n\
        HLT         ; 9\n\
        INRA        ; 10\n\
        RET         ; 11";
    let program = assemble_sap2(source).expect("assembly failed");
    let mut cpu = Sap2::default();
    cpu.load_program(&program).expect("load failed");
    cpu.run(200).expect("run failed");
    assert!(cpu.halted());
    assert_eq!(bits_to_int(&cpu.out(), false), 4);
    assert_eq!(cpu.pc_value(), 10);
}

#[test]
fn errors_name_the_line_and_the_cause() {
    let sap1 = |source: &str| assemble_sap1(source).expect_err("must fail");
    assert_eq!(sap1("NOP\n\nlda"), "line 3: one address expected");
    assert_eq!(sap1("LDA 16"), "line 1: address out of range `16`");
    assert_eq!(sap1("LDA x"), "line 1: bad number `x`");
    assert_eq!(sap1("DB"), "line 1: DB needs at least one byte");
    assert_eq!(sap1("DB 1 256"), "line 1: byte out of range `256`");
    assert_eq!(sap1("mvia 1"), "line 1: unknown instruction `MVIA`");

    let sap2 = |source: &str| assemble_sap2(source).expect_err("must fail");
    assert_eq!(sap2("MVIA"), "line 1: `MVIA` takes one byte");
    assert_eq!(sap2("mvib 300"), "line 1: byte out of range `300`");
    assert_eq!(sap2("CALL 1 2"), "line 1: `CALL` takes one address");
    assert_eq!(sap2("JMP 0x1G"), "line 1: bad number `0x1G`");
    assert_eq!(sap2("out C"), "line 1: `OUT` takes `B` or nothing");
    assert_eq!(sap2("\n\n\n\n\n\n\n\n\nFoo-1"), "line 10: unknown instruction `FOO-1`");
    assert_eq!(sap2("DB -1"), "line 1: bad number `-1`");
}

#[test]
fn the_first_bad_line_is_reported() {
    assert_eq!(
        assemble_sap2("NOP\nFOO\nBAR"),
        Err("line 2: unknown instruction `FOO`".to_string())
    );
}

#[test]
fn numbers_are_decimal_or_hexadecimal() {
    assert_eq!(
        assemble_sap2("DB 007 +9 0xfF 0X1a 0x+2 255"),
        Ok(vec![7, 9, 255, 26, 2, 255])
    );
    assert_eq!(assemble_sap2("LDA 65535"), Ok(vec![0x10, 0xFF, 0xFF]));
    assert!(assemble_sap2("LDA 65536").is_err());
    assert!(assemble_sap2("DB 0x").is_err());
    assert!(assemble_sap2("DB +").is_err());
}

#[test]
fn white_space_and_comments_do_not_matter() {
    let plain = assemble_sap2("MVIA 5\nADD B\nHLT");
    assert_eq!(
        assemble_sap2("\tmvia\u{a0}5;MVIA 6\r\n\n ; only this\n add b ; sum\nhlt;\n"),
        plain
    );
    assert_eq!(assemble_sap2(""), Ok(vec![]));
    assert_eq!(assemble_sap1(" ; \n\n"), Ok(vec![]));
}

#[test]
fn idle_instructions_take_no_notice_of_operands() {
    assert_eq!(assemble_sap1("NOP 1 2\nHLT x"), Ok(vec![0x00, 0xF0]));
    assert_eq!(assemble_sap2("NOP 1 2\nHLT x"), Ok(vec![0x00, 0xF0]));
}
