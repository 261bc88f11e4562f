use bitbybit::cpu_sap2::{
    ControlUnit, InstructionDecoder, Sap2, Sequencer, INSTRUCTION_COUNT, IN_ADD, IN_ANA, IN_CALL,
    IN_CMA, IN_DCRA, IN_HLT, IN_IN, IN_INRA, IN_JM, IN_JMP, IN_JNZ, IN_JZ, IN_LDA, IN_MVIA, IN_MVIB,
    IN_NOP, IN_ORA, IN_OUT, IN_POPA, IN_PSHA, IN_RET, IN_STA, IN_SUB, IN_XRA, LN_ACC_IN, LN_ACC_OUT,
    LN_ALU_OUT, LN_FLAGS_IN, LN_IN_ENABLE, LN_IR_IN, LN_MAR_ENABLE, LN_MAR_HI_IN, LN_MAR_IN,
    LN_MAR_LO_IN, LN_MEM_READ, LN_MEM_WRITE, LN_OP0, LN_OP1, LN_OP2, LN_PC_COUNT, LN_PC_ENABLE,
    LN_PC_LOAD, LN_PC_OUT_HI, LN_PC_OUT_LO, LN_PC_SAVE_HI, LN_PC_SAVE_LO, LN_SEQ_RESET,
    LN_SP_COUNT_DOWN, LN_SP_COUNT_UP, LN_SP_ENABLE,
};
use bitbybit::hardware::Bit::{self, High, Low};
use bitbybit::hardware::{Component, HardwareError, Propagate};
use bitbybit::utils::{bits_to_int, int_to_bits};

fn pulse(seq: &mut Sequencer, reset: Bit) -> Vec<Bit> {
    let mut run = |clock: Bit| seq.compute(&[clock, reset]).expect("tick failed");

    run(Low);
    run(High);
    // The settle tick decodes the freshly captured state.
    run(Low)
}

/// Run the control unit for one micro-state and return the list
/// of High control lines.
fn lines(unit: &mut ControlUnit, t: usize, opcode: u8, zero: Bit, sign: Bit) -> Vec<usize> {
    let mut decoder = InstructionDecoder::default();
    let mut inputs: Vec<Bit> = vec![Low; 16];
    inputs[t] = High;
    inputs.extend(
        decoder
            .compute(&int_to_bits(opcode))
            .expect("decode failed"),
    );
    inputs.extend([zero, Low, sign]);

    let outputs = unit.compute(&inputs).expect("control unit failed");
    let mut high = outputs
        .iter()
        .enumerate()
        .filter(|(_, line)| **line == High)
        .map(|(index, _)| index)
        .collect::<Vec<usize>>();
    high.sort_unstable();
    high
}

/// (opcode byte, expected instruction line).
const CANONICAL: [(u8, usize); INSTRUCTION_COUNT] = [
    (0x00, IN_NOP),
    (0x10, IN_LDA),
    (0x20, IN_STA),
    (0x30, IN_MVIA),
    (0x40, IN_MVIB),
    (0x50, IN_ADD),
    (0x51, IN_SUB),
    (0x52, IN_ANA),
    (0x53, IN_ORA),
    (0x54, IN_XRA),
    (0x55, IN_CMA),
    (0x56, IN_INRA),
    (0x57, IN_DCRA),
    (0x60, IN_IN),
    (0x61, IN_OUT),
    (0x70, IN_JMP),
    (0x80, IN_JZ),
    (0x90, IN_JNZ),
    (0xA0, IN_JM),
    (0xB0, IN_CALL),
    (0xC0, IN_RET),
    (0xC1, IN_PSHA),
    (0xC2, IN_POPA),
    (0xF0, IN_HLT),
];

fn run_program(program: &[u8], max_steps: usize) -> Sap2 {
    let mut cpu = Sap2::default();
    cpu.load_program(program).expect("load failed");
    cpu.run(max_steps).expect("run failed");
    cpu
}

#[test]
fn test_power_on_state_is_t0() {
    let mut seq = Sequencer::default();
    let outputs = seq.compute(&[Low, Low]).expect("compute failed");
    assert_eq!(outputs[0], High);
    assert_eq!(outputs.iter().filter(|b| **b == High).count(), 1);
}

#[test]
fn test_advances_and_wraps_around() {
    let mut seq = Sequencer::default();

    // From T0, 16 pulses visit T1..T15 then wrap back to T0.
    let mut visited = vec![0];
    for _ in 0..16 {
        let outputs = pulse(&mut seq, Low);
        visited.push(
            outputs
                .iter()
                .position(|b| *b == High)
                .expect("no active T line"),
        );
    }
    let expected: Vec<usize> = (0..17).map(|t| t % 16).collect();
    assert_eq!(visited, expected);
}

#[test]
fn test_reset_reloads_t0() {
    let mut seq = Sequencer::default();

    // Advance to count 3 = binary 0011.
    for _ in 0..3 {
        pulse(&mut seq, Low);
    }
    assert_eq!(seq.state(), [High, High, Low, Low]);

    // A pulse with reset High lands back on T0.
    pulse(&mut seq, High);
    assert_eq!(seq.state(), [Low, Low, Low, Low]);
    let outputs = seq.compute(&[Low, Low]).expect("compute failed");
    assert_eq!(outputs[0], High);
}

#[test]
fn cpu_sap2_test_transistor_count() {
    // 4 x DFlipFlopSave (66) + 4 x HalfAdder (22) + 4 x Mux2x1 (20)
    // + Decoder4to16 (152).
    assert_eq!(Sequencer::default().transistor_count(), 584);
}

#[test]
fn test_transistor_count() {
    assert!(Sap2::default().transistor_count() > 0);
}

/// The two unconditional fetch cycles, common to every opcode.
/// While the PC drives the address bus (T0), the MAR is disabled.
#[test]
fn test_fetch_cycles() {
    let mut unit = ControlUnit::default();

    assert_eq!(
        lines(&mut unit, 0, 0x00, Low, Low),
        vec![LN_PC_ENABLE, LN_MAR_IN, LN_PC_COUNT]
    );
    assert_eq!(
        lines(&mut unit, 1, 0x00, Low, Low),
        vec![LN_MAR_ENABLE, LN_MEM_READ, LN_IR_IN]
    );
}

#[test]
fn test_lda_micro_program() {
    let mut unit = ControlUnit::default();

    assert_eq!(
        lines(&mut unit, 2, 0x10, Low, Low),
        vec![LN_PC_ENABLE, LN_MAR_IN, LN_PC_COUNT]
    );
    assert_eq!(
        lines(&mut unit, 3, 0x10, Low, Low),
        vec![LN_MAR_ENABLE, LN_MAR_LO_IN, LN_MEM_READ]
    );
    assert_eq!(lines(&mut unit, 4, 0x10, Low, Low), vec![LN_MAR_ENABLE]);
    assert_eq!(
        lines(&mut unit, 5, 0x10, Low, Low),
        vec![LN_PC_ENABLE, LN_MAR_HI_IN, LN_PC_COUNT, LN_MEM_READ],
    );
    assert_eq!(
        lines(&mut unit, 6, 0x10, Low, Low),
        vec![LN_MAR_ENABLE, LN_MEM_READ, LN_ACC_IN, LN_SEQ_RESET]
    );
}

#[test]
fn test_alu_operations_drive_the_op_lines() {
    let mut unit = ControlUnit::default();

    // ADD = 000: no op line.
    assert_eq!(
        lines(&mut unit, 2, 0x50, Low, Low),
        vec![
            LN_MAR_ENABLE,
            LN_ACC_IN,
            LN_ALU_OUT,
            LN_FLAGS_IN,
            LN_SEQ_RESET
        ]
    );
    // SUB = 001: op0.
    assert!(lines(&mut unit, 2, 0x51, Low, Low).contains(&LN_OP0));
    // INRA = 110: op2 + op1.
    let inra = lines(&mut unit, 2, 0x56, Low, Low);
    assert!(inra.contains(&LN_OP1) && inra.contains(&LN_OP2) && !inra.contains(&LN_OP0));
    // DCRA = 111: all three.
    let dcra = lines(&mut unit, 2, 0x57, Low, Low);
    assert!(dcra.contains(&LN_OP0) && dcra.contains(&LN_OP1) && dcra.contains(&LN_OP2));
    // CMA = 101: no flags_in.
    assert!(!lines(&mut unit, 2, 0x55, Low, Low).contains(&LN_FLAGS_IN));
}

#[test]
fn test_conditional_jumps_obey_the_flags() {
    let mut unit = ControlUnit::default();

    // JZ taken (zero High) and not taken (zero Low).
    assert_eq!(
        lines(&mut unit, 6, 0x80, High, Low),
        vec![LN_MAR_ENABLE, LN_PC_LOAD, LN_SEQ_RESET]
    );
    assert_eq!(lines(&mut unit, 6, 0x80, Low, Low), vec![LN_MAR_ENABLE]);

    // JNZ is the complement.
    assert_eq!(lines(&mut unit, 6, 0x90, High, Low), vec![LN_MAR_ENABLE]);
    assert_eq!(
        lines(&mut unit, 6, 0x90, Low, Low),
        vec![LN_MAR_ENABLE, LN_PC_LOAD, LN_SEQ_RESET]
    );

    // JM gates on the sign flag.
    assert_eq!(
        lines(&mut unit, 6, 0xA0, Low, High),
        vec![LN_MAR_ENABLE, LN_PC_LOAD, LN_SEQ_RESET]
    );
    assert_eq!(lines(&mut unit, 6, 0xA0, Low, Low), vec![LN_MAR_ENABLE]);
}

#[test]
fn test_call_micro_program() {
    let mut unit = ControlUnit::default();

    let expected: [Vec<usize>; 10] = [
        vec![LN_PC_ENABLE, LN_MAR_IN, LN_PC_COUNT],
        vec![LN_MAR_ENABLE, LN_MEM_READ, LN_IR_IN],
        vec![LN_PC_ENABLE, LN_MAR_IN, LN_PC_COUNT],
        vec![LN_MAR_ENABLE, LN_MAR_LO_IN, LN_MEM_READ],
        vec![LN_MAR_ENABLE],
        vec![LN_PC_ENABLE, LN_MAR_HI_IN, LN_PC_COUNT, LN_MEM_READ],
        vec![LN_MAR_ENABLE, LN_PC_LOAD],
        vec![LN_SP_ENABLE, LN_MAR_IN],
        vec![LN_MAR_ENABLE, LN_PC_OUT_LO, LN_SP_COUNT_DOWN, LN_MEM_WRITE],
        vec![
            LN_MAR_ENABLE,
            LN_PC_OUT_HI,
            LN_SP_COUNT_DOWN,
            LN_MEM_WRITE,
            LN_SEQ_RESET,
        ],
    ];

    for (t, expected_lines) in expected.iter().enumerate() {
        assert_eq!(
            lines(&mut unit, t, 0xB0, Low, Low),
            *expected_lines,
            "CALL T{t}"
        );
    }
}

#[test]
fn test_undefined_opcodes_only_fetch() {
    let mut unit = ControlUnit::default();

    assert_eq!(lines(&mut unit, 2, 0xD5, Low, Low), vec![LN_MAR_ENABLE]);
    assert_eq!(lines(&mut unit, 9, 0xE7, Low, Low), vec![LN_MAR_ENABLE]);
}

#[test]
fn test_mar_enable_complement() {
    let mut unit = ControlUnit::default();

    // T0: the PC drives the address bus, the MAR must not.
    let mut inputs = vec![Low; 43];
    inputs[0] = High;
    inputs[16] = High;
    let outputs = unit.compute(&inputs).expect("control unit failed");
    assert_eq!(outputs[LN_MAR_ENABLE], Low);

    // T1: nobody else drives it, the MAR does.
    let mut inputs = vec![Low; 43];
    inputs[1] = High;
    inputs[16] = High;
    let outputs = unit.compute(&inputs).expect("control unit failed");
    assert_eq!(outputs[LN_MAR_ENABLE], High);
}

#[test]
fn test_call_micro_program_cycles_through_the_sequencer() {
    let mut sequencer = Sequencer::default();
    let mut decoder = InstructionDecoder::default();
    let mut unit = ControlUnit::default();

    let mut visited = Vec::new();
    let mut resets = Vec::new();

    for _ in 0..14 {
        let t_lines = sequencer.compute(&[Low, Low]).expect("seq failed");
        let t = t_lines
            .iter()
            .position(|b| *b == High)
            .expect("no active T line");
        visited.push(t);

        let mut inputs: Vec<Bit> = t_lines;
        inputs.extend(decoder.compute(&int_to_bits(0xB0)).expect("decode failed"));
        inputs.extend([Low, Low, Low]);

        let control = unit.compute(&inputs).expect("control unit failed");
        if control[LN_SEQ_RESET] == High {
            resets.push(t);
        }

        let reset = control[LN_SEQ_RESET];
        sequencer.compute(&[Low, reset]).expect("low tick failed");
        sequencer.compute(&[High, reset]).expect("high tick failed");
        sequencer
            .compute(&[Low, reset])
            .expect("settle tick failed");
    }

    // T0..T9, then back to T0 for the next fetch.
    assert_eq!(visited[0..10], [0, 1, 2, 3, 4, 5, 6, 7, 8, 9]);
    assert_eq!(visited[10..14], [0, 1, 2, 3]);
    assert_eq!(resets, vec![9]);
}

#[test]
fn test_canonical_opcodes_decode_one_hot() {
    let mut decoder = InstructionDecoder::default();

    for (opcode, expected_line) in CANONICAL {
        let outputs = decoder
            .compute(&int_to_bits(opcode))
            .expect("decode failed");

        for (line, output) in outputs.iter().enumerate() {
            let expected = if line == expected_line {
                Bit::High
            } else {
                Bit::Low
            };
            assert_eq!(
                *output, expected,
                "opcode {opcode:#04x}: line {line} should be {expected:?}"
            );
        }
    }
}

#[test]
fn test_dont_care_low_nibble_still_decodes() {
    let mut decoder = InstructionDecoder::default();

    // LDA is 0x1----: every low nibble decodes to LDA.
    for low in 0..16_u8 {
        let outputs = decoder
            .compute(&int_to_bits(0x10 | low))
            .expect("decode failed");
        assert_eq!(outputs[IN_LDA], Bit::High, "0x1{low:x} should be LDA");
    }
}

#[test]
fn test_undefined_opcodes_activate_no_line() {
    let mut decoder = InstructionDecoder::default();

    // Gaps in the encoding space: extensions of ALU ops beyond
    // 0x57, the 0xD0 class, and C3..CF.
    for opcode in [0x58, 0x5F, 0x62, 0x6F, 0xD0, 0xD5, 0xC3, 0xCF, 0xFF] {
        let outputs = decoder
            .compute(&int_to_bits(opcode))
            .expect("decode failed");
        assert!(
            outputs.iter().all(|line| *line == Bit::Low),
            "opcode {opcode:#04x} must not activate any line"
        );
    }
}

#[test]
fn test_stack_parks_at_top_of_memory() {
    let mut cpu = Sap2::default();
    assert_eq!(cpu.sp_state(), [Bit::High; 16]);
}

#[test]
fn test_mvia_and_hlt() {
    let cpu = run_program(&[0x30, 10, 0xF0], 100); // MVIA 10, HLT
    assert!(cpu.halted());
    assert_eq!(bits_to_int(&cpu.out(), false), 10);
}

#[test]
fn test_add() {
    // MVIB 3, MVIA 5, ADD B, HLT
    let cpu = run_program(&[0x40, 3, 0x30, 5, 0x50, 0xF0], 100);
    assert!(cpu.halted());
    assert_eq!(bits_to_int(&cpu.out(), false), 8);
}

#[test]
fn test_sub() {
    // MVIB 4, MVIA 9, SUB B, HLT
    let cpu = run_program(&[0x40, 4, 0x30, 9, 0x51, 0xF0], 100);
    assert!(cpu.halted());
    assert_eq!(bits_to_int(&cpu.out(), false), 5);
}

#[test]
fn test_logic_and_complement() {
    // ANA: A=10 (1010), B=12 (1100) -> 8
    let cpu = run_program(&[0x40, 12, 0x30, 10, 0x52, 0xF0], 100);
    assert_eq!(bits_to_int(&cpu.out(), false), 8);
    // ORA -> 14
    let cpu = run_program(&[0x40, 12, 0x30, 10, 0x53, 0xF0], 100);
    assert_eq!(bits_to_int(&cpu.out(), false), 14);
    // XRA -> 6
    let cpu = run_program(&[0x40, 12, 0x30, 10, 0x54, 0xF0], 100);
    assert_eq!(bits_to_int(&cpu.out(), false), 6);
    // CMA: ~0x55 -> 0xAA
    let cpu = run_program(&[0x30, 0x55, 0x55, 0xF0], 100);
    assert_eq!(bits_to_int(&cpu.out(), false), 0xAA);
    // INRA 7 -> 8, DCRA 7 -> 6
    let cpu = run_program(&[0x30, 7, 0x56, 0xF0], 100);
    assert_eq!(bits_to_int(&cpu.out(), false), 8);
    let cpu = run_program(&[0x30, 7, 0x57, 0xF0], 100);
    assert_eq!(bits_to_int(&cpu.out(), false), 6);
}

#[test]
fn test_lda_and_sta() {
    // MVIA 7, STA 0x0010, MVIA 0, LDA 0x0010, HLT
    let cpu = run_program(
        &[0x30, 7, 0x20, 0x10, 0x00, 0x30, 0, 0x10, 0x10, 0x00, 0xF0],
        100,
    );
    assert!(cpu.halted());
    assert_eq!(bits_to_int(&cpu.out(), false), 7);
}

#[test]
fn test_jmp() {
    // 0: JMP 6, 3: MVIA 9 (skipped), 5: HLT (skipped),
    // 6: MVIA 4, 8: HLT
    let cpu = run_program(&[0x70, 6, 0, 0x30, 9, 0xF0, 0x30, 4, 0xF0], 100);
    assert!(cpu.halted());
    assert_eq!(bits_to_int(&cpu.out(), false), 4);
}

#[test]
fn test_jz_taken_and_not_taken() {
    // MVIB 5, MVIA 5, SUB (Z=1), JZ 11, MVIA 9, HLT, MVIA 6, HLT
    let taken = vec![
        0x40, 5, 0x30, 5, 0x51, 0x80, 11, 0, 0x30, 9, 0xF0, 0x30, 6, 0xF0,
    ];
    let cpu = run_program(&taken, 100);
    assert!(cpu.halted());
    assert_eq!(bits_to_int(&cpu.out(), false), 6);
    // MVIB 3, MVIA 5, SUB (Z=0), JZ 11 not taken -> MVIA 9, HLT
    let not_taken = vec![
        0x40, 3, 0x30, 5, 0x51, 0x80, 11, 0, 0x30, 9, 0xF0, 0x30, 6, 0xF0,
    ];
    let cpu = run_program(&not_taken, 100);
    assert!(cpu.halted());
    assert_eq!(bits_to_int(&cpu.out(), false), 9);
}

#[test]
fn test_in_and_out() {
    let mut cpu = Sap2::default();
    cpu.set_input(23);
    cpu.load_program(&[0x60, 0xF0]).expect("load failed"); // IN, HLT
    cpu.run(100).expect("run failed");
    assert!(cpu.halted());
    assert_eq!(bits_to_int(&cpu.out(), false), 23);

    let cpu = run_program(&[0x30, 42, 0x61, 0xF0], 100); // MVIA 42, OUT, HLT
    assert!(cpu.halted());
    assert_eq!(bits_to_int(&cpu.output(), false), 42);
}

#[test]
fn test_halted_clock_stops() {
    let mut cpu = Sap2::default();
    cpu.load_program(&[0xF0]).expect("load failed"); // HLT only
    cpu.run(10).expect("run failed");
    assert!(cpu.halted());
    let clock_before = cpu.clock();
    cpu.clock_tick().expect("clock tick failed");
    assert_eq!(cpu.clock(), clock_before);
}

/// Run a program on a machine with 0xA5 on its input switches.
fn run_bytes(program: &[u8]) -> Sap2 {
    let mut cpu = Sap2::default();
    cpu.set_input(0xA5);
    cpu.load_program(program).expect("load failed");
    cpu.run(50).expect("run failed");
    cpu
}

#[test]
fn every_part_counts_its_transistors() {
    assert_eq!(InstructionDecoder::default().transistor_count(), 808);
    // 2 NOT + 1 OR + 180 AND + 152 OR.
    assert_eq!(ControlUnit::default().transistor_count(), 2002);
    assert_eq!(Sap2::default().transistor_count(), 37_151_371);
}

#[test]
fn at_most_one_source_drives_each_bus() {
    let mut unit = ControlUnit::default();
    for (opcode, _) in CANONICAL {
        for t in 0..16 {
            let high = lines(&mut unit, t, opcode, High, High);
            let count = |set: &[usize]| high.iter().filter(|line| set.contains(line)).count();
            assert_eq!(count(&[LN_PC_ENABLE, LN_SP_ENABLE, LN_MAR_ENABLE]), 1);
            assert!(
                count(&[
                    LN_PC_OUT_LO,
                    LN_PC_OUT_HI,
                    LN_MEM_READ,
                    LN_ACC_OUT,
                    LN_ALU_OUT,
                    LN_IN_ENABLE,
                ]) <= 1
            );
        }
    }
}

#[test]
fn wrong_counts_are_refused_by_the_control_parts() {
    let refused = |expected: usize, actual: usize| {
        Err(HardwareError::InvalidInputCount { expected, actual })
    };
    assert_eq!(
        InstructionDecoder::default().compute(&[Low; 7]),
        refused(8, 7)
    );
    assert_eq!(ControlUnit::default().compute(&[Low; 42]), refused(43, 42));
    assert_eq!(Sequencer::default().compute(&[Low; 3]), refused(2, 3));
}

#[test]
fn power_on_state() {
    let cpu = Sap2::default();
    assert!(!cpu.halted());
    assert_eq!(cpu.clock(), Low);
    assert_eq!(cpu.out(), [Low; 8]);
    assert_eq!(cpu.output(), [Low; 8]);
    assert_eq!(cpu.flags(), (Low, Low, Low));
    assert_eq!(cpu.current_instruction(), 0);
    assert_eq!(cpu.pc_value(), 0);
    assert_eq!(cpu.mar_value(), 0);
    assert_eq!(cpu.t_state(), [Low; 4]);
}

#[test]
fn fetch_loads_the_instruction_register() {
    let mut cpu = Sap2::default();
    cpu.load_program(&[0x30, 10, 0xF0]).expect("load failed");
    cpu.micro_step().expect("T0 failed");
    assert_eq!((cpu.pc_value(), cpu.mar_value()), (1, 0));
    assert_eq!(cpu.t_state(), [High, Low, Low, Low]);
    cpu.micro_step().expect("T1 failed");
    assert_eq!(cpu.current_instruction(), 0x30);
    cpu.update().expect("update failed");
    assert_eq!(cpu.current_instruction(), 0x30);
    cpu.step_instruction().expect("step failed");
    assert_eq!((cpu.pc_value(), bits_to_int(&cpu.out(), false)), (2, 10));
    assert_eq!(cpu.t_state(), [Low; 4]);
}

#[test]
fn arithmetic_sets_the_flags_and_complement_keeps_them() {
    // MVIB 200, MVIA 100, ADD: 44 with a carry.
    let cpu = run_bytes(&[0x40, 200, 0x30, 100, 0x50, 0xF0]);
    assert_eq!(bits_to_int(&cpu.out(), false), 44);
    assert_eq!(cpu.flags(), (Low, High, Low));
    // DCRA of 0: 255, borrow, negative.
    let cpu = run_bytes(&[0x30, 0, 0x57, 0xF0]);
    assert_eq!(bits_to_int(&cpu.out(), false), 255);
    assert_eq!(cpu.flags(), (Low, Low, High));
    // XRA of equal bytes: zero. CMA then keeps the flags.
    let cpu = run_bytes(&[0x40, 9, 0x30, 9, 0x54, 0x55, 0xF0]);
    assert_eq!(bits_to_int(&cpu.out(), false), 255);
    assert_eq!(cpu.flags(), (High, Low, Low));
}

#[test]
fn conditional_jumps_follow_the_flags() {
    // MVIA 1, DCRA, JNZ 9, MVIA 6, HLT, MVIA 7, HLT: zero, so not taken.
    let cpu = run_bytes(&[0x30, 1, 0x57, 0x90, 9, 0, 0x30, 6, 0xF0, 0x30, 7, 0xF0]);
    assert_eq!(bits_to_int(&cpu.out(), false), 6);
    // MVIA 2 leaves 1: taken.
    let cpu = run_bytes(&[0x30, 2, 0x57, 0x90, 9, 0, 0x30, 6, 0xF0, 0x30, 7, 0xF0]);
    assert_eq!(bits_to_int(&cpu.out(), false), 7);
    // MVIA 0, DCRA, JM 9: negative, so taken.
    let cpu = run_bytes(&[0x30, 0, 0x57, 0xA0, 9, 0, 0x30, 6, 0xF0, 0x30, 7, 0xF0]);
    assert_eq!(bits_to_int(&cpu.out(), false), 7);
}

#[test]
fn an_undefined_opcode_does_nothing() {
    // 0xD5, IN, OUT, HLT.
    let cpu = run_bytes(&[0xD5, 0x60, 0x61, 0xF0]);
    assert!(cpu.halted());
    assert_eq!(bits_to_int(&cpu.output(), false), 0xA5);
    assert_eq!(cpu.pc_value(), 4);
}

#[test]
fn stack_instructions_move_the_stack_pointer() {
    // MVIA 5, PSHA: written at 0xFFFF, the pointer moves down.
    let cpu = run_bytes(&[0x30, 5, 0xC1, 0xF0]);
    assert_eq!(cpu.sp_state()[0], Low);
    assert_eq!(cpu.sp_state()[1..16], [High; 15]);
    // LDA 0xFFFF reads the pushed byte back.
    let cpu = run_bytes(&[0x30, 5, 0xC1, 0x30, 0, 0x10, 0xFF, 0xFF, 0xF0]);
    assert_eq!(bits_to_int(&cpu.out(), false), 5);
    // POPA moves the pointer up again and gives the byte back.
    let cpu = run_bytes(&[0x30, 5, 0xC1, 0x30, 0, 0xC2, 0xF0]);
    assert_eq!(bits_to_int(&cpu.out(), false), 5);
    assert_eq!(cpu.sp_state(), [High; 16]);
    // CALL 5 moves the pointer down by two.
    let cpu = run_bytes(&[0xB0, 5, 0, 0xF0, 0xF0, 0x30, 3, 0xF0]);
    assert_eq!(bits_to_int(&cpu.out(), false), 3);
    assert_eq!(cpu.sp_state()[0..2], [High, Low]);
    assert_eq!(cpu.sp_state()[2..16], [High; 14]);
}

#[test]
fn a_halted_machine_stands_still() {
    let mut cpu = run_bytes(&[0x30, 9, 0xF0]);
    let before = (cpu.pc_value(), cpu.out(), cpu.t_state(), cpu.clock());
    cpu.run(5).expect("run failed");
    cpu.micro_step().expect("step failed");
    let after = (cpu.pc_value(), cpu.out(), cpu.t_state(), cpu.clock());
    assert_eq!(before, after);
}

#[test]
fn a_run_stops_after_its_steps() {
    let mut cpu = Sap2::default();
    // JMP 0 forever.
    cpu.load_program(&[0x70, 0, 0]).expect("load failed");
    cpu.run(3).expect("run failed");
    assert!(!cpu.halted());
    assert_eq!(cpu.pc_value(), 0);
    assert_eq!(cpu.t_state(), [Low; 4]);
}

#[test]
fn a_pop_gives_back_what_was_pushed() {
    // MVIA 7, PSHA, MVIA 0, POPA, HLT.
    let cpu = run_program(&[0x30, 7, 0xC1, 0x30, 0, 0xC2, 0xF0], 100);
    assert!(cpu.halted());
    assert_eq!(bits_to_int(&cpu.out(), false), 7);
    // MVIA 7, PSHA, MVIA 9, PSHA, POPA, OUT, POPA, HLT: last in, first out.
    let cpu = run_program(
        &[0x30, 7, 0xC1, 0x30, 9, 0xC1, 0xC2, 0x61, 0xC2, 0xF0],
        100,
    );
    assert!(cpu.halted());
    assert_eq!(bits_to_int(&cpu.output(), false), 9);
    assert_eq!(bits_to_int(&cpu.out(), false), 7);
    assert_eq!(cpu.sp_state(), [High; 16]);
}

#[test]
fn a_return_pops_the_high_byte_and_then_the_low_byte() {
    // MVIA 10, PSHA, MVIA 0, PSHA, RET, HLT, NOP, MVIA 3, HLT: to 0x000A.
    let cpu = run_program(
        &[0x30, 10, 0xC1, 0x30, 0, 0xC1, 0xC0, 0xF0, 0x00, 0x00, 0x30, 3, 0xF0],
        100,
    );
    assert!(cpu.halted());
    assert_eq!(cpu.pc_value(), 13);
    assert_eq!(bits_to_int(&cpu.out(), false), 3);
    assert_eq!(cpu.sp_state(), [High; 16]);
}

#[test]
fn a_return_comes_back_behind_the_call() {
    // CALL 4, HLT, RET.
    let cpu = run_program(&[0xB0, 4, 0, 0xF0, 0xC0], 100);
    assert!(cpu.halted());
    assert_eq!(cpu.pc_value(), 4);
    assert_eq!(cpu.sp_state(), [High; 16]);
    // CALL 5, HLT, NOP, CALL 9, RET, INRA, RET: one subroutine in another.
    let cpu = run_program(&[0xB0, 5, 0, 0xF0, 0x00, 0xB0, 9, 0, 0xC0, 0x56, 0xC0], 100);
    assert!(cpu.halted());
    assert_eq!(cpu.pc_value(), 4);
    assert_eq!(bits_to_int(&cpu.out(), false), 1);
    assert_eq!(cpu.sp_state(), [High; 16]);
    // CALL 4, HLT, MVIA 6, PSHA, MVIA 0, POPA, RET: a subroutine that
    // uses the stack.
    let cpu = run_program(
        &[0xB0, 4, 0, 0xF0, 0x30, 6, 0xC1, 0x30, 0, 0xC2, 0xC0],
        100,
    );
    assert!(cpu.halted());
    assert_eq!(cpu.pc_value(), 4);
    assert_eq!(bits_to_int(&cpu.out(), false), 6);
}

#[test]
fn a_call_pushes_both_bytes_of_the_return_address() {
    // JMP 0x0120, RET; at 0x0120 CALL 3, LDA 0xFFFF, OUT, LDA 0xFFFE, HLT.
    let mut program = vec![0x70, 0x20, 0x01, 0xC0];
    program.resize(0x0120, 0);
    program.extend([0xB0, 3, 0, 0x10, 0xFF, 0xFF, 0x61, 0x10, 0xFE, 0xFF, 0xF0]);
    let cpu = run_program(&program, 100);
    assert!(cpu.halted());
    assert_eq!(cpu.pc_value(), 0x012B);
    assert_eq!(bits_to_int(&cpu.output(), false), 0x23);
    assert_eq!(bits_to_int(&cpu.out(), false), 0x01);
    assert_eq!(cpu.sp_state(), [High; 16]);
}

#[test]
fn a_run_performs_as_many_instructions_as_it_is_given() {
    let cpu = run_program(&[0xF0], 1);
    assert!(cpu.halted());
    // MVIA 5, INRA, HLT.
    let cpu = run_program(&[0x30, 5, 0x56, 0xF0], 2);
    assert!(!cpu.halted());
    assert_eq!(bits_to_int(&cpu.out(), false), 6);
    assert_eq!(cpu.pc_value(), 3);
    let cpu = run_program(&[0x30, 5, 0x56, 0xF0], 3);
    assert!(cpu.halted());
    let cpu = run_program(&[0xF0], 0);
    assert!(!cpu.halted());
}

#[test]
fn the_stack_micro_programs() {
    let mut unit = ControlUnit::default();
    let mut states = |opcode: u8| -> Vec<Vec<usize>> {
        (2..7)
            .map(|t| lines(&mut unit, t, opcode, Low, Low))
            .collect()
    };
    let idle = vec![LN_MAR_ENABLE];
    assert_eq!(
        states(0xC1),
        vec![
            vec![LN_SP_ENABLE, LN_MAR_IN],
            vec![
                LN_MAR_ENABLE,
                LN_SP_COUNT_DOWN,
                LN_MEM_WRITE,
                LN_ACC_OUT,
                LN_SEQ_RESET,
            ],
            idle.clone(),
            idle.clone(),
            idle.clone(),
        ]
    );
    assert_eq!(
        states(0xC2),
        vec![
            vec![LN_MAR_ENABLE, LN_SP_COUNT_UP],
            vec![LN_SP_ENABLE, LN_MAR_IN],
            vec![LN_MAR_ENABLE, LN_MEM_READ, LN_ACC_IN, LN_SEQ_RESET],
            idle.clone(),
            idle,
        ]
    );
    assert_eq!(
        states(0xC0),
        vec![
            vec![LN_MAR_ENABLE, LN_SP_COUNT_UP],
            vec![LN_SP_ENABLE, LN_MAR_IN, LN_SP_COUNT_UP],
            vec![LN_MAR_ENABLE, LN_PC_SAVE_HI, LN_MEM_READ],
            vec![LN_SP_ENABLE, LN_MAR_IN],
            vec![LN_MAR_ENABLE, LN_PC_SAVE_LO, LN_MEM_READ, LN_SEQ_RESET],
        ]
    );
}
