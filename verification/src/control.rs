//! The SAP-2 control section: instruction decoder, sequencer and control
//! unit.
//!
//! * [`InstructionDecoder`]: full opcode-byte decode matrix over 24
//!   one-hot instruction lines.
//! * [`Sequencer`]: free-running 4-bit T counter decoded into 16 one-hot
//!   T lines, reloaded to T0 by the control unit's `seq_reset`
//!   (variable-length micro-programs, no branching).
//! * [`ControlUnit`]: AND/OR matrix over T-states, decoded instruction and
//!   flags, driving all 29 control lines.
//!
//! The micro-program is the function [`wired_at`]: which T-states of which
//! instructions drive which control line. One cycle is one rising clock
//! edge:
//!
//! * T0: fetch. The PC drives the address bus, the MAR captures it, the PC
//!   increments.
//! * T1: the RAM drives the data bus, the IR captures the opcode.
//! * T2 and on: execution, per instruction. Instructions with an address
//!   hold their low operand byte in the MAR (T3) while the PC addresses
//!   the high operand byte at T5 (T4 idle); the MAR captures it, then T6
//!   executes.
//!
//! An opcode that decodes to nothing only ever sees the T0 and T1 terms,
//! then the T counter wraps around: it behaves as a 16-cycle NOP.

use vstd::arithmetic::power2;
use vstd::prelude::*;

use crate::arithmetic::{self, HalfAdder};
use crate::decoder::{self, Decoder4to16};
use crate::gates::{self, AndGate, NotGate, OrGate};
use crate::hardware::{self, Bit, Component, HardwareError, Response, Signal};
use crate::latches::{self, DFlipFlopSave, FlipFlopState};
use crate::memory;
use crate::mux::{self, Mux2x1};
use crate::utils::{self, int_to_bits};

verus! {

/// Width of an opcode. The high nibble selects the instruction class, the
/// low nibble is either unused (instructions with operand bytes) or an
/// exact opcode extension.
pub const OPCODE_BITS: usize = 8;

/// Number of instruction lines.
pub const INSTRUCTION_COUNT: usize = 24;

/// Instruction line of NOP, opcode `00`.
pub const IN_NOP: usize = 0;

/// Instruction line of LDA, opcode `10`.
pub const IN_LDA: usize = 1;

/// Instruction line of STA, opcode `20`.
pub const IN_STA: usize = 2;

/// Instruction line of MVIA, opcode `30`.
pub const IN_MVIA: usize = 3;

/// Instruction line of MVIB, opcode `40`.
pub const IN_MVIB: usize = 4;

/// Instruction line of ADD, opcode `50`.
pub const IN_ADD: usize = 5;

/// Instruction line of SUB, opcode `51`.
pub const IN_SUB: usize = 6;

/// Instruction line of ANA, opcode `52`.
pub const IN_ANA: usize = 7;

/// Instruction line of ORA, opcode `53`.
pub const IN_ORA: usize = 8;

/// Instruction line of XRA, opcode `54`.
pub const IN_XRA: usize = 9;

/// Instruction line of CMA, opcode `55`.
pub const IN_CMA: usize = 10;

/// Instruction line of INRA, opcode `56`.
pub const IN_INRA: usize = 11;

/// Instruction line of DCRA, opcode `57`.
pub const IN_DCRA: usize = 12;

/// Instruction line of IN, opcode `60`.
pub const IN_IN: usize = 13;

/// Instruction line of OUT, opcode `61`.
pub const IN_OUT: usize = 14;

/// Instruction line of JMP, opcode `70`.
pub const IN_JMP: usize = 15;

/// Instruction line of JZ, opcode `80`.
pub const IN_JZ: usize = 16;

/// Instruction line of JNZ, opcode `90`.
pub const IN_JNZ: usize = 17;

/// Instruction line of JM, opcode `A0`.
pub const IN_JM: usize = 18;

/// Instruction line of CALL, opcode `B0`.
pub const IN_CALL: usize = 19;

/// Instruction line of RET, opcode `C0`.
pub const IN_RET: usize = 20;

/// Instruction line of PSHA, opcode `C1`.
pub const IN_PSHA: usize = 21;

/// Instruction line of POPA, opcode `C2`.
pub const IN_POPA: usize = 22;

/// Instruction line of HLT, opcode `F0`.
pub const IN_HLT: usize = 23;

/// Number of T-states generated by the [`Sequencer`].
pub const T_STATES: usize = 16;

/// Number of output lines of the [`ControlUnit`]: 26 named control
/// signals plus the 3 ALU operation bits.
pub const CONTROL_LINES: usize = 29;

/// Control line: the PC drives the address bus.
pub const LN_PC_ENABLE: usize = 0;

/// Control line: the SP drives the address bus.
pub const LN_SP_ENABLE: usize = 1;

/// Control line: the MAR drives the address bus. In a push it gives way to
/// the SP.
pub const LN_MAR_ENABLE: usize = 2;

/// Control line: the MAR captures the address bus.
pub const LN_MAR_IN: usize = 3;

/// Control line: the MAR captures its low byte from the data bus.
pub const LN_MAR_LO_IN: usize = 4;

/// Control line: the MAR captures its high byte from the data bus.
pub const LN_MAR_HI_IN: usize = 5;

/// Control line: the PC counts.
pub const LN_PC_COUNT: usize = 6;

/// Control line: the PC captures the address bus, and its old value is kept
/// as the return address.
pub const LN_PC_LOAD: usize = 7;

/// Control line: the PC captures its low byte from the data bus.
pub const LN_PC_SAVE_LO: usize = 8;

/// Control line: the PC captures its high byte from the data bus.
pub const LN_PC_SAVE_HI: usize = 9;

/// Control line: the low byte of the return address drives the data bus.
pub const LN_PC_OUT_LO: usize = 10;

/// Control line: the high byte of the return address drives the data bus.
pub const LN_PC_OUT_HI: usize = 11;

/// Control line: the SP increments.
pub const LN_SP_COUNT_UP: usize = 12;

/// Control line: the SP decrements.
pub const LN_SP_COUNT_DOWN: usize = 13;

/// Control line: the RAM drives the data bus.
pub const LN_MEM_READ: usize = 14;

/// Control line: the RAM captures the data bus.
pub const LN_MEM_WRITE: usize = 15;

/// Control line: the IR captures the data bus.
pub const LN_IR_IN: usize = 16;

/// Control line: the accumulator captures the data bus.
pub const LN_ACC_IN: usize = 17;

/// Control line: the accumulator drives the data bus.
pub const LN_ACC_OUT: usize = 18;

/// Control line: B captures the data bus.
pub const LN_B_IN: usize = 19;

/// Control line: the ALU drives the data bus.
pub const LN_ALU_OUT: usize = 20;

/// Control line: the flags are captured.
pub const LN_FLAGS_IN: usize = 21;

/// Control line: the input port drives the data bus.
pub const LN_IN_ENABLE: usize = 22;

/// Control line: the output latch captures the data bus.
pub const LN_OUT_SAVE: usize = 23;

/// Control line: the clock stops.
pub const LN_HALT: usize = 24;

/// Control line: the next T-state is T0.
pub const LN_SEQ_RESET: usize = 25;

/// Control line: low bit of the ALU operation code.
pub const LN_OP0: usize = 26;

/// Control line: middle bit of the ALU operation code.
pub const LN_OP1: usize = 27;

/// Control line: high bit of the ALU operation code.
pub const LN_OP2: usize = 28;

/// Instruction number meaning "every instruction" (the fetch
/// micro-operations common to the whole instruction set).
pub const ANY_INSTR: u8 = 255;

/// Flag qualifier of a control term: unconditional.
pub const FLAG_NONE: u8 = 0;

/// Flag qualifier of a control term: gated by the zero flag.
pub const FLAG_Z: u8 = 1;

/// Flag qualifier of a control term: gated by the inverted zero flag.
pub const FLAG_NOT_Z: u8 = 2;

/// Flag qualifier of a control term: gated by the sign flag.
pub const FLAG_S: u8 = 3;

/// AND gates of the opcode decode matrix: an instruction with `w` wired
/// opcode bits takes `w - 1`.
const DECODE_ANDS: usize = 132;

/// Positions of the control matrix in one line: 16 T-states by 24
/// instructions and the column for every instruction.
const POSITIONS: usize = 400;

/// Whether an instruction is followed by a two-byte address.
pub open spec fn has_address(instr: int) -> bool {
    instr == IN_LDA || instr == IN_STA || IN_JMP <= instr <= IN_CALL
}

/// Whether an instruction is followed by an operand: an address or an
/// immediate byte.
pub open spec fn has_operand(instr: int) -> bool {
    has_address(instr) || instr == IN_MVIA || instr == IN_MVIB
}

/// The opcode of an instruction, with a zero low nibble where the low
/// nibble is unused.
pub open spec fn opcode_of(instr: int) -> u8 {
    if instr == IN_NOP {
        0x00
    } else if instr == IN_LDA {
        0x10
    } else if instr == IN_STA {
        0x20
    } else if instr == IN_MVIA {
        0x30
    } else if instr == IN_MVIB {
        0x40
    } else if instr == IN_ADD {
        0x50
    } else if instr == IN_SUB {
        0x51
    } else if instr == IN_ANA {
        0x52
    } else if instr == IN_ORA {
        0x53
    } else if instr == IN_XRA {
        0x54
    } else if instr == IN_CMA {
        0x55
    } else if instr == IN_INRA {
        0x56
    } else if instr == IN_DCRA {
        0x57
    } else if instr == IN_IN {
        0x60
    } else if instr == IN_OUT {
        0x61
    } else if instr == IN_JMP {
        0x70
    } else if instr == IN_JZ {
        0x80
    } else if instr == IN_JNZ {
        0x90
    } else if instr == IN_JM {
        0xA0
    } else if instr == IN_CALL {
        0xB0
    } else if instr == IN_RET {
        0xC0
    } else if instr == IN_PSHA {
        0xC1
    } else if instr == IN_POPA {
        0xC2
    } else {
        0xF0
    }
}

/// Whether an opcode byte encodes an instruction: the high nibble agrees,
/// and so does the low one unless the instruction has an operand.
pub open spec fn encodes(opcode: u8, instr: int) -> bool {
    &&& opcode / 16 == opcode_of(instr) / 16
    &&& has_operand(instr) || opcode % 16 == opcode_of(instr) % 16
}

/// The micro-program: whether a control line is wired to a T-state of an
/// instruction.
pub open spec fn wired_at(line: int, t: int, instr: int) -> bool {
    if line == LN_PC_ENABLE || line == LN_PC_COUNT {
        (t == 0 && instr == ANY_INSTR)
        || (t == 2 && has_operand(instr))
        || (t == 5 && has_address(instr))
    } else if line == LN_SP_ENABLE {
        (t == 2 && instr == IN_PSHA)
        || (t == 3 && (instr == IN_RET || instr == IN_POPA))
        || (t == 5 && instr == IN_RET)
        || (t == 7 && instr == IN_CALL)
    } else if line == LN_MAR_IN {
        (t == 0 && instr == ANY_INSTR)
        || (t == 2 && (has_operand(instr) || instr == IN_PSHA))
        || (t == 3 && (instr == IN_RET || instr == IN_POPA))
        || (t == 5 && instr == IN_RET)
        || (t == 7 && instr == IN_CALL)
    } else if line == LN_MAR_LO_IN {
        t == 3 && has_address(instr)
    } else if line == LN_MAR_HI_IN {
        t == 5 && has_address(instr)
    } else if line == LN_PC_LOAD {
        t == 6 && (instr == IN_JMP || instr == IN_JZ || instr == IN_JNZ || instr == IN_JM || instr
            == IN_CALL)
    } else if line == LN_PC_SAVE_LO {
        t == 6 && instr == IN_RET
    } else if line == LN_PC_SAVE_HI {
        t == 4 && instr == IN_RET
    } else if line == LN_PC_OUT_LO {
        t == 8 && instr == IN_CALL
    } else if line == LN_PC_OUT_HI {
        t == 9 && instr == IN_CALL
    } else if line == LN_SP_COUNT_UP {
        (t == 2 && (instr == IN_RET || instr == IN_POPA))
        || (t == 3 && instr == IN_RET)
    } else if line == LN_SP_COUNT_DOWN {
        (t == 3 && instr == IN_PSHA) || ((t == 8 || t == 9) && instr == IN_CALL)
    } else if line == LN_MEM_READ {
        (t == 1 && instr == ANY_INSTR)
        || (t == 3 && has_operand(instr))
        || (t == 4 && (instr == IN_POPA || instr == IN_RET))
        || (t == 5 && has_address(instr))
        || (t == 6 && (instr == IN_LDA || instr == IN_RET))
    } else if line == LN_MEM_WRITE {
        (t == 6 && instr == IN_STA)
        || (t == 3 && instr == IN_PSHA) || ((t == 8 || t == 9) && instr == IN_CALL)
    } else if line == LN_IR_IN {
        t == 1 && instr == ANY_INSTR
    } else if line == LN_ACC_IN {
        (t == 2 && ((IN_ADD <= instr && instr <= IN_DCRA) || instr == IN_IN))
        || (t == 3 && instr == IN_MVIA)
        || (t == 4 && instr == IN_POPA)
        || (t == 6 && instr == IN_LDA)
    } else if line == LN_ACC_OUT {
        (t == 2 && instr == IN_OUT)
        || (t == 3 && instr == IN_PSHA)
        || (t == 6 && instr == IN_STA)
    } else if line == LN_B_IN {
        t == 3 && instr == IN_MVIB
    } else if line == LN_ALU_OUT {
        t == 2 && (IN_ADD <= instr && instr <= IN_DCRA)
    } else if line == LN_FLAGS_IN {
        t == 2 && (IN_ADD <= instr && instr <= IN_DCRA) && instr != IN_CMA
    } else if line == LN_IN_ENABLE {
        t == 2 && instr == IN_IN
    } else if line == LN_OUT_SAVE {
        t == 2 && instr == IN_OUT
    } else if line == LN_HALT {
        t == 2 && instr == IN_HLT
    } else if line == LN_SEQ_RESET {
        (t == 2 && ((IN_ADD <= instr && instr <= IN_DCRA) || instr == IN_NOP || instr == IN_IN
            || instr == IN_OUT || instr == IN_HLT))
        || (t == 3 && (instr == IN_MVIA || instr == IN_MVIB || instr == IN_PSHA))
        || (t == 4 && instr == IN_POPA)
        || (t == 6 && ((has_address(instr) && instr != IN_CALL) || instr == IN_RET))
        || (t == 9 && instr == IN_CALL)
    } else if line == LN_OP0 {
        t == 2 && (instr == IN_SUB || instr == IN_ORA || instr == IN_CMA || instr == IN_DCRA)
    } else if line == LN_OP1 {
        t == 2 && (instr == IN_ANA || instr == IN_ORA || instr == IN_INRA || instr == IN_DCRA)
    } else if line == LN_OP2 {
        t == 2 && (instr == IN_XRA || instr == IN_CMA || instr == IN_INRA || instr == IN_DCRA)
    } else {
        false
    }
}

/// The flag that qualifies a T-state of an instruction: the conditional
/// jumps depend on their flag at T6.
pub open spec fn condition(t: int, instr: int) -> u8 {
    if t == 6 && instr == IN_JZ {
        FLAG_Z
    } else if t == 6 && instr == IN_JNZ {
        FLAG_NOT_Z
    } else if t == 6 && instr == IN_JM {
        FLAG_S
    } else {
        FLAG_NONE
    }
}

/// One AND term of the control matrix. The line fires when this T-state
/// is active and this instruction is decoded and the flag condition
/// holds. With [`ANY_INSTR`] the instruction is not wired.
#[derive(Debug, Clone, Copy)]
pub struct ControlTerm {
    pub t: u8,
    pub instr: u8,
    pub flag: u8,
}

/// Whether a term is wired into a control line.
pub open spec fn wired(line: int, term: ControlTerm) -> bool {
    wired_at(line, term.t as int, term.instr as int) && term.flag == condition(
        term.t as int,
        term.instr as int,
    )
}

/// The net of a term: its T line, gated by its instruction line and its
/// flag.
pub open spec fn term_signal(term: ControlTerm, inputs: Seq<Signal>) -> Signal {
    let timed = inputs[term.t as int];
    let decoded = if term.instr == ANY_INSTR {
        timed
    } else {
        gates::and_signal(timed, inputs[16 + term.instr])
    };
    if term.flag == FLAG_NONE {
        decoded
    } else if term.flag == FLAG_Z {
        gates::and_signal(decoded, inputs[40])
    } else if term.flag == FLAG_NOT_Z {
        gates::and_signal(decoded, gates::not_signal(inputs[40]))
    } else {
        gates::and_signal(decoded, inputs[42])
    }
}

/// The OR of all terms wired into a line.
pub open spec fn line_signal(line: int, inputs: Seq<Signal>) -> Signal {
    if exists|term: ControlTerm| #[trigger]
        wired(line, term) && term_signal(term, inputs) == Signal::Driven(Bit::High) {
        Signal::Driven(Bit::High)
    } else if forall|term: ControlTerm| #[trigger]
        wired(line, term) ==> term_signal(term, inputs) == Signal::Driven(Bit::Low) {
        Signal::Driven(Bit::Low)
    } else {
        Signal::HighImpedance
    }
}

/// What the control unit drives on a line. The MAR drives the address bus
/// exactly when neither the PC nor the SP does.
pub open spec fn control_signal(line: int, inputs: Seq<Signal>) -> Signal {
    if line == LN_MAR_ENABLE {
        gates::not_signal(
            gates::or_signal(
                line_signal(LN_PC_ENABLE as int, inputs),
                line_signal(LN_SP_ENABLE as int, inputs),
            ),
        )
    } else {
        line_signal(line, inputs)
    }
}

/// Whether a flag qualifier holds.
pub open spec fn flag_holds(flag: u8, zero: bool, sign: bool) -> bool {
    if flag == FLAG_Z {
        zero
    } else if flag == FLAG_NOT_Z {
        !zero
    } else if flag == FLAG_S {
        sign
    } else {
        true
    }
}

/// Whether a control line is High in a T-state with a decoded instruction,
/// or with none.
pub open spec fn active(line: int, t: int, instr: Option<int>, zero: bool, sign: bool) -> bool {
    if line == LN_MAR_ENABLE {
        !active_term(LN_PC_ENABLE as int, t, instr, zero, sign) && !active_term(
            LN_SP_ENABLE as int,
            t,
            instr,
            zero,
            sign,
        )
    } else {
        active_term(line, t, instr, zero, sign)
    }
}

/// Whether a term of the line fires.
pub open spec fn active_term(
    line: int,
    t: int,
    instr: Option<int>,
    zero: bool,
    sign: bool,
) -> bool {
    ||| wired_at(line, t, ANY_INSTR as int)
    ||| instr is Some && wired_at(line, t, instr->0) && flag_holds(
        condition(t, instr->0),
        zero,
        sign,
    )
}

/// The input lines of the control unit for one T-state, one decoded
/// instruction or none, and the flags.
pub open spec fn control_inputs(
    t: int,
    instr: Option<int>,
    zero: bool,
    carry: bool,
    sign: bool,
) -> Seq<Bit> {
    decoder::one_hot(16, t as nat) + Seq::new(24, |i: int| hardware::bit_of(instr == Some(i)))
        + seq![hardware::bit_of(zero), hardware::bit_of(carry), hardware::bit_of(sign)]
}

/// With one T line and at most one instruction line High, every control
/// line is driven as the micro-program says.
pub proof fn law_control_word(
    line: int,
    t: int,
    instr: Option<int>,
    zero: bool,
    carry: bool,
    sign: bool,
)
    requires
        0 <= t < 16,
        instr is Some ==> 0 <= instr->0 < 24,
    ensures
        control_signal(
            line,
            hardware::driven(control_inputs(t, instr, zero, carry, sign)),
        ) == Signal::Driven(hardware::bit_of(active(line, t, instr, zero, sign))),
{
    lemma_line_fires(line, t, instr, zero, carry, sign);
    lemma_line_fires(LN_PC_ENABLE as int, t, instr, zero, carry, sign);
    lemma_line_fires(LN_SP_ENABLE as int, t, instr, zero, carry, sign);
}

/// A line fires exactly when one of its terms does.
proof fn lemma_line_fires(
    line: int,
    t: int,
    instr: Option<int>,
    zero: bool,
    carry: bool,
    sign: bool,
)
    requires
        0 <= t < 16,
        instr is Some ==> 0 <= instr->0 < 24,
    ensures
        line_signal(
            line,
            hardware::driven(control_inputs(t, instr, zero, carry, sign)),
        ) == Signal::Driven(hardware::bit_of(active_term(line, t, instr, zero, sign))),
{
    let inputs = hardware::driven(control_inputs(t, instr, zero, carry, sign));
    assert forall|term: ControlTerm| #[trigger] wired(line, term) implies term_signal(term, inputs)
        == Signal::Driven(
        hardware::bit_of(
            term.t == t && (term.instr == ANY_INSTR || instr == Some(term.instr as int))
                && flag_holds(term.flag, zero, sign),
        ),
    ) by {
        assert(term.t < 16 && (term.instr < 24 || term.instr == ANY_INSTR));
        assert(inputs[40] == Signal::Driven(hardware::bit_of(zero)));
        assert(inputs[42] == Signal::Driven(hardware::bit_of(sign)));
        assert(inputs[term.t as int] == Signal::Driven(hardware::bit_of(term.t == t)));
        if term.instr != ANY_INSTR {
            assert(inputs[16 + term.instr] == Signal::Driven(
                hardware::bit_of(instr == Some(term.instr as int)),
            ));
        }
    }
    if wired_at(line, t, ANY_INSTR as int) {
        let term = ControlTerm { t: t as u8, instr: ANY_INSTR, flag: FLAG_NONE };
        assert(wired(line, term));
    } else if active_term(line, t, instr, zero, sign) {
        let term = ControlTerm {
            t: t as u8,
            instr: instr->0 as u8,
            flag: condition(t, instr->0),
        };
        assert(wired(line, term));
    }
}

/// Two address-bus drivers are never enabled together, and one always is.
/// The PC is not on the bus while a push writes to memory.
pub proof fn law_one_address_driver(t: int, instr: Option<int>, zero: bool, sign: bool)
    ensures
        ({
            let pc = active(LN_PC_ENABLE as int, t, instr, zero, sign);
            let sp = active(LN_SP_ENABLE as int, t, instr, zero, sign);
            let mar = active(LN_MAR_ENABLE as int, t, instr, zero, sign);
            let down = active(LN_SP_COUNT_DOWN as int, t, instr, zero, sign);
            let write = active(LN_MEM_WRITE as int, t, instr, zero, sign);
            &&& !(pc && sp) && !(pc && mar) && !(sp && mar)
            &&& pc || sp || mar
            &&& !(pc && down && write)
        }),
{
}

/// At most one data-bus driver is enabled at a time, and the RAM is never
/// read and written together.
pub proof fn law_one_data_driver(t: int, instr: Option<int>, zero: bool, sign: bool)
    ensures
        ({
            let pc_lo = active(LN_PC_OUT_LO as int, t, instr, zero, sign);
            let pc_hi = active(LN_PC_OUT_HI as int, t, instr, zero, sign);
            let acc = active(LN_ACC_OUT as int, t, instr, zero, sign);
            let alu = active(LN_ALU_OUT as int, t, instr, zero, sign);
            let port = active(LN_IN_ENABLE as int, t, instr, zero, sign);
            let ram = active(LN_MEM_READ as int, t, instr, zero, sign);
            let write = active(LN_MEM_WRITE as int, t, instr, zero, sign);
            &&& !(pc_lo && pc_hi) && !(pc_lo && acc) && !(pc_lo && alu) && !(pc_lo && port)
            &&& !(pc_hi && acc) && !(pc_hi && alu) && !(pc_hi && port)
            &&& !(acc && alu) && !(acc && port) && !(alu && port)
            &&& !(ram && pc_lo) && !(ram && pc_hi) && !(ram && acc) && !(ram && alu)
            &&& !(ram && port) && !(ram && write)
        }),
{
}

/// Whether an opcode bit is wired to an instruction line: the low nibble
/// of an instruction with an operand is not.
pub open spec fn bit_wired(instr: int, bit: int) -> bool {
    bit >= 4 || !has_operand(instr)
}

/// An opcode bit, direct or inverted, as the instruction wants it.
pub open spec fn wanted_signal(instr: int, bit: int, inputs: Seq<Signal>) -> Signal {
    decoder::literal(inputs[bit], utils::byte_bits(opcode_of(instr))[bit])
}

/// The instruction line: the AND of all wired opcode bits.
pub open spec fn instruction_signal(instr: int, inputs: Seq<Signal>) -> Signal {
    if exists|bit: int|
        0 <= bit < 8 && bit_wired(instr, bit) && #[trigger] wanted_signal(instr, bit, inputs)
            == Signal::Driven(Bit::Low) {
        Signal::Driven(Bit::Low)
    } else if forall|bit: int|
        0 <= bit < 8 && bit_wired(instr, bit) ==> #[trigger] wanted_signal(instr, bit, inputs)
            == Signal::Driven(Bit::High) {
        Signal::Driven(Bit::High)
    } else {
        Signal::HighImpedance
    }
}

/// The instruction that an opcode byte encodes, if any.
pub open spec fn instruction_of(opcode: u8) -> Option<int> {
    if exists|instr: int| 0 <= instr < 24 && #[trigger] encodes(opcode, instr) {
        Some(choose|instr: int| 0 <= instr < 24 && #[trigger] encodes(opcode, instr))
    } else {
        None
    }
}

/// An opcode byte encodes at most one instruction.
pub proof fn law_encoding_unambiguous(opcode: u8, instr: int, other: int)
    requires
        0 <= instr < 24,
        0 <= other < 24,
        encodes(opcode, instr),
        encodes(opcode, other),
    ensures
        instr == other,
        instruction_of(opcode) == Some(instr),
{
    let found = instruction_of(opcode)->0;
    assert(encodes(opcode, found) && 0 <= found < 24);
}

/// The opcode of an instruction encodes it.
pub proof fn law_opcode_encodes(instr: int)
    requires
        0 <= instr < 24,
    ensures
        encodes(opcode_of(instr), instr),
        instruction_of(opcode_of(instr)) == Some(instr),
{
    law_encoding_unambiguous(opcode_of(instr), instr, instr);
}

/// The nibbles of a byte are halves of its bits.
proof fn lemma_byte_nibbles(byte: u8)
    ensures
        utils::byte_bits(byte).len() == 8,
        utils::byte_bits(byte).subrange(0, 4) == utils::value_bits((byte % 16) as nat, 4),
        utils::byte_bits(byte).subrange(4, 8) == utils::value_bits((byte / 16) as nat, 4),
{
    utils::law_byte_unpacked(byte);
    reveal_with_fuel(utils::value_bits, 9);
    let low: u8 = (byte % 16) as u8;
    assert({
        &&& (byte % 16) % 2 == byte % 2
        &&& (byte % 16) / 2 % 2 == byte / 2 % 2
        &&& (byte % 16) / 2 / 2 % 2 == byte / 2 / 2 % 2
        &&& (byte % 16) / 2 / 2 / 2 % 2 == byte / 2 / 2 / 2 % 2
        &&& byte / 2 / 2 / 2 / 2 == byte / 16
    }) by (bit_vector);
    assert(utils::byte_bits(byte).subrange(0, 4) =~= utils::value_bits((byte % 16) as nat, 4));
    assert(utils::byte_bits(byte).subrange(4, 8) =~= utils::value_bits((byte / 16) as nat, 4));
}

/// Two nibbles with the same bits are the same.
proof fn lemma_nibble_bits(a: u8, b: u8)
    requires
        a < 16,
        b < 16,
        utils::value_bits(a as nat, 4) == utils::value_bits(b as nat, 4),
    ensures
        a == b,
{
    power2::lemma2_to64();
    utils::lemma_bits_of_value(a as nat, 4);
    utils::lemma_bits_of_value(b as nat, 4);
}

/// A driven opcode raises exactly the line of the instruction that it
/// encodes; an opcode that encodes none leaves every line Low.
pub proof fn law_opcode_decodes(opcode: u8, instr: int)
    requires
        0 <= instr < 24,
    ensures
        instruction_signal(instr, hardware::driven(utils::byte_bits(opcode))) == Signal::Driven(
            hardware::bit_of(instruction_of(opcode) == Some(instr)),
        ),
{
    let bits = utils::byte_bits(opcode);
    let code = opcode_of(instr);
    let wanted = utils::byte_bits(code);
    let inputs = hardware::driven(bits);
    lemma_byte_nibbles(opcode);
    lemma_byte_nibbles(code);
    assert forall|bit: int| 0 <= bit < 8 implies #[trigger] wanted_signal(instr, bit, inputs)
        == Signal::Driven(hardware::bit_of(bits[bit] == wanted[bit])) by {
    }
    if encodes(opcode, instr) {
        law_encoding_unambiguous(opcode, instr, instr);
        assert forall|bit: int| 0 <= bit < 8 && bit_wired(instr, bit) implies #[trigger]
            wanted_signal(instr, bit, inputs) == Signal::Driven(Bit::High) by {
            if bit >= 4 {
                assert(bits.subrange(4, 8)[bit - 4] == wanted.subrange(4, 8)[bit - 4]);
            } else {
                assert(bits.subrange(0, 4)[bit] == wanted.subrange(0, 4)[bit]);
            }
        }
    } else {
        if instruction_of(opcode) == Some(instr) {
            assert(encodes(opcode, instruction_of(opcode)->0));
        }
        if forall|bit: int|
            0 <= bit < 8 && bit_wired(instr, bit) ==> #[trigger] wanted_signal(instr, bit, inputs)
                == Signal::Driven(Bit::High) {
            assert(bits.subrange(4, 8) =~= wanted.subrange(4, 8)) by {
                assert forall|k: int| 0 <= k < 4 implies bits.subrange(4, 8)[k] == wanted.subrange(
                    4,
                    8,
                )[k] by {
                    assert(wanted_signal(instr, 4 + k, inputs) == Signal::Driven(Bit::High));
                }
            }
            lemma_nibble_bits((opcode / 16) as u8, (code / 16) as u8);
            if !has_operand(instr) {
                assert(bits.subrange(0, 4) =~= wanted.subrange(0, 4)) by {
                    assert forall|k: int| 0 <= k < 4 implies bits.subrange(0, 4)[k]
                        == wanted.subrange(0, 4)[k] by {
                        assert(wanted_signal(instr, k, inputs) == Signal::Driven(Bit::High));
                    }
                }
                lemma_nibble_bits((opcode % 16) as u8, (code % 16) as u8);
            }
            assert(false);
        }
        let odd = choose|bit: int|
            0 <= bit < 8 && bit_wired(instr, bit) && #[trigger] wanted_signal(instr, bit, inputs)
                != Signal::Driven(Bit::High);
        assert(wanted_signal(instr, odd, inputs) == Signal::Driven(Bit::Low));
    }
}

/// Whether an instruction is followed by a two-byte address.
pub(crate) fn takes_address(instr: usize) -> (r: bool)
    ensures
        r == has_address(instr as int),
{
    instr == IN_LDA || instr == IN_STA || (IN_JMP <= instr && instr <= IN_CALL)
}

/// Whether an instruction is followed by an operand.
pub(crate) fn takes_operand(instr: usize) -> (r: bool)
    ensures
        r == has_operand(instr as int),
{
    takes_address(instr) || instr == IN_MVIA || instr == IN_MVIB
}

/// The opcode of an instruction.
pub(crate) fn opcode(instr: usize) -> (code: u8)
    ensures
        code == opcode_of(instr as int),
{
    if instr == IN_NOP {
        0x00
    } else if instr == IN_LDA {
        0x10
    } else if instr == IN_STA {
        0x20
    } else if instr == IN_MVIA {
        0x30
    } else if instr == IN_MVIB {
        0x40
    } else if instr == IN_ADD {
        0x50
    } else if instr == IN_SUB {
        0x51
    } else if instr == IN_ANA {
        0x52
    } else if instr == IN_ORA {
        0x53
    } else if instr == IN_XRA {
        0x54
    } else if instr == IN_CMA {
        0x55
    } else if instr == IN_INRA {
        0x56
    } else if instr == IN_DCRA {
        0x57
    } else if instr == IN_IN {
        0x60
    } else if instr == IN_OUT {
        0x61
    } else if instr == IN_JMP {
        0x70
    } else if instr == IN_JZ {
        0x80
    } else if instr == IN_JNZ {
        0x90
    } else if instr == IN_JM {
        0xA0
    } else if instr == IN_CALL {
        0xB0
    } else if instr == IN_RET {
        0xC0
    } else if instr == IN_PSHA {
        0xC1
    } else if instr == IN_POPA {
        0xC2
    } else {
        0xF0
    }
}

/// AND gates of the instructions before this one.
spec fn decode_ands(instr: nat) -> nat
    decreases instr,
{
    if instr == 0 {
        0
    } else {
        decode_ands((instr - 1) as nat) + if has_operand(instr - 1) {
            3nat
        } else {
            7
        }
    }
}

/// Every instruction finds its gates in the matrix.
proof fn lemma_decode_ands(instr: nat)
    requires
        instr <= 24,
    ensures
        decode_ands(instr) <= 132,
        decode_ands(24) == 132,
        instr < 24 ==> decode_ands(instr) + (if has_operand(instr as int) {
            3nat
        } else {
            7
        }) <= 132,
    decreases 24 - instr,
{
    if instr == 24 {
        reveal_with_fuel(decode_ands, 25);
    } else {
        lemma_decode_ands(instr + 1);
    }
}

/// The SAP-2 instruction decoder.
///
/// Eight inverters produce the complementary opcode nets; each of the 24
/// instruction lines is the output of an AND chain wired to either the
/// direct net or its complement for every wired opcode bit, and left
/// unconnected for the don't-care bits.
#[derive(Debug, Clone, Copy)]
pub struct InstructionDecoder {
    nots: [NotGate; OPCODE_BITS],
    ands: [AndGate; DECODE_ANDS],
}

impl Default for InstructionDecoder {
    fn default() -> (decoder: InstructionDecoder)
        ensures
            decoder.wf(),
    {
        InstructionDecoder {
            nots: [NotGate::default(); OPCODE_BITS],
            ands: [AndGate::default(); DECODE_ANDS],
        }
    }
}

impl View for InstructionDecoder {
    type V = ();

    open spec fn view(&self) -> () {
        ()
    }
}

impl InstructionDecoder {
    /// Wire one instruction's AND chain, most significant bit first, with
    /// the gates from `offset` on.
    fn wire_chain(
        &mut self,
        inputs: &[Signal],
        complements: &[Signal; OPCODE_BITS],
        instr: usize,
        offset: usize,
    ) -> (r: Result<Signal, HardwareError>)
        requires
            inputs@.len() == 8,
            instr < 24,
            forall|k: int|
                0 <= k < 8 ==> #[trigger] complements@[k] == gates::not_signal(inputs@[k]),
            offset + (if has_operand(instr as int) {
                3nat
            } else {
                7
            }) <= 132,
        ensures
            r == Ok::<Signal, HardwareError>(instruction_signal(instr as int, inputs@)),
    {
        let wanted = int_to_bits(opcode(instr));
        let lowest: usize = if takes_operand(instr) {
            4
        } else {
            0
        };
        let mut chain = if wanted[7] == Bit::High {
            inputs[7]
        } else {
            complements[7]
        };
        assert(chain == wanted_signal(instr as int, 7, inputs@));
        let mut bit: usize = 7;
        while bit > lowest
            invariant
                inputs@.len() == 8,
                instr < 24,
                lowest == if has_operand(instr as int) {
                    4nat
                } else {
                    0
                },
                lowest <= bit <= 7,
                offset + (7 - lowest) <= 132,
                wanted@ == utils::byte_bits(opcode_of(instr as int)),
                forall|k: int|
                    0 <= k < 8 ==> #[trigger] complements@[k] == gates::not_signal(inputs@[k]),
                chain == Signal::Driven(Bit::Low) <==> exists|k: int|
                    bit <= k < 8 && #[trigger] wanted_signal(instr as int, k, inputs@)
                        == Signal::Driven(Bit::Low),
                chain == Signal::Driven(Bit::High) <==> forall|k: int|
                    bit <= k < 8 ==> #[trigger] wanted_signal(instr as int, k, inputs@)
                        == Signal::Driven(Bit::High),
            decreases bit,
        {
            let ghost before = chain;
            let ghost above = bit;
            bit = bit - 1;
            let net = if wanted[bit] == Bit::High {
                inputs[bit]
            } else {
                complements[bit]
            };
            assert(net == wanted_signal(instr as int, bit as int, inputs@));
            let mut single = [Signal::HighImpedance];
            self.ands[offset + (6 - bit)].conduct_into(&[chain, net], &mut single)?;
            chain = single[0];
            proof {
                if before == Signal::Driven(Bit::Low) {
                    let k = choose|k: int|
                        above <= k < 8 && #[trigger] wanted_signal(instr as int, k, inputs@)
                            == Signal::Driven(Bit::Low);
                    assert(bit <= k < 8 && wanted_signal(instr as int, k, inputs@)
                        == Signal::Driven(Bit::Low));
                }
            }
        }
        Ok(chain)
    }
}

impl Component for InstructionDecoder {
    /// Inputs:
    ///
    /// - 0..8: the opcode byte, least significant bit first
    ///
    /// Outputs:
    ///
    /// - 0..24: one-hot instruction lines (see the `IN_*` constants). An opcode
    ///   that matches no pattern leaves every line Low.
    const INPUTS: usize = 8;

    const OUTPUTS: usize = 24;

    open spec fn fan_in() -> nat {
        8
    }

    open spec fn fan_out() -> nat {
        24
    }

    proof fn arity() {
    }

    open spec fn wf(&self) -> bool {
        true
    }

    open spec fn admits(state: (), inputs: Seq<Signal>, slots: nat) -> bool {
        slots == 24
    }

    open spec fn respond(state: (), inputs: Seq<Signal>, outputs: Seq<Signal>) -> Response<()> {
        hardware::steady(Seq::new(24, |instr: int| instruction_signal(instr, inputs)))
    }

    open spec fn transistors() -> nat {
        808
    }

    fn conduct_into(&mut self, inputs: &[Signal], outputs: &mut [Signal]) -> (r: Result<
        (),
        HardwareError,
    >) {
        if inputs.len() != 8 {
            return Err(
                HardwareError::InvalidInputCount { expected: 8, actual: inputs.len() },
            );
        }
        let mut complements = [Signal::HighImpedance; OPCODE_BITS];
        for index in 0..OPCODE_BITS
            invariant
                inputs@.len() == 8,
                forall|k: int|
                    0 <= k < index ==> #[trigger] complements@[k] == gates::not_signal(inputs@[k]),
        {
            let mut single = [Signal::HighImpedance];
            self.nots[index].conduct_into(&[inputs[index]], &mut single)?;
            complements[index] = single[0];
        }
        let mut offset: usize = 0;
        for instr in 0..INSTRUCTION_COUNT
            invariant
                inputs@.len() == 8,
                outputs@.len() == 24,
                forall|k: int|
                    0 <= k < 8 ==> #[trigger] complements@[k] == gates::not_signal(inputs@[k]),
                offset == decode_ands(instr as nat),
                forall|k: int|
                    0 <= k < instr ==> #[trigger] outputs@[k] == instruction_signal(k, inputs@),
        {
            proof {
                lemma_decode_ands(instr as nat);
            }
            outputs[instr] = self.wire_chain(inputs, &complements, instr, offset)?;
            offset = offset + if takes_operand(instr) {
                3
            } else {
                7
            };
        }
        assert(outputs@ =~= Seq::new(24, |instr: int| instruction_signal(instr, inputs@)));
        Ok(())
    }

    fn transistor_count(&self) -> (count: usize) {
        let mut nots: usize = 0;
        for index in 0..OPCODE_BITS
            invariant
                nots == 2 * index,
        {
            nots += self.nots[index].transistor_count();
        }
        let mut ands: usize = 0;
        for index in 0..DECODE_ANDS
            invariant
                ands == 6 * index,
        {
            ands += self.ands[index].transistor_count();
        }
        nots + ands
    }
}

/// The term at a position of the control matrix: the T-state, then the
/// instruction, the last column standing for every instruction.
pub open spec fn position_term(position: int) -> ControlTerm {
    let t = position / 25;
    let instr = if position % 25 == 24 {
        ANY_INSTR as int
    } else {
        position % 25
    };
    ControlTerm { t: t as u8, instr: instr as u8, flag: condition(t, instr) }
}

/// The terms wired into a line at the first positions of the matrix.
pub open spec fn terms_before(line: int, position: nat) -> Seq<ControlTerm>
    decreases position,
{
    if position == 0 {
        Seq::empty()
    } else {
        let earlier = terms_before(line, (position - 1) as nat);
        let term = position_term(position - 1);
        if wired(line, term) {
            earlier.push(term)
        } else {
            earlier
        }
    }
}

/// The terms wired into a line.
pub open spec fn line_terms(line: int) -> Seq<ControlTerm> {
    terms_before(line, 400)
}

/// AND gates of a row of terms: every term takes one gate per qualifier
/// beyond its T line.
pub open spec fn term_ands(terms: Seq<ControlTerm>) -> nat
    decreases terms.len(),
{
    if terms.len() == 0 {
        0
    } else {
        let last = terms.last();
        term_ands(terms.drop_last()) + (if last.instr == ANY_INSTR {
            0nat
        } else {
            1
        }) + (if last.flag == FLAG_NONE {
            0nat
        } else {
            1
        })
    }
}

/// OR gates of a row of terms: one less than the terms.
pub open spec fn term_ors(terms: Seq<ControlTerm>) -> nat {
    if terms.len() == 0 {
        0
    } else {
        (terms.len() - 1) as nat
    }
}

/// AND gates of the lines before this one.
pub open spec fn control_ands(line: nat) -> nat
    decreases line,
{
    if line == 0 {
        0
    } else {
        control_ands((line - 1) as nat) + term_ands(line_terms(line - 1))
    }
}

/// OR gates of the lines before this one, after a spare one.
pub open spec fn control_ors(line: nat) -> nat
    decreases line,
{
    if line == 0 {
        1
    } else {
        control_ors((line - 1) as nat) + term_ors(line_terms(line - 1))
    }
}

/// Every wired term has a position in the matrix.
proof fn lemma_term_position(line: int, term: ControlTerm)
    requires
        wired(line, term),
    ensures
        ({
            let position = 25 * term.t + if term.instr == ANY_INSTR {
                24int
            } else {
                term.instr as int
            };
            &&& 0 <= position < 400
            &&& position_term(position) == term
        }),
{
}

/// The terms of a line are exactly the wired ones.
proof fn lemma_terms_before(line: int, position: nat, term: ControlTerm)
    requires
        position <= 400,
    ensures
        terms_before(line, position).contains(term) <==> wired(line, term) && exists|earlier: int|
            0 <= earlier < position && #[trigger] position_term(earlier) == term,
    decreases position,
{
    if position > 0 {
        lemma_terms_before(line, (position - 1) as nat, term);
        let earlier = terms_before(line, (position - 1) as nat);
        let here = position_term(position - 1);
        let terms = terms_before(line, position);
        if wired(line, here) {
            assert(terms == earlier.push(here));
            assert(terms.contains(term) <==> earlier.contains(term) || term == here) by {
                if term == here {
                    assert(terms[terms.len() - 1] == term);
                }
                if earlier.contains(term) {
                    let k = choose|k: int| 0 <= k < earlier.len() && earlier[k] == term;
                    assert(terms[k] == term);
                }
                if terms.contains(term) && term != here {
                    let k = choose|k: int| 0 <= k < terms.len() && terms[k] == term;
                    assert(earlier[k] == term);
                }
            }
        }
    } else {
        assert(!terms_before(line, 0).contains(term));
    }
}

/// The terms of a line are exactly the wired ones.
proof fn lemma_line_terms(line: int, term: ControlTerm)
    ensures
        line_terms(line).contains(term) <==> wired(line, term),
{
    lemma_terms_before(line, 400, term);
    if wired(line, term) {
        lemma_term_position(line, term);
        let position = 25 * term.t + if term.instr == ANY_INSTR {
            24int
        } else {
            term.instr as int
        };
        assert(position_term(position) == term);
    }
}

/// A part of a row of terms takes no more AND gates than the row.
proof fn lemma_term_ands(terms: Seq<ControlTerm>, count: int)
    requires
        0 <= count <= terms.len(),
    ensures
        term_ands(terms.take(count)) <= term_ands(terms),
        count < terms.len() ==> term_ands(terms.take(count + 1)) == term_ands(terms.take(count)) + (
        if terms[count].instr == ANY_INSTR {
            0nat
        } else {
            1
        }) + (if terms[count].flag == FLAG_NONE {
            0nat
        } else {
            1
        }) && term_ands(terms.take(count + 1)) <= term_ands(terms),
    decreases terms.len() - count,
{
    if count < terms.len() {
        lemma_term_ands(terms, count + 1);
        assert(terms.take(count + 1).drop_last() =~= terms.take(count));
    } else {
        assert(terms.take(count) =~= terms);
    }
}

/// The gates of the first lines are among the gates of all lines.
proof fn lemma_control_gates(line: nat)
    requires
        line <= 29,
    ensures
        control_ands(line) <= control_ands(29),
        control_ors(line) <= control_ors(29),
        line < 29 ==> control_ands(line) + term_ands(line_terms(line as int)) <= control_ands(29),
        line < 29 ==> control_ors(line) + term_ors(line_terms(line as int)) <= control_ors(29),
    decreases 29 - line,
{
    if line < 29 {
        lemma_control_gates(line + 1);
    }
}

/// A line takes at most two AND gates and one OR gate per position.
proof fn lemma_line_gates(line: int, position: nat)
    ensures
        term_ands(terms_before(line, position)) <= 2 * position,
        terms_before(line, position).len() <= position,
    decreases position,
{
    if position > 0 {
        lemma_line_gates(line, (position - 1) as nat);
        let earlier = terms_before(line, (position - 1) as nat);
        let term = position_term(position - 1);
        if wired(line, term) {
            assert(earlier.push(term).drop_last() =~= earlier);
        }
    }
}

/// The matrix has no more gates than its positions allow.
pub proof fn lemma_gate_bound(line: nat)
    ensures
        control_ands(line) <= 800 * line,
        control_ors(line) <= 1 + 400 * line,
    decreases line,
{
    if line > 0 {
        lemma_gate_bound((line - 1) as nat);
        lemma_line_gates(line - 1, 400);
    }
}

/// The OR of the first terms of a row, as far as it is decided.
spec fn partial_or(acc: Signal, terms: Seq<ControlTerm>, inputs: Seq<Signal>) -> bool {
    &&& acc == Signal::Driven(Bit::High) <==> exists|k: int|
        0 <= k < terms.len() && term_signal(#[trigger] terms[k], inputs) == Signal::Driven(
            Bit::High,
        )
    &&& acc == Signal::Driven(Bit::Low) <==> forall|k: int|
        0 <= k < terms.len() ==> term_signal(#[trigger] terms[k], inputs) == Signal::Driven(
            Bit::Low,
        )
}

/// One more term in the OR.
proof fn lemma_partial_or(acc: Signal, terms: Seq<ControlTerm>, inputs: Seq<Signal>, count: int)
    requires
        0 <= count < terms.len(),
        partial_or(acc, terms.take(count), inputs),
    ensures
        partial_or(
            gates::or_signal(acc, term_signal(terms[count], inputs)),
            terms.take(count + 1),
            inputs,
        ),
{
    let before = terms.take(count);
    let after = terms.take(count + 1);
    let last = term_signal(terms[count], inputs);
    assert(after[count] == terms[count]);
    assert forall|k: int| 0 <= k < count implies #[trigger] after[k] == before[k] by {
    }
    if acc == Signal::Driven(Bit::High) {
        let k = choose|k: int|
            0 <= k < before.len() && term_signal(#[trigger] before[k], inputs) == Signal::Driven(
                Bit::High,
            );
        assert(after[k] == before[k]);
    }
    if exists|k: int|
        0 <= k < after.len() && term_signal(#[trigger] after[k], inputs) == Signal::Driven(
            Bit::High,
        ) {
        let k = choose|k: int|
            0 <= k < after.len() && term_signal(#[trigger] after[k], inputs) == Signal::Driven(
                Bit::High,
            );
        if k < count {
            assert(before[k] == after[k]);
        }
    }
    if acc == Signal::Driven(Bit::Low) && last == Signal::Driven(Bit::Low) {
        assert forall|k: int| 0 <= k < after.len() implies term_signal(#[trigger] after[k], inputs)
            == Signal::Driven(Bit::Low) by {
            if k < count {
                assert(before[k] == after[k]);
            }
        }
    }
    if forall|k: int|
        0 <= k < after.len() ==> term_signal(#[trigger] after[k], inputs) == Signal::Driven(
            Bit::Low,
        ) {
        assert forall|k: int| 0 <= k < before.len() implies term_signal(
            #[trigger] before[k],
            inputs,
        ) == Signal::Driven(Bit::Low) by {
            assert(before[k] == after[k]);
        }
    }
}

/// The OR of all terms of a line is the signal of the line.
proof fn lemma_line_or(line: int, acc: Signal, inputs: Seq<Signal>)
    requires
        partial_or(acc, line_terms(line), inputs),
    ensures
        acc == line_signal(line, inputs),
{
    let terms = line_terms(line);
    assert forall|k: int| 0 <= k < terms.len() implies wired(line, #[trigger] terms[k]) by {
        lemma_line_terms(line, terms[k]);
        assert(terms.contains(terms[k]));
    }
    assert forall|term: ControlTerm| #[trigger] wired(line, term) implies terms.contains(term) by {
        lemma_line_terms(line, term);
    }
    if exists|term: ControlTerm| #[trigger]
        wired(line, term) && term_signal(term, inputs) == Signal::Driven(Bit::High) {
        let term = choose|term: ControlTerm| #[trigger]
            wired(line, term) && term_signal(term, inputs) == Signal::Driven(Bit::High);
        let k = choose|k: int| 0 <= k < terms.len() && terms[k] == term;
        assert(term_signal(terms[k], inputs) == Signal::Driven(Bit::High));
    }
    if forall|k: int|
        0 <= k < terms.len() ==> term_signal(#[trigger] terms[k], inputs) == Signal::Driven(
            Bit::Low,
        ) {
        assert forall|term: ControlTerm| #[trigger] wired(line, term) implies term_signal(
            term,
            inputs,
        ) == Signal::Driven(Bit::Low) by {
            let k = choose|k: int| 0 <= k < terms.len() && terms[k] == term;
            assert(term_signal(terms[k], inputs) == Signal::Driven(Bit::Low));
        }
    }
}

/// Whether a control line is wired to a T-state of an instruction.
fn is_wired(line: usize, t: u8, number: u8) -> (r: bool)
    ensures
        r == wired_at(line as int, t as int, number as int),
{
    let instr = number as usize;
    if line == LN_PC_ENABLE || line == LN_PC_COUNT {
        (t == 0 && number == ANY_INSTR)
        || (t == 2 && takes_operand(instr))
        || (t == 5 && takes_address(instr))
    } else if line == LN_SP_ENABLE {
        (t == 2 && instr == IN_PSHA)
        || (t == 3 && (instr == IN_RET || instr == IN_POPA))
        || (t == 5 && instr == IN_RET)
        || (t == 7 && instr == IN_CALL)
    } else if line == LN_MAR_IN {
        (t == 0 && number == ANY_INSTR)
        || (t == 2 && (takes_operand(instr) || instr == IN_PSHA))
        || (t == 3 && (instr == IN_RET || instr == IN_POPA))
        || (t == 5 && instr == IN_RET)
        || (t == 7 && instr == IN_CALL)
    } else if line == LN_MAR_LO_IN {
        t == 3 && takes_address(instr)
    } else if line == LN_MAR_HI_IN {
        t == 5 && takes_address(instr)
    } else if line == LN_PC_LOAD {
        t == 6 && (instr == IN_JMP || instr == IN_JZ || instr == IN_JNZ || instr == IN_JM || instr
            == IN_CALL)
    } else if line == LN_PC_SAVE_LO {
        t == 6 && instr == IN_RET
    } else if line == LN_PC_SAVE_HI {
        t == 4 && instr == IN_RET
    } else if line == LN_PC_OUT_LO {
        t == 8 && instr == IN_CALL
    } else if line == LN_PC_OUT_HI {
        t == 9 && instr == IN_CALL
    } else if line == LN_SP_COUNT_UP {
        (t == 2 && (instr == IN_RET || instr == IN_POPA))
        || (t == 3 && instr == IN_RET)
    } else if line == LN_SP_COUNT_DOWN {
        (t == 3 && instr == IN_PSHA) || ((t == 8 || t == 9) && instr == IN_CALL)
    } else if line == LN_MEM_READ {
        (t == 1 && number == ANY_INSTR)
        || (t == 3 && takes_operand(instr))
        || (t == 4 && (instr == IN_POPA || instr == IN_RET))
        || (t == 5 && takes_address(instr))
        || (t == 6 && (instr == IN_LDA || instr == IN_RET))
    } else if line == LN_MEM_WRITE {
        (t == 6 && instr == IN_STA)
        || (t == 3 && instr == IN_PSHA) || ((t == 8 || t == 9) && instr == IN_CALL)
    } else if line == LN_IR_IN {
        t == 1 && number == ANY_INSTR
    } else if line == LN_ACC_IN {
        (t == 2 && ((IN_ADD <= instr && instr <= IN_DCRA) || instr == IN_IN))
        || (t == 3 && instr == IN_MVIA)
        || (t == 4 && instr == IN_POPA)
        || (t == 6 && instr == IN_LDA)
    } else if line == LN_ACC_OUT {
        (t == 2 && instr == IN_OUT)
        || (t == 3 && instr == IN_PSHA)
        || (t == 6 && instr == IN_STA)
    } else if line == LN_B_IN {
        t == 3 && instr == IN_MVIB
    } else if line == LN_ALU_OUT {
        t == 2 && (IN_ADD <= instr && instr <= IN_DCRA)
    } else if line == LN_FLAGS_IN {
        t == 2 && (IN_ADD <= instr && instr <= IN_DCRA) && instr != IN_CMA
    } else if line == LN_IN_ENABLE {
        t == 2 && instr == IN_IN
    } else if line == LN_OUT_SAVE {
        t == 2 && instr == IN_OUT
    } else if line == LN_HALT {
        t == 2 && instr == IN_HLT
    } else if line == LN_SEQ_RESET {
        (t == 2 && ((IN_ADD <= instr && instr <= IN_DCRA) || instr == IN_NOP || instr == IN_IN
            || instr == IN_OUT || instr == IN_HLT))
        || (t == 3 && (instr == IN_MVIA || instr == IN_MVIB || instr == IN_PSHA))
        || (t == 4 && instr == IN_POPA)
        || (t == 6 && ((takes_address(instr) && instr != IN_CALL) || instr == IN_RET))
        || (t == 9 && instr == IN_CALL)
    } else if line == LN_OP0 {
        t == 2 && (instr == IN_SUB || instr == IN_ORA || instr == IN_CMA || instr == IN_DCRA)
    } else if line == LN_OP1 {
        t == 2 && (instr == IN_ANA || instr == IN_ORA || instr == IN_INRA || instr == IN_DCRA)
    } else if line == LN_OP2 {
        t == 2 && (instr == IN_XRA || instr == IN_CMA || instr == IN_INRA || instr == IN_DCRA)
    } else {
        false
    }
}

/// The flag that qualifies a T-state of an instruction.
fn qualifier(t: u8, instr: u8) -> (flag: u8)
    ensures
        flag == condition(t as int, instr as int),
{
    if t == 6 && instr as usize == IN_JZ {
        FLAG_Z
    } else if t == 6 && instr as usize == IN_JNZ {
        FLAG_NOT_Z
    } else if t == 6 && instr as usize == IN_JM {
        FLAG_S
    } else {
        FLAG_NONE
    }
}

/// Collect the terms wired into a line.
fn program_line(line: usize) -> (terms: Vec<ControlTerm>)
    ensures
        terms@ == line_terms(line as int),
{
    let mut terms: Vec<ControlTerm> = Vec::new();
    for position in 0..POSITIONS
        invariant
            terms@ == terms_before(line as int, position as nat),
    {
        let t = (position / 25) as u8;
        let instr = if position % 25 == 24 {
            ANY_INSTR
        } else {
            (position % 25) as u8
        };
        let flag = qualifier(t, instr);
        assert(position_term(position as int) == (ControlTerm { t, instr, flag }));
        if is_wired(line, t, instr) {
            terms.push(ControlTerm { t, instr, flag });
        }
    }
    terms
}

/// The SAP-2 control unit: the decoded micro-state (one-hot T lines), the
/// decoded opcode (one-hot instruction lines) and the flags feed a two-level
/// AND/OR matrix that drives all 29 control lines.
///
/// The matrix is programmed from [`wired_at`] the way a programmable logic
/// array is: every term is a physical AND gate, every combination a physical
/// OR tree.
#[derive(Debug)]
pub struct ControlUnit {
    /// Inverted zero flag, for the JNZ term.
    not_zero: NotGate,
    /// Complement tree: the MAR drives the address bus only when neither the
    /// PC nor the SP does.
    mar_or: OrGate,
    mar_not: NotGate,
    /// The programmed terms of every line.
    wiring: Vec<Vec<ControlTerm>>,
    /// One AND gate per qualifier of a term.
    ands: Vec<AndGate>,
    /// The OR trees of the lines.
    ors: Vec<OrGate>,
}

impl Default for ControlUnit {
    fn default() -> (unit: ControlUnit)
        ensures
            unit.wf(),
    {
        let mut wiring: Vec<Vec<ControlTerm>> = Vec::new();
        let mut ands: Vec<AndGate> = Vec::new();
        let mut ors: Vec<OrGate> = Vec::new();
        // One OR gate of the matrix is left unused.
        ors.push(OrGate::default());
        for line in 0..CONTROL_LINES
            invariant
                wiring@.len() == line,
                forall|k: int| 0 <= k < line ==> (#[trigger] wiring@[k])@ == line_terms(k),
                ands@.len() == control_ands(line as nat),
                ors@.len() == control_ors(line as nat),
        {
            let terms = program_line(line);
            let ghost planned = terms@;
            for index in 0..terms.len()
                invariant
                    line < 29,
                    terms@ == line_terms(line as int),
                    ands@.len() == control_ands(line as nat) + term_ands(terms@.take(index as int)),
                    ors@.len() == control_ors(line as nat) + term_ors(terms@.take(index as int)),
            {
                proof {
                    lemma_term_ands(terms@, index as int);
                }
                if terms[index].instr != ANY_INSTR {
                    ands.push(AndGate::default());
                }
                if terms[index].flag != FLAG_NONE {
                    ands.push(AndGate::default());
                }
                if index > 0 {
                    ors.push(OrGate::default());
                }
            }
            assert(terms@.take(terms@.len() as int) =~= terms@);
            wiring.push(terms);
        }
        ControlUnit {
            not_zero: NotGate::default(),
            mar_or: OrGate::default(),
            mar_not: NotGate::default(),
            wiring,
            ands,
            ors,
        }
    }
}

impl View for ControlUnit {
    type V = ();

    closed spec fn view(&self) -> () {
        ()
    }
}

impl ControlUnit {
    /// AND gates of one line.
    fn line_ands(&self, line: usize) -> (count: usize)
        requires
            self.wf(),
            line < 29,
        ensures
            count == term_ands(line_terms(line as int)),
    {
        proof {
            lemma_control_gates(line as nat);
        }
        let mut count: usize = 0;
        let terms = self.wiring[line].len();
        for index in 0..terms
            invariant
                self.wf(),
                line < 29,
                terms == line_terms(line as int).len(),
                term_ands(line_terms(line as int)) <= self.ands.len(),
                count == term_ands(line_terms(line as int).take(index as int)),
        {
            proof {
                lemma_term_ands(line_terms(line as int), index as int);
            }
            let term = self.wiring[line][index];
            if term.instr != ANY_INSTR {
                count = count + 1;
            }
            if term.flag != FLAG_NONE {
                count = count + 1;
            }
        }
        assert(line_terms(line as int).take(line_terms(line as int).len() as int)
            =~= line_terms(line as int));
        count
    }

    /// The net of one term, through its AND gates.
    fn term_net(
        &mut self,
        term: ControlTerm,
        inputs: &[Signal],
        not_zero: Signal,
        offset: usize,
    ) -> (r: Result<Signal, HardwareError>)
        requires
            old(self).wf(),
            inputs@.len() == 43,
            not_zero == gates::not_signal(inputs@[40]),
            term.t < 16,
            term.instr < 24 || term.instr == ANY_INSTR,
            offset + (if term.instr == ANY_INSTR {
                0nat
            } else {
                1
            }) + (if term.flag == FLAG_NONE {
                0nat
            } else {
                1
            }) <= old(self).ands@.len(),
        ensures
            final(self).wf(),
            r == Ok::<Signal, HardwareError>(term_signal(term, inputs@)),
    {
        proof {
            lemma_gate_bound(29);
        }
        let mut next = offset;
        let mut net = inputs[term.t as usize];
        let mut single = [Signal::HighImpedance];
        if term.instr != ANY_INSTR {
            self.ands[next].conduct_into(&[net, inputs[16 + term.instr as usize]], &mut single)?;
            net = single[0];
            next = next + 1;
        }
        if term.flag != FLAG_NONE {
            let flag = if term.flag == FLAG_Z {
                inputs[40]
            } else if term.flag == FLAG_NOT_Z {
                not_zero
            } else {
                inputs[42]
            };
            self.ands[next].conduct_into(&[net, flag], &mut single)?;
            net = single[0];
        }
        Ok(net)
    }

    /// Evaluate every term of a line and combine them with its OR tree.
    fn drive_line(
        &mut self,
        line: usize,
        inputs: &[Signal],
        not_zero: Signal,
        and_offset: usize,
        or_offset: usize,
    ) -> (r: Result<Signal, HardwareError>)
        requires
            old(self).wf(),
            line < 29,
            inputs@.len() == 43,
            not_zero == gates::not_signal(inputs@[40]),
            and_offset + term_ands(line_terms(line as int)) <= old(self).ands@.len(),
            or_offset + term_ors(line_terms(line as int)) <= old(self).ors@.len(),
        ensures
            final(self).wf(),
            r == Ok::<Signal, HardwareError>(line_signal(line as int, inputs@)),
    {
        let ghost terms = line_terms(line as int);
        let count = self.wiring[line].len();
        let mut offset = and_offset;
        let mut acc = Signal::Driven(Bit::Low);
        assert(partial_or(acc, terms.take(0), inputs@));
        for index in 0..count
            invariant
                self.wf(),
                line < 29,
                inputs@.len() == 43,
                not_zero == gates::not_signal(inputs@[40]),
                terms == line_terms(line as int),
                count == terms.len(),
                self.ands@.len() == old(self).ands@.len(),
                self.ors@.len() == old(self).ors@.len(),
                and_offset + term_ands(terms) <= self.ands@.len(),
                or_offset + term_ors(terms) <= self.ors@.len(),
                offset == and_offset + term_ands(terms.take(index as int)),
                index == 0 ==> acc == Signal::Driven(Bit::Low),
                partial_or(acc, terms.take(index as int), inputs@),
        {
            let term = self.wiring[line][index];
            proof {
                lemma_gate_bound(29);
                assert(terms[index as int] == term);
                lemma_line_terms(line as int, term);
                assert(terms.contains(term));
                lemma_term_ands(terms, index as int);
                lemma_partial_or(acc, terms, inputs@, index as int);
            }
            let net = self.term_net(term, inputs, not_zero, offset)?;
            if term.instr != ANY_INSTR {
                offset = offset + 1;
            }
            if term.flag != FLAG_NONE {
                offset = offset + 1;
            }
            // A single term passes through directly.
            if index == 0 {
                acc = net;
            } else {
                let mut single = [Signal::HighImpedance];
                self.ors[or_offset + (index - 1)].conduct_into(&[acc, net], &mut single)?;
                acc = single[0];
            }
        }
        proof {
            assert(terms.take(terms.len() as int) =~= terms);
            lemma_line_or(line as int, acc, inputs@);
        }
        Ok(acc)
    }
}

impl Component for ControlUnit {
    /// Inputs:
    ///
    /// - 0..16: T-states, one-hot (from the [`Sequencer`])
    /// - 16..40: instruction lines, one-hot (from the [`InstructionDecoder`])
    /// - 40: zero flag
    /// - 41: carry flag (unused by this matrix, wired for symmetry)
    /// - 42: sign flag
    ///
    /// Outputs:
    ///
    /// - 0..29: control lines, see the `LN_*` constants.
    const INPUTS: usize = 43;

    const OUTPUTS: usize = 29;

    open spec fn fan_in() -> nat {
        43
    }

    open spec fn fan_out() -> nat {
        29
    }

    proof fn arity() {
    }

    closed spec fn wf(&self) -> bool {
        &&& self.wiring@.len() == 29
        &&& forall|line: int|
            0 <= line < 29 ==> (#[trigger] self.wiring@[line])@ == line_terms(line)
        &&& self.ands@.len() == control_ands(29)
        &&& self.ors@.len() == control_ors(29)
    }

    open spec fn admits(state: (), inputs: Seq<Signal>, slots: nat) -> bool {
        slots == 29
    }

    open spec fn respond(
        state: (),
        inputs: Seq<Signal>,
        outputs: Seq<Signal>,
    ) -> Response<()> {
        hardware::steady(Seq::new(29, |line: int| control_signal(line, inputs)))
    }

    open spec fn transistors() -> nat {
        10 + 6 * control_ands(29) + 6 * control_ors(29)
    }

    fn conduct_into(&mut self, inputs: &[Signal], outputs: &mut [Signal]) -> (r: Result<
        (),
        HardwareError,
    >) {
        if inputs.len() != 43 {
            return Err(
                HardwareError::InvalidInputCount { expected: 43, actual: inputs.len() },
            );
        }
        let mut single = [Signal::HighImpedance];
        self.not_zero.conduct_into(&[inputs[40]], &mut single)?;
        let not_zero = single[0];

        let mut and_offset: usize = 0;
        let mut or_offset: usize = 1;
        for line in 0..CONTROL_LINES
            invariant
                self.wf(),
                inputs@.len() == 43,
                outputs@.len() == 29,
                not_zero == gates::not_signal(inputs@[40]),
                and_offset == control_ands(line as nat),
                or_offset == control_ors(line as nat),
                forall|k: int|
                    0 <= k < line ==> #[trigger] outputs@[k] == line_signal(k, inputs@),
        {
            proof {
                lemma_gate_bound(29);
                lemma_control_gates(line as nat);
                lemma_control_gates(line as nat + 1);
            }
            outputs[line] = self.drive_line(line, inputs, not_zero, and_offset, or_offset)?;
            and_offset = and_offset + self.line_ands(line);
            let terms = self.wiring[line].len();
            or_offset = or_offset + if terms > 0 {
                terms - 1
            } else {
                0
            };
        }

        // mar_enable = NOT(pc_enable OR sp_enable): the address bus never
        // has two drivers.
        self.mar_or.conduct_into(
            &[outputs[LN_PC_ENABLE], outputs[LN_SP_ENABLE]],
            &mut single,
        )?;
        let driven = single[0];
        self.mar_not.conduct_into(&[driven], &mut single)?;
        outputs[LN_MAR_ENABLE] = single[0];
        assert(outputs@ =~= Seq::new(29, |line: int| control_signal(line, inputs@)));
        Ok(())
    }

    fn transistor_count(&self) -> (count: usize) {
        proof {
            lemma_gate_bound(29);
        }
        let mut ands: usize = 0;
        for index in 0..self.ands.len()
            invariant
                self.wf(),
                control_ands(29) + control_ors(29) <= 34_801,
                ands == 6 * index,
        {
            ands += self.ands[index].transistor_count();
        }
        let mut ors: usize = 0;
        for index in 0..self.ors.len()
            invariant
                self.wf(),
                control_ands(29) + control_ors(29) <= 34_801,
                ors == 6 * index,
        {
            ors += self.ors[index].transistor_count();
        }
        self.not_zero.transistor_count() + self.mar_or.transistor_count()
            + self.mar_not.transistor_count() + ands + ors
    }
}

/// What a sequencer that stores `stored` preloads: the next count, or zero
/// when `reset` is High.
pub open spec fn sequencer_next(stored: Seq<Bit>, reset: Signal) -> Seq<Signal> {
    let counted = utils::value_bits((utils::bits_value(stored) + 1) % 16, 4);
    mux::mux_row(
        hardware::driven(counted),
        Seq::new(4, |i: int| Signal::Driven(Bit::Low)),
        reset,
    )
}

/// With a driven `reset`, the sequencer counts modulo 16 or restarts.
pub proof fn law_sequencer_next(count: nat, reset: bool)
    requires
        count < 16,
    ensures
        sequencer_next(
            utils::value_bits(count, 4),
            Signal::Driven(hardware::bit_of(reset)),
        ) == hardware::driven(
            utils::value_bits(
                if reset {
                    0
                } else {
                    (count + 1) % 16
                },
                4,
            ),
        ),
{
    power2::lemma2_to64();
    utils::lemma_bits_of_value(count, 4);
    utils::lemma_bits_of_value(0, 4);
    utils::lemma_bits_of_value((count + 1) % 16, 4);
    assert(utils::value_bits(0, 4) =~= Seq::new(4, |i: int| Bit::Low)) by {
        reveal_with_fuel(utils::value_bits, 5);
    }
    let next: nat = if reset {
        0
    } else {
        (count + 1) % 16
    };
    assert(sequencer_next(
        utils::value_bits(count, 4),
        Signal::Driven(hardware::bit_of(reset)),
    ) =~= hardware::driven(utils::value_bits(next, 4)));
}

/// A ripple of half adders that starts with a High carry adds one to a
/// nibble.
proof fn lemma_nibble_increment(bits: Seq<Bit>)
    requires
        bits.len() == 4,
    ensures
        arithmetic::ripple_sum(
            hardware::driven(bits),
            Seq::new(4, |i: int| Signal::Driven(Bit::Low)),
            Signal::Driven(Bit::High),
        ) == hardware::driven(utils::value_bits((utils::bits_value(bits) + 1) % 16, 4)),
{
    let zero = Seq::new(4, |i: int| Bit::Low);
    let sum = arithmetic::ripple_sum(
        hardware::driven(bits),
        hardware::driven(zero),
        Signal::Driven(Bit::High),
    );
    let levels = hardware::levels(sum);
    assert(hardware::driven(zero) =~= Seq::new(4, |i: int| Signal::Driven(Bit::Low)));
    arithmetic::lemma_uniform_value(4);
    arithmetic::law_ripple_adds(bits, zero, Bit::High);
    power2::lemma2_to64();
    utils::lemma_bits_value_bound(bits);
    utils::lemma_bits_value_bound(levels);
    utils::lemma_value_of_bits(levels);
    assert(hardware::driven(levels) =~= sum) by {
        assert forall|i: int| 0 <= i < 4 implies hardware::driven(levels)[i] == sum[i] by {
            assert(sum[i] is Driven);
        }
    }
}

/// The SAP-2 sequencer: a free-running 4-bit T-state counter whose outputs
/// are decoded into [`T_STATES`] one-hot lines.
///
/// On every rising clock edge the counter advances by one, unless `reset` is
/// High: then it reloads zero, which restarts the fetch. The reset decision
/// comes combinationally from the control unit (`seq_reset`), so
/// micro-programs of different lengths all share this single counter.
///
/// Power-on state is all-zeros, i.e. T0: no initialization hardware is
/// needed.
#[derive(Debug)]
pub struct Sequencer {
    flip_flops: [DFlipFlopSave; 4],
    /// Half-adder chain computing `state + 1` (carry-in High).
    half_adders: [HalfAdder; 4],
    /// Per bit: next count, or zero when `reset` is High.
    reset_muxes: [Mux2x1; 4],
    decoder: Decoder4to16,
}

impl Default for Sequencer {
    fn default() -> (sequencer: Sequencer)
        ensures
            sequencer.wf(),
            sequencer@ == memory::blank_row(4),
    {
        let sequencer = Sequencer {
            flip_flops: [
                DFlipFlopSave::default(),
                DFlipFlopSave::default(),
                DFlipFlopSave::default(),
                DFlipFlopSave::default(),
            ],
            half_adders: [HalfAdder::default(); 4],
            reset_muxes: [Mux2x1::default(); 4],
            decoder: Decoder4to16::default(),
        };
        assert(sequencer@ =~= memory::blank_row(4));
        sequencer
    }
}

impl View for Sequencer {
    type V = Seq<FlipFlopState>;

    closed spec fn view(&self) -> Seq<FlipFlopState> {
        Seq::new(4, |i: int| self.flip_flops@[i]@)
    }
}

impl Sequencer {
    /// The stored 4-bit count, least significant bit first.
    pub fn state(&self) -> (bits: [Bit; 4])
        requires
            self.wf(),
        ensures
            bits@ == latches::slaves(self@),
    {
        let bits = [
            self.flip_flops[0].q(),
            self.flip_flops[1].q(),
            self.flip_flops[2].q(),
            self.flip_flops[3].q(),
        ];
        assert(bits@ =~= latches::slaves(self@));
        bits
    }

    /// The count is kept in four flip-flops.
    pub proof fn lemma_width(&self)
        ensures
            self@.len() == 4,
    {
    }
}

impl Component for Sequencer {
    /// Inputs:
    ///
    /// - 0: clock
    /// - 1: reset, reload T0 on the rising edge when High
    ///
    /// Outputs:
    ///
    /// - 0..16: one-hot T lines of the count before the propagation.
    const INPUTS: usize = 2;

    const OUTPUTS: usize = 16;

    open spec fn fan_in() -> nat {
        2
    }

    open spec fn fan_out() -> nat {
        16
    }

    proof fn arity() {
    }

    closed spec fn wf(&self) -> bool {
        forall|i: int| 0 <= i < 4 ==> (#[trigger] self.flip_flops@[i]).wf()
    }

    open spec fn admits(state: Seq<FlipFlopState>, inputs: Seq<Signal>, slots: nat) -> bool {
        slots == 16
    }

    open spec fn respond(
        state: Seq<FlipFlopState>,
        inputs: Seq<Signal>,
        outputs: Seq<Signal>,
    ) -> Response<Seq<FlipFlopState>> {
        {
            let high = Signal::Driven(Bit::High);
            let data = sequencer_next(latches::slaves(state), inputs[1]);
            let result = memory::row_result(state, data, inputs[0], high);
            Response {
                state: memory::row_next(state, data, inputs[0], high),
                outputs: if result is Ok {
                    decoder::decoded_lines(hardware::driven(latches::slaves(state)))
                } else {
                    outputs
                },
                result,
            }
        }
    }

    open spec fn transistors() -> nat {
        584
    }

    fn conduct_into(&mut self, inputs: &[Signal], outputs: &mut [Signal]) -> (r: Result<
        (),
        HardwareError,
    >) {
        if inputs.len() != 2 {
            return Err(
                HardwareError::InvalidInputCount { expected: 2, actual: inputs.len() },
            );
        }
        let clock = inputs[0];
        let reset = inputs[1];
        let tied_high = Signal::Driven(Bit::High);
        let ghost row = self@;
        let ghost bits = latches::slaves(row);
        let ghost zero = Seq::new(4, |i: int| Signal::Driven(Bit::Low));
        let ghost held = hardware::driven(bits);
        let ghost data = sequencer_next(bits, reset);
        proof {
            lemma_nibble_increment(bits);
        }

        let stored = self.state();
        let state = [
            Signal::Driven(stored[0]),
            Signal::Driven(stored[1]),
            Signal::Driven(stored[2]),
            Signal::Driven(stored[3]),
        ];
        assert(state@ =~= held);

        let mut carry = tied_high;
        for index in 0..4
            invariant
                forall|i: int| 0 <= i < 4 ==> (#[trigger] self.flip_flops@[i]).wf(),
                inputs@.len() == 2,
                clock == inputs@[0],
                reset == inputs@[1],
                tied_high == Signal::Driven(Bit::High),
                outputs@ == old(outputs)@,
                row == old(self)@,
                row.len() == 4,
                bits == latches::slaves(row),
                held == hardware::driven(bits),
                state@ == held,
                zero == Seq::new(4, |i: int| Signal::Driven(Bit::Low)),
                data == sequencer_next(bits, reset),
                arithmetic::ripple_sum(held, zero, tied_high) == hardware::driven(
                    utils::value_bits((utils::bits_value(bits) + 1) % 16, 4),
                ),
                carry == arithmetic::ripple_carry(held, zero, tied_high, index as nat),
                memory::steps(row, data, clock, tied_high, index as nat) == index,
                forall|i: int|
                    0 <= i < index ==> Ok::<FlipFlopState, HardwareError>(
                        (#[trigger] self.flip_flops@[i])@,
                    ) == memory::step_at(row, data, clock, tied_high, i),
                forall|i: int| index <= i < 4 ==> (#[trigger] self.flip_flops@[i])@ == row[i],
        {
            let ghost before = carry;
            let mut both = [Signal::HighImpedance; 2];
            self.half_adders[index].conduct_into(&[state[index], carry], &mut both)?;
            carry = both[1];
            assert(both@[0] == arithmetic::ripple_sum(held, zero, tied_high)[index as int]);

            // reset High forces the bit to zero, whatever the count.
            let mut single = [Signal::HighImpedance];
            self.reset_muxes[index].conduct_into(
                &[both[0], Signal::Driven(Bit::Low), reset],
                &mut single,
            )?;
            assert(single@[0] == data[index as int]);

            // Capture on every rising edge: the counter always runs.
            match self.flip_flops[index].conduct_into(
                &[single[0], clock, tied_high],
                &mut both,
            ) {
                Ok(()) => {},
                Err(error) => {
                    proof {
                        memory::lemma_steps_stop(row, data, clock, tied_high, index as nat, 4);
                        assert(self@ =~= memory::row_next(row, data, clock, tied_high));
                    }
                    return Err(error);
                },
            }
        }
        assert(self@ =~= memory::row_next(row, data, clock, tied_high));
        self.decoder.conduct_into(&state, outputs)
    }

    fn transistor_count(&self) -> (count: usize) {
        let mut flip_flops: usize = 0;
        let mut half_adders: usize = 0;
        let mut reset_muxes: usize = 0;
        for index in 0..4
            invariant
                self.wf(),
                flip_flops == 66 * index,
                half_adders == 22 * index,
                reset_muxes == 20 * index,
        {
            flip_flops += self.flip_flops[index].transistor_count();
            half_adders += self.half_adders[index].transistor_count();
            reset_muxes += self.reset_muxes[index].transistor_count();
        }
        flip_flops + half_adders + reset_muxes + self.decoder.transistor_count()
    }
}

/// The opcode table, byte by byte: an opcode with an operand takes a whole
/// high nibble, every other opcode is a single byte, and the bytes in
/// between encode nothing.
pub proof fn law_opcode_table(opcode: u8)
    ensures
        instruction_of(opcode) == if opcode == 0x00 {
            Some(IN_NOP as int)
        } else if 0x10 <= opcode <= 0x1F {
            Some(IN_LDA as int)
        } else if 0x20 <= opcode <= 0x2F {
            Some(IN_STA as int)
        } else if 0x30 <= opcode <= 0x3F {
            Some(IN_MVIA as int)
        } else if 0x40 <= opcode <= 0x4F {
            Some(IN_MVIB as int)
        } else if 0x50 <= opcode <= 0x57 {
            Some(IN_ADD + (opcode - 0x50))
        } else if opcode == 0x60 {
            Some(IN_IN as int)
        } else if opcode == 0x61 {
            Some(IN_OUT as int)
        } else if 0x70 <= opcode <= 0x7F {
            Some(IN_JMP as int)
        } else if 0x80 <= opcode <= 0x8F {
            Some(IN_JZ as int)
        } else if 0x90 <= opcode <= 0x9F {
            Some(IN_JNZ as int)
        } else if 0xA0 <= opcode <= 0xAF {
            Some(IN_JM as int)
        } else if 0xB0 <= opcode <= 0xBF {
            Some(IN_CALL as int)
        } else if opcode == 0xC0 {
            Some(IN_RET as int)
        } else if opcode == 0xC1 {
            Some(IN_PSHA as int)
        } else if opcode == 0xC2 {
            Some(IN_POPA as int)
        } else if opcode == 0xF0 {
            Some(IN_HLT as int)
        } else {
            None
        },
{
    let instr: int = if opcode < 0x10 {
        IN_NOP as int
    } else if opcode < 0x20 {
        IN_LDA as int
    } else if opcode < 0x30 {
        IN_STA as int
    } else if opcode < 0x40 {
        IN_MVIA as int
    } else if opcode < 0x50 {
        IN_MVIB as int
    } else if opcode < 0x60 {
        IN_ADD + (opcode - 0x50)
    } else if opcode < 0x70 {
        IN_IN + (opcode - 0x60)
    } else if opcode < 0xC0 {
        IN_JMP + (opcode - 0x70) / 16
    } else if opcode < 0xD0 {
        IN_RET + (opcode - 0xC0)
    } else {
        IN_HLT as int
    };
    if 0 <= instr < 24 && encodes(opcode, instr) {
        law_encoding_unambiguous(opcode, instr, instr);
    } else {
        assert forall|other: int| 0 <= other < 24 implies !(#[trigger] encodes(
            opcode,
            other,
        )) by {}
    }
}

/// The instruction decoder on a driven opcode: every line is driven, and
/// the one that is High, if any, is that of the instruction which the
/// opcode encodes.
pub proof fn law_decoder_lines(opcode: u8, outputs: Seq<Signal>, instr: int)
    requires
        0 <= instr < 24,
    ensures
        ({
            let response = InstructionDecoder::respond(
                (),
                hardware::driven(utils::byte_bits(opcode)),
                outputs,
            );
            &&& response.result == Ok::<(), HardwareError>(())
            &&& response.outputs.len() == 24
            &&& response.outputs[instr] == Signal::Driven(
                if instruction_of(opcode) == Some(instr) {
                    Bit::High
                } else {
                    Bit::Low
                },
            )
        }),
{
    law_opcode_decodes(opcode, instr);
}

/// Whether some input lines say that a T-state is active, that an
/// instruction or none is decoded, and how the flags stand.
pub open spec fn inputs_say(
    inputs: Seq<Bit>,
    t: int,
    instr: Option<int>,
    zero: bool,
    carry: bool,
    sign: bool,
) -> bool {
    &&& inputs.len() == 43
    &&& forall|i: int| 0 <= i < 16 ==> ((#[trigger] inputs[i] == Bit::High) <==> i == t)
    &&& forall|i: int|
        16 <= i < 40 ==> ((#[trigger] inputs[i] == Bit::High) <==> instr == Some(i - 16))
    &&& inputs[40] == Bit::High <==> zero
    &&& inputs[41] == Bit::High <==> carry
    &&& inputs[42] == Bit::High <==> sign
}

/// Whether the control unit raises the given lines, and no others.
pub open spec fn raises(inputs: Seq<Bit>, outputs: Seq<Signal>, lines: Set<int>) -> bool {
    let response = ControlUnit::respond((), hardware::driven(inputs), outputs);
    &&& response.result == Ok::<(), HardwareError>(())
    &&& response.outputs.len() == 29
    &&& forall|line: int|
        0 <= line < 29 ==> #[trigger] response.outputs[line] == Signal::Driven(
            if lines.contains(line) {
                Bit::High
            } else {
                Bit::Low
            },
        )
}

/// The control unit on driven lines is what the micro-program says.
proof fn lemma_raises(
    inputs: Seq<Bit>,
    outputs: Seq<Signal>,
    t: int,
    instr: Option<int>,
    zero: bool,
    carry: bool,
    sign: bool,
    lines: Set<int>,
)
    requires
        inputs_say(inputs, t, instr, zero, carry, sign),
        0 <= t < 16,
        instr is Some ==> 0 <= instr->0 < 24,
        forall|line: int|
            0 <= line < 29 ==> #[trigger] lines.contains(line) == active(
                line,
                t,
                instr,
                zero,
                sign,
            ),
    ensures
        raises(inputs, outputs, lines),
{
    assert(inputs =~= control_inputs(t, instr, zero, carry, sign));
    assert forall|line: int| 0 <= line < 29 implies #[trigger] ControlUnit::respond(
        (),
        hardware::driven(inputs),
        outputs,
    ).outputs[line] == Signal::Driven(
        if lines.contains(line) {
            Bit::High
        } else {
            Bit::Low
        },
    ) by {
        law_control_word(line, t, instr, zero, carry, sign);
        assert(lines.contains(line) == active(line, t, instr, zero, sign));
    }
}

/// The fetch, common to all instructions: at T0 the MAR takes the PC and the
/// PC counts, at T1 the instruction register takes the addressed byte. With
/// no instruction decoded nothing follows.
pub proof fn law_fetch_program(
    inputs: Seq<Bit>,
    outputs: Seq<Signal>,
    t: int,
    instr: Option<int>,
    zero: bool,
    carry: bool,
    sign: bool,
)
    requires
        inputs_say(inputs, t, instr, zero, carry, sign),
        0 <= t < 16,
        instr is Some ==> 0 <= instr->0 < 24,
    ensures
        t == 0 ==> raises(
            inputs,
            outputs,
            set![LN_PC_ENABLE as int, LN_MAR_IN as int, LN_PC_COUNT as int],
        ),
        t == 1 ==> raises(
            inputs,
            outputs,
            set![LN_MAR_ENABLE as int, LN_MEM_READ as int, LN_IR_IN as int],
        ),
        t >= 2 && instr is None ==> raises(inputs, outputs, set![LN_MAR_ENABLE as int]),
{
    if t == 0 {
        let lines = set![LN_PC_ENABLE as int, LN_MAR_IN as int, LN_PC_COUNT as int];
        lemma_raises(inputs, outputs, t, instr, zero, carry, sign, lines);
    }
    if t == 1 {
        let lines = set![LN_MAR_ENABLE as int, LN_MEM_READ as int, LN_IR_IN as int];
        lemma_raises(inputs, outputs, t, instr, zero, carry, sign, lines);
    }
    if t >= 2 && instr is None {
        let lines = set![LN_MAR_ENABLE as int];
        lemma_raises(inputs, outputs, t, instr, zero, carry, sign, lines);
    }
}

/// The instructions of one T-state after the fetch: NOP only ends, HLT
/// raises the halt line, IN moves the input port to the accumulator, and
/// OUT moves the accumulator to the output latch.
pub proof fn law_simple_programs(
    inputs: Seq<Bit>,
    outputs: Seq<Signal>,
    t: int,
    instr: Option<int>,
    zero: bool,
    carry: bool,
    sign: bool,
)
    requires
        inputs_say(inputs, t, instr, zero, carry, sign),
        2 <= t < 16,
        instr is Some ==> 0 <= instr->0 < 24,
    ensures
        t == 2 && instr == Some(IN_NOP as int) ==> raises(
            inputs,
            outputs,
            set![LN_MAR_ENABLE as int, LN_SEQ_RESET as int],
        ),
        t == 2 && instr == Some(IN_HLT as int) ==> raises(
            inputs,
            outputs,
            set![LN_MAR_ENABLE as int, LN_HALT as int, LN_SEQ_RESET as int],
        ),
        t == 2 && instr == Some(IN_IN as int) ==> raises(
            inputs,
            outputs,
            set![LN_MAR_ENABLE as int, LN_IN_ENABLE as int, LN_ACC_IN as int, LN_SEQ_RESET as int],
        ),
        t == 2 && instr == Some(IN_OUT as int) ==> raises(
            inputs,
            outputs,
            set![LN_MAR_ENABLE as int, LN_ACC_OUT as int, LN_OUT_SAVE as int, LN_SEQ_RESET as int],
        ),
        t > 2 && (instr == Some(IN_NOP as int) || instr == Some(IN_HLT as int)) ==> raises(
            inputs,
            outputs,
            set![LN_MAR_ENABLE as int],
        ),
        t > 2 && (instr == Some(IN_IN as int) || instr == Some(IN_OUT as int)) ==> raises(
            inputs,
            outputs,
            set![LN_MAR_ENABLE as int],
        ),
{
    if t == 2 && instr == Some(IN_NOP as int) {
        let lines = set![LN_MAR_ENABLE as int, LN_SEQ_RESET as int];
        lemma_raises(inputs, outputs, t, instr, zero, carry, sign, lines);
    }
    if t == 2 && instr == Some(IN_HLT as int) {
        let lines = set![LN_MAR_ENABLE as int, LN_HALT as int, LN_SEQ_RESET as int];
        lemma_raises(inputs, outputs, t, instr, zero, carry, sign, lines);
    }
    if t == 2 && instr == Some(IN_IN as int) {
        let lines = set![
            LN_MAR_ENABLE as int,
            LN_IN_ENABLE as int,
            LN_ACC_IN as int,
            LN_SEQ_RESET as int,
        ];
        lemma_raises(inputs, outputs, t, instr, zero, carry, sign, lines);
    }
    if t == 2 && instr == Some(IN_OUT as int) {
        let lines = set![
            LN_MAR_ENABLE as int,
            LN_ACC_OUT as int,
            LN_OUT_SAVE as int,
            LN_SEQ_RESET as int,
        ];
        lemma_raises(inputs, outputs, t, instr, zero, carry, sign, lines);
    }
    if t > 2 && (instr == Some(IN_NOP as int) || instr == Some(IN_HLT as int)) {
        let lines = set![LN_MAR_ENABLE as int];
        lemma_raises(inputs, outputs, t, instr, zero, carry, sign, lines);
    }
    if t > 2 && (instr == Some(IN_IN as int) || instr == Some(IN_OUT as int)) {
        let lines = set![LN_MAR_ENABLE as int];
        lemma_raises(inputs, outputs, t, instr, zero, carry, sign, lines);
    }
}

/// The ALU instructions of one T-state: the ALU drives the bus under its
/// operation code, and the accumulator and, but for CMA, the flags take the
/// result.
pub proof fn law_alu_programs(
    inputs: Seq<Bit>,
    outputs: Seq<Signal>,
    t: int,
    instr: Option<int>,
    zero: bool,
    carry: bool,
    sign: bool,
)
    requires
        inputs_say(inputs, t, instr, zero, carry, sign),
        2 <= t < 16,
        instr is Some,
        IN_ADD <= instr->0 <= IN_DCRA,
    ensures
        t == 2 && instr == Some(IN_ADD as int) ==> raises(
            inputs,
            outputs,
            set![
                LN_MAR_ENABLE as int,
                LN_ALU_OUT as int,
                LN_ACC_IN as int,
                LN_FLAGS_IN as int,
                LN_SEQ_RESET as int,
            ],
        ),
        t == 2 && instr == Some(IN_SUB as int) ==> raises(
            inputs,
            outputs,
            set![
                LN_MAR_ENABLE as int,
                LN_ALU_OUT as int,
                LN_ACC_IN as int,
                LN_FLAGS_IN as int,
                LN_SEQ_RESET as int,
                LN_OP0 as int,
            ],
        ),
        t == 2 && instr == Some(IN_ANA as int) ==> raises(
            inputs,
            outputs,
            set![
                LN_MAR_ENABLE as int,
                LN_ALU_OUT as int,
                LN_ACC_IN as int,
                LN_FLAGS_IN as int,
                LN_SEQ_RESET as int,
                LN_OP1 as int,
            ],
        ),
        t == 2 && instr == Some(IN_ORA as int) ==> raises(
            inputs,
            outputs,
            set![
                LN_MAR_ENABLE as int,
                LN_ALU_OUT as int,
                LN_ACC_IN as int,
                LN_FLAGS_IN as int,
                LN_SEQ_RESET as int,
                LN_OP0 as int,
                LN_OP1 as int,
            ],
        ),
        t == 2 && instr == Some(IN_XRA as int) ==> raises(
            inputs,
            outputs,
            set![
                LN_MAR_ENABLE as int,
                LN_ALU_OUT as int,
                LN_ACC_IN as int,
                LN_FLAGS_IN as int,
                LN_SEQ_RESET as int,
                LN_OP2 as int,
            ],
        ),
        t == 2 && instr == Some(IN_CMA as int) ==> raises(
            inputs,
            outputs,
            set![
                LN_MAR_ENABLE as int,
                LN_ALU_OUT as int,
                LN_ACC_IN as int,
                LN_SEQ_RESET as int,
                LN_OP0 as int,
                LN_OP2 as int,
            ],
        ),
        t == 2 && instr == Some(IN_INRA as int) ==> raises(
            inputs,
            outputs,
            set![
                LN_MAR_ENABLE as int,
                LN_ALU_OUT as int,
                LN_ACC_IN as int,
                LN_FLAGS_IN as int,
                LN_SEQ_RESET as int,
                LN_OP1 as int,
                LN_OP2 as int,
            ],
        ),
        t == 2 && instr == Some(IN_DCRA as int) ==> raises(
            inputs,
            outputs,
            set![
                LN_MAR_ENABLE as int,
                LN_ALU_OUT as int,
                LN_ACC_IN as int,
                LN_FLAGS_IN as int,
                LN_SEQ_RESET as int,
                LN_OP0 as int,
                LN_OP1 as int,
                LN_OP2 as int,
            ],
        ),
        t > 2 ==> raises(inputs, outputs, set![LN_MAR_ENABLE as int]),
{
    if t == 2 && instr == Some(IN_ADD as int) {
        let lines = set![
            LN_MAR_ENABLE as int,
            LN_ALU_OUT as int,
            LN_ACC_IN as int,
            LN_FLAGS_IN as int,
            LN_SEQ_RESET as int,
        ];
        lemma_raises(inputs, outputs, t, instr, zero, carry, sign, lines);
    }
    if t == 2 && instr == Some(IN_SUB as int) {
        let lines = set![
            LN_MAR_ENABLE as int,
            LN_ALU_OUT as int,
            LN_ACC_IN as int,
            LN_FLAGS_IN as int,
            LN_SEQ_RESET as int,
            LN_OP0 as int,
        ];
        lemma_raises(inputs, outputs, t, instr, zero, carry, sign, lines);
    }
    if t == 2 && instr == Some(IN_ANA as int) {
        let lines = set![
            LN_MAR_ENABLE as int,
            LN_ALU_OUT as int,
            LN_ACC_IN as int,
            LN_FLAGS_IN as int,
            LN_SEQ_RESET as int,
            LN_OP1 as int,
        ];
        lemma_raises(inputs, outputs, t, instr, zero, carry, sign, lines);
    }
    if t == 2 && instr == Some(IN_ORA as int) {
        let lines = set![
            LN_MAR_ENABLE as int,
            LN_ALU_OUT as int,
            LN_ACC_IN as int,
            LN_FLAGS_IN as int,
            LN_SEQ_RESET as int,
            LN_OP0 as int,
            LN_OP1 as int,
        ];
        lemma_raises(inputs, outputs, t, instr, zero, carry, sign, lines);
    }
    if t == 2 && instr == Some(IN_XRA as int) {
        let lines = set![
            LN_MAR_ENABLE as int,
            LN_ALU_OUT as int,
            LN_ACC_IN as int,
            LN_FLAGS_IN as int,
            LN_SEQ_RESET as int,
            LN_OP2 as int,
        ];
        lemma_raises(inputs, outputs, t, instr, zero, carry, sign, lines);
    }
    if t == 2 && instr == Some(IN_CMA as int) {
        let lines = set![
            LN_MAR_ENABLE as int,
            LN_ALU_OUT as int,
            LN_ACC_IN as int,
            LN_SEQ_RESET as int,
            LN_OP0 as int,
            LN_OP2 as int,
        ];
        lemma_raises(inputs, outputs, t, instr, zero, carry, sign, lines);
    }
    if t == 2 && instr == Some(IN_INRA as int) {
        let lines = set![
            LN_MAR_ENABLE as int,
            LN_ALU_OUT as int,
            LN_ACC_IN as int,
            LN_FLAGS_IN as int,
            LN_SEQ_RESET as int,
            LN_OP1 as int,
            LN_OP2 as int,
        ];
        lemma_raises(inputs, outputs, t, instr, zero, carry, sign, lines);
    }
    if t == 2 && instr == Some(IN_DCRA as int) {
        let lines = set![
            LN_MAR_ENABLE as int,
            LN_ALU_OUT as int,
            LN_ACC_IN as int,
            LN_FLAGS_IN as int,
            LN_SEQ_RESET as int,
            LN_OP0 as int,
            LN_OP1 as int,
            LN_OP2 as int,
        ];
        lemma_raises(inputs, outputs, t, instr, zero, carry, sign, lines);
    }
    if t > 2 {
        let lines = set![LN_MAR_ENABLE as int];
        lemma_raises(inputs, outputs, t, instr, zero, carry, sign, lines);
    }
}

/// The instructions with an immediate byte: at T2 the MAR takes the address
/// of the byte, at T3 the register takes the byte.
pub proof fn law_immediate_programs(
    inputs: Seq<Bit>,
    outputs: Seq<Signal>,
    t: int,
    instr: Option<int>,
    zero: bool,
    carry: bool,
    sign: bool,
)
    requires
        inputs_say(inputs, t, instr, zero, carry, sign),
        2 <= t < 16,
        instr == Some(IN_MVIA as int) || instr == Some(IN_MVIB as int),
    ensures
        t == 2 ==> raises(
            inputs,
            outputs,
            set![LN_PC_ENABLE as int, LN_MAR_IN as int, LN_PC_COUNT as int],
        ),
        t == 3 && instr == Some(IN_MVIA as int) ==> raises(
            inputs,
            outputs,
            set![LN_MAR_ENABLE as int, LN_MEM_READ as int, LN_ACC_IN as int, LN_SEQ_RESET as int],
        ),
        t == 3 && instr == Some(IN_MVIB as int) ==> raises(
            inputs,
            outputs,
            set![LN_MAR_ENABLE as int, LN_MEM_READ as int, LN_B_IN as int, LN_SEQ_RESET as int],
        ),
        t > 3 ==> raises(inputs, outputs, set![LN_MAR_ENABLE as int]),
{
    if t == 2 {
        let lines = set![LN_PC_ENABLE as int, LN_MAR_IN as int, LN_PC_COUNT as int];
        lemma_raises(inputs, outputs, t, instr, zero, carry, sign, lines);
    }
    if t == 3 && instr == Some(IN_MVIA as int) {
        let lines = set![
            LN_MAR_ENABLE as int,
            LN_MEM_READ as int,
            LN_ACC_IN as int,
            LN_SEQ_RESET as int,
        ];
        lemma_raises(inputs, outputs, t, instr, zero, carry, sign, lines);
    }
    if t == 3 && instr == Some(IN_MVIB as int) {
        let lines = set![
            LN_MAR_ENABLE as int,
            LN_MEM_READ as int,
            LN_B_IN as int,
            LN_SEQ_RESET as int,
        ];
        lemma_raises(inputs, outputs, t, instr, zero, carry, sign, lines);
    }
    if t > 3 {
        let lines = set![LN_MAR_ENABLE as int];
        lemma_raises(inputs, outputs, t, instr, zero, carry, sign, lines);
    }
}

/// The instructions with an address: from T2 to T5 the MAR takes in the two
/// bytes of the address. At T6 LDA reads there and STA writes there.
pub proof fn law_address_programs(
    inputs: Seq<Bit>,
    outputs: Seq<Signal>,
    t: int,
    instr: Option<int>,
    zero: bool,
    carry: bool,
    sign: bool,
)
    requires
        inputs_say(inputs, t, instr, zero, carry, sign),
        2 <= t < 16,
        instr is Some,
        instr->0 == IN_LDA || instr->0 == IN_STA || IN_JMP <= instr->0 <= IN_CALL,
    ensures
        t == 2 ==> raises(
            inputs,
            outputs,
            set![LN_PC_ENABLE as int, LN_MAR_IN as int, LN_PC_COUNT as int],
        ),
        t == 3 ==> raises(
            inputs,
            outputs,
            set![LN_MAR_ENABLE as int, LN_MEM_READ as int, LN_MAR_LO_IN as int],
        ),
        t == 4 ==> raises(inputs, outputs, set![LN_MAR_ENABLE as int]),
        t == 5 ==> raises(
            inputs,
            outputs,
            set![LN_PC_ENABLE as int, LN_MEM_READ as int, LN_MAR_HI_IN as int, LN_PC_COUNT as int],
        ),
        t == 6 && instr->0 == IN_LDA ==> raises(
            inputs,
            outputs,
            set![LN_MAR_ENABLE as int, LN_MEM_READ as int, LN_ACC_IN as int, LN_SEQ_RESET as int],
        ),
        t == 6 && instr->0 == IN_STA ==> raises(
            inputs,
            outputs,
            set![LN_MAR_ENABLE as int, LN_MEM_WRITE as int, LN_ACC_OUT as int, LN_SEQ_RESET as int],
        ),
        t > 6 && instr->0 != IN_CALL ==> raises(inputs, outputs, set![LN_MAR_ENABLE as int]),
{
    if t == 2 {
        let lines = set![LN_PC_ENABLE as int, LN_MAR_IN as int, LN_PC_COUNT as int];
        lemma_raises(inputs, outputs, t, instr, zero, carry, sign, lines);
    }
    if t == 3 {
        let lines = set![LN_MAR_ENABLE as int, LN_MEM_READ as int, LN_MAR_LO_IN as int];
        lemma_raises(inputs, outputs, t, instr, zero, carry, sign, lines);
    }
    if t == 4 {
        let lines = set![LN_MAR_ENABLE as int];
        lemma_raises(inputs, outputs, t, instr, zero, carry, sign, lines);
    }
    if t == 5 {
        let lines = set![
            LN_PC_ENABLE as int,
            LN_MEM_READ as int,
            LN_MAR_HI_IN as int,
            LN_PC_COUNT as int,
        ];
        lemma_raises(inputs, outputs, t, instr, zero, carry, sign, lines);
    }
    if t == 6 && instr->0 == IN_LDA {
        let lines = set![
            LN_MAR_ENABLE as int,
            LN_MEM_READ as int,
            LN_ACC_IN as int,
            LN_SEQ_RESET as int,
        ];
        lemma_raises(inputs, outputs, t, instr, zero, carry, sign, lines);
    }
    if t == 6 && instr->0 == IN_STA {
        let lines = set![
            LN_MAR_ENABLE as int,
            LN_MEM_WRITE as int,
            LN_ACC_OUT as int,
            LN_SEQ_RESET as int,
        ];
        lemma_raises(inputs, outputs, t, instr, zero, carry, sign, lines);
    }
    if t > 6 && instr->0 != IN_CALL {
        let lines = set![LN_MAR_ENABLE as int];
        lemma_raises(inputs, outputs, t, instr, zero, carry, sign, lines);
    }
}

/// T6 of the jumps: JMP always loads the PC, JZ when the zero flag is set,
/// JNZ when it is clear and JM when the sign flag is set. A jump that is not
/// taken raises nothing. No other flag has a say.
pub proof fn law_jump_programs(
    inputs: Seq<Bit>,
    outputs: Seq<Signal>,
    t: int,
    instr: Option<int>,
    zero: bool,
    carry: bool,
    sign: bool,
)
    requires
        inputs_say(inputs, t, instr, zero, carry, sign),
        t == 6,
        instr is Some,
        IN_JMP <= instr->0 <= IN_JM,
    ensures
        instr->0 == IN_JMP ==> raises(
            inputs,
            outputs,
            set![LN_MAR_ENABLE as int, LN_PC_LOAD as int, LN_SEQ_RESET as int],
        ),
        instr->0 == IN_JZ && zero ==> raises(
            inputs,
            outputs,
            set![LN_MAR_ENABLE as int, LN_PC_LOAD as int, LN_SEQ_RESET as int],
        ),
        instr->0 == IN_JZ && !zero ==> raises(inputs, outputs, set![LN_MAR_ENABLE as int]),
        instr->0 == IN_JNZ && !zero ==> raises(
            inputs,
            outputs,
            set![LN_MAR_ENABLE as int, LN_PC_LOAD as int, LN_SEQ_RESET as int],
        ),
        instr->0 == IN_JNZ && zero ==> raises(inputs, outputs, set![LN_MAR_ENABLE as int]),
        instr->0 == IN_JM && sign ==> raises(
            inputs,
            outputs,
            set![LN_MAR_ENABLE as int, LN_PC_LOAD as int, LN_SEQ_RESET as int],
        ),
        instr->0 == IN_JM && !sign ==> raises(inputs, outputs, set![LN_MAR_ENABLE as int]),
{
    if instr->0 == IN_JMP {
        let lines = set![LN_MAR_ENABLE as int, LN_PC_LOAD as int, LN_SEQ_RESET as int];
        lemma_raises(inputs, outputs, t, instr, zero, carry, sign, lines);
    }
    if instr->0 == IN_JZ && zero {
        let lines = set![LN_MAR_ENABLE as int, LN_PC_LOAD as int, LN_SEQ_RESET as int];
        lemma_raises(inputs, outputs, t, instr, zero, carry, sign, lines);
    }
    if instr->0 == IN_JZ && !zero {
        let lines = set![LN_MAR_ENABLE as int];
        lemma_raises(inputs, outputs, t, instr, zero, carry, sign, lines);
    }
    if instr->0 == IN_JNZ && !zero {
        let lines = set![LN_MAR_ENABLE as int, LN_PC_LOAD as int, LN_SEQ_RESET as int];
        lemma_raises(inputs, outputs, t, instr, zero, carry, sign, lines);
    }
    if instr->0 == IN_JNZ && zero {
        let lines = set![LN_MAR_ENABLE as int];
        lemma_raises(inputs, outputs, t, instr, zero, carry, sign, lines);
    }
    if instr->0 == IN_JM && sign {
        let lines = set![LN_MAR_ENABLE as int, LN_PC_LOAD as int, LN_SEQ_RESET as int];
        lemma_raises(inputs, outputs, t, instr, zero, carry, sign, lines);
    }
    if instr->0 == IN_JM && !sign {
        let lines = set![LN_MAR_ENABLE as int];
        lemma_raises(inputs, outputs, t, instr, zero, carry, sign, lines);
    }
}

/// T6 and on of CALL: the PC loads, the MAR takes the SP, and the low and
/// then the high byte of the return address are written while the SP counts
/// down.
pub proof fn law_call_program(
    inputs: Seq<Bit>,
    outputs: Seq<Signal>,
    t: int,
    instr: Option<int>,
    zero: bool,
    carry: bool,
    sign: bool,
)
    requires
        inputs_say(inputs, t, instr, zero, carry, sign),
        6 <= t < 16,
        instr == Some(IN_CALL as int),
    ensures
        t == 6 ==> raises(inputs, outputs, set![LN_MAR_ENABLE as int, LN_PC_LOAD as int]),
        t == 7 ==> raises(inputs, outputs, set![LN_SP_ENABLE as int, LN_MAR_IN as int]),
        t == 8 ==> raises(
            inputs,
            outputs,
            set![
                LN_MAR_ENABLE as int,
                LN_PC_OUT_LO as int,
                LN_SP_COUNT_DOWN as int,
                LN_MEM_WRITE as int,
            ],
        ),
        t == 9 ==> raises(
            inputs,
            outputs,
            set![
                LN_MAR_ENABLE as int,
                LN_PC_OUT_HI as int,
                LN_SP_COUNT_DOWN as int,
                LN_MEM_WRITE as int,
                LN_SEQ_RESET as int,
            ],
        ),
        t > 9 ==> raises(inputs, outputs, set![LN_MAR_ENABLE as int]),
{
    if t == 6 {
        let lines = set![LN_MAR_ENABLE as int, LN_PC_LOAD as int];
        lemma_raises(inputs, outputs, t, instr, zero, carry, sign, lines);
    }
    if t == 7 {
        let lines = set![LN_SP_ENABLE as int, LN_MAR_IN as int];
        lemma_raises(inputs, outputs, t, instr, zero, carry, sign, lines);
    }
    if t == 8 {
        let lines = set![
            LN_MAR_ENABLE as int,
            LN_PC_OUT_LO as int,
            LN_SP_COUNT_DOWN as int,
            LN_MEM_WRITE as int,
        ];
        lemma_raises(inputs, outputs, t, instr, zero, carry, sign, lines);
    }
    if t == 9 {
        let lines = set![
            LN_MAR_ENABLE as int,
            LN_PC_OUT_HI as int,
            LN_SP_COUNT_DOWN as int,
            LN_MEM_WRITE as int,
            LN_SEQ_RESET as int,
        ];
        lemma_raises(inputs, outputs, t, instr, zero, carry, sign, lines);
    }
    if t > 9 {
        let lines = set![LN_MAR_ENABLE as int];
        lemma_raises(inputs, outputs, t, instr, zero, carry, sign, lines);
    }
}

/// The other stack instructions: PSHA writes the accumulator while the SP
/// counts down, POPA counts up before it reads, and RET counts up before it
/// reads each of the two bytes of the PC, the high one first.
pub proof fn law_stack_programs(
    inputs: Seq<Bit>,
    outputs: Seq<Signal>,
    t: int,
    instr: Option<int>,
    zero: bool,
    carry: bool,
    sign: bool,
)
    requires
        inputs_say(inputs, t, instr, zero, carry, sign),
        2 <= t < 16,
        instr is Some,
        IN_RET <= instr->0 <= IN_POPA,
    ensures
        instr->0 == IN_PSHA && t == 2 ==> raises(
            inputs,
            outputs,
            set![LN_SP_ENABLE as int, LN_MAR_IN as int],
        ),
        instr->0 == IN_PSHA && t == 3 ==> raises(
            inputs,
            outputs,
            set![
                LN_MAR_ENABLE as int,
                LN_SP_COUNT_DOWN as int,
                LN_MEM_WRITE as int,
                LN_ACC_OUT as int,
                LN_SEQ_RESET as int,
            ],
        ),
        instr->0 == IN_PSHA && t > 3 ==> raises(inputs, outputs, set![LN_MAR_ENABLE as int]),
        instr->0 == IN_POPA && t == 2 ==> raises(
            inputs,
            outputs,
            set![LN_MAR_ENABLE as int, LN_SP_COUNT_UP as int],
        ),
        instr->0 == IN_POPA && t == 3 ==> raises(
            inputs,
            outputs,
            set![LN_SP_ENABLE as int, LN_MAR_IN as int],
        ),
        instr->0 == IN_POPA && t == 4 ==> raises(
            inputs,
            outputs,
            set![LN_MAR_ENABLE as int, LN_MEM_READ as int, LN_ACC_IN as int, LN_SEQ_RESET as int],
        ),
        instr->0 == IN_POPA && t > 4 ==> raises(inputs, outputs, set![LN_MAR_ENABLE as int]),
        instr->0 == IN_RET && t == 2 ==> raises(
            inputs,
            outputs,
            set![LN_MAR_ENABLE as int, LN_SP_COUNT_UP as int],
        ),
        instr->0 == IN_RET && t == 3 ==> raises(
            inputs,
            outputs,
            set![LN_SP_ENABLE as int, LN_MAR_IN as int, LN_SP_COUNT_UP as int],
        ),
        instr->0 == IN_RET && t == 4 ==> raises(
            inputs,
            outputs,
            set![LN_MAR_ENABLE as int, LN_MEM_READ as int, LN_PC_SAVE_HI as int],
        ),
        instr->0 == IN_RET && t == 5 ==> raises(
            inputs,
            outputs,
            set![LN_SP_ENABLE as int, LN_MAR_IN as int],
        ),
        instr->0 == IN_RET && t == 6 ==> raises(
            inputs,
            outputs,
            set![
                LN_MAR_ENABLE as int,
                LN_MEM_READ as int,
                LN_PC_SAVE_LO as int,
                LN_SEQ_RESET as int,
            ],
        ),
        instr->0 == IN_RET && t > 6 ==> raises(inputs, outputs, set![LN_MAR_ENABLE as int]),
{
    if instr->0 == IN_PSHA && t == 2 {
        let lines = set![LN_SP_ENABLE as int, LN_MAR_IN as int];
        lemma_raises(inputs, outputs, t, instr, zero, carry, sign, lines);
    }
    if instr->0 == IN_PSHA && t == 3 {
        let lines = set![
            LN_MAR_ENABLE as int,
            LN_SP_COUNT_DOWN as int,
            LN_MEM_WRITE as int,
            LN_ACC_OUT as int,
            LN_SEQ_RESET as int,
        ];
        lemma_raises(inputs, outputs, t, instr, zero, carry, sign, lines);
    }
    if instr->0 == IN_PSHA && t > 3 {
        let lines = set![LN_MAR_ENABLE as int];
        lemma_raises(inputs, outputs, t, instr, zero, carry, sign, lines);
    }
    if instr->0 == IN_POPA && t == 2 {
        let lines = set![LN_MAR_ENABLE as int, LN_SP_COUNT_UP as int];
        lemma_raises(inputs, outputs, t, instr, zero, carry, sign, lines);
    }
    if instr->0 == IN_POPA && t == 3 {
        let lines = set![LN_SP_ENABLE as int, LN_MAR_IN as int];
        lemma_raises(inputs, outputs, t, instr, zero, carry, sign, lines);
    }
    if instr->0 == IN_POPA && t == 4 {
        let lines = set![
            LN_MAR_ENABLE as int,
            LN_MEM_READ as int,
            LN_ACC_IN as int,
            LN_SEQ_RESET as int,
        ];
        lemma_raises(inputs, outputs, t, instr, zero, carry, sign, lines);
    }
    if instr->0 == IN_POPA && t > 4 {
        let lines = set![LN_MAR_ENABLE as int];
        lemma_raises(inputs, outputs, t, instr, zero, carry, sign, lines);
    }
    if instr->0 == IN_RET && t == 2 {
        let lines = set![LN_MAR_ENABLE as int, LN_SP_COUNT_UP as int];
        lemma_raises(inputs, outputs, t, instr, zero, carry, sign, lines);
    }
    if instr->0 == IN_RET && t == 3 {
        let lines = set![LN_SP_ENABLE as int, LN_MAR_IN as int, LN_SP_COUNT_UP as int];
        lemma_raises(inputs, outputs, t, instr, zero, carry, sign, lines);
    }
    if instr->0 == IN_RET && t == 4 {
        let lines = set![LN_MAR_ENABLE as int, LN_MEM_READ as int, LN_PC_SAVE_HI as int];
        lemma_raises(inputs, outputs, t, instr, zero, carry, sign, lines);
    }
    if instr->0 == IN_RET && t == 5 {
        let lines = set![LN_SP_ENABLE as int, LN_MAR_IN as int];
        lemma_raises(inputs, outputs, t, instr, zero, carry, sign, lines);
    }
    if instr->0 == IN_RET && t == 6 {
        let lines = set![
            LN_MAR_ENABLE as int,
            LN_MEM_READ as int,
            LN_PC_SAVE_LO as int,
            LN_SEQ_RESET as int,
        ];
        lemma_raises(inputs, outputs, t, instr, zero, carry, sign, lines);
    }
    if instr->0 == IN_RET && t > 6 {
        let lines = set![LN_MAR_ENABLE as int];
        lemma_raises(inputs, outputs, t, instr, zero, carry, sign, lines);
    }
}

/// A full clock cycle of the sequencer: a Low and a High clock with the same
/// reset line count to the next T-state modulo 16, or back to T0. Each of
/// the two drives the T lines of the count that is stored when it starts.
pub proof fn law_sequencer_cycle(
    state: Seq<FlipFlopState>,
    reset: Bit,
    outputs: Seq<Signal>,
    line: int,
)
    requires
        state.len() == 4,
        0 <= line < 16,
    ensures
        ({
            let count = utils::bits_value(latches::slaves(state));
            let low = Sequencer::respond(
                state,
                seq![Signal::Driven(Bit::Low), Signal::Driven(reset)],
                outputs,
            );
            let high = Sequencer::respond(
                low.state,
                seq![Signal::Driven(Bit::High), Signal::Driven(reset)],
                outputs,
            );
            let shown = Signal::Driven(
                if line == count {
                    Bit::High
                } else {
                    Bit::Low
                },
            );
            &&& count < 16
            &&& low.result == Ok::<(), HardwareError>(())
            &&& high.result == Ok::<(), HardwareError>(())
            &&& low.state.len() == 4 && high.state.len() == 4
            &&& utils::bits_value(latches::slaves(low.state)) == count
            &&& utils::bits_value(latches::slaves(high.state)) == if reset == Bit::High {
                0
            } else if count == 15 {
                0
            } else {
                count + 1
            }
            &&& low.outputs.len() == 16 && low.outputs[line] == shown
            &&& high.outputs.len() == 16 && high.outputs[line] == shown
        }),
{
    let bits = latches::slaves(state);
    let count = utils::bits_value(bits);
    power2::lemma2_to64();
    utils::lemma_bits_value_bound(bits);
    utils::lemma_value_of_bits(bits);
    law_sequencer_next(count, reset == Bit::High);
    let next: nat = if reset == Bit::High {
        0
    } else {
        (count + 1) % 16
    };
    let next_bits = utils::value_bits(next, 4);
    utils::lemma_bits_of_value(next, 4);
    let high = Signal::Driven(Bit::High);
    memory::law_register_preloads(state, next_bits, high);
    let low_state = memory::preloaded(state, next_bits);
    let low_data = sequencer_next(latches::slaves(low_state), Signal::Driven(reset));
    memory::law_register_captures(low_state, low_data);
    decoder::law_decoder4_one_hot(bits);
}

/// The instruction decoder on any wires: a line is Low as soon as one wired
/// opcode bit contradicts its opcode, High when all of them agree, and
/// floats otherwise. An instruction with an operand has only its high nibble
/// wired.
pub proof fn law_decoder_wires(inputs: Seq<Signal>, outputs: Seq<Signal>, instr: int)
    requires
        inputs.len() == 8,
        0 <= instr < 24,
    ensures
        ({
            let line = InstructionDecoder::respond((), inputs, outputs).outputs[instr];
            let wanted = utils::byte_bits(opcode_of(instr));
            let first: int = if has_operand(instr) {
                4
            } else {
                0
            };
            &&& line == Signal::Driven(Bit::High) <==> forall|bit: int|
                first <= bit < 8 ==> #[trigger] inputs[bit] == Signal::Driven(wanted[bit])
            &&& line == Signal::Driven(Bit::Low) <==> exists|bit: int|
                first <= bit < 8 && (#[trigger] inputs[bit]) is Driven && inputs[bit]
                    != Signal::Driven(wanted[bit])
        }),
{
    let line = InstructionDecoder::respond((), inputs, outputs).outputs[instr];
    let wanted = utils::byte_bits(opcode_of(instr));
    let first: int = if has_operand(instr) {
        4
    } else {
        0
    };
    utils::law_byte_unpacked(opcode_of(instr));
    assert forall|bit: int| 0 <= bit < 8 implies {
        let signal = #[trigger] wanted_signal(instr, bit, inputs);
        &&& signal == Signal::Driven(Bit::High) <==> inputs[bit] == Signal::Driven(wanted[bit])
        &&& signal == Signal::Driven(Bit::Low) <==> inputs[bit] is Driven && inputs[bit]
            != Signal::Driven(wanted[bit])
    } by {}
    if line == Signal::Driven(Bit::High) {
        assert forall|bit: int| first <= bit < 8 implies #[trigger] inputs[bit] == Signal::Driven(
            wanted[bit],
        ) by {
            assert(wanted_signal(instr, bit, inputs) == Signal::Driven(Bit::High));
        }
    }
    if exists|bit: int|
        first <= bit < 8 && (#[trigger] inputs[bit]) is Driven && inputs[bit] != Signal::Driven(
            wanted[bit],
        ) {
        let bit = choose|bit: int|
            first <= bit < 8 && (#[trigger] inputs[bit]) is Driven && inputs[bit] != Signal::Driven(
                wanted[bit],
            );
        assert(wanted_signal(instr, bit, inputs) == Signal::Driven(Bit::Low));
    }
    if line == Signal::Driven(Bit::Low) {
        let bit = choose|bit: int|
            0 <= bit < 8 && bit_wired(instr, bit) && #[trigger] wanted_signal(instr, bit, inputs)
                == Signal::Driven(Bit::Low);
        assert(inputs[bit] is Driven && inputs[bit] != Signal::Driven(wanted[bit]));
    }
}

/// The flags matter to the conditional jumps alone, each of which looks at
/// one of them: whatever the flag lines carry, the line that loads the PC at
/// T6 follows the zero flag for JZ, its inverse for JNZ and the sign flag for
/// JM, and in every other T-state and for every other instruction no line
/// depends on them.
pub proof fn law_flag_lines(
    inputs: Seq<Signal>,
    others: Seq<Signal>,
    outputs: Seq<Signal>,
    t: int,
    instr: int,
    line: int,
)
    requires
        inputs.len() == 43,
        others.len() == 43,
        forall|i: int| 0 <= i < 40 ==> inputs[i] == #[trigger] others[i],
        0 <= t < 16,
        0 <= instr < 24,
        0 <= line < 29,
        forall|i: int|
            0 <= i < 16 ==> #[trigger] inputs[i] == Signal::Driven(hardware::bit_of(i == t)),
        forall|i: int|
            16 <= i < 40 ==> #[trigger] inputs[i] == Signal::Driven(
                hardware::bit_of(i == 16 + instr),
            ),
    ensures
        ({
            let response = ControlUnit::respond((), inputs, outputs);
            let other = ControlUnit::respond((), others, outputs);
            let load = response.outputs[LN_PC_LOAD as int];
            &&& t == 6 && instr == IN_JZ ==> load == inputs[40]
            &&& t == 6 && instr == IN_JNZ ==> load == gates::not_signal(inputs[40])
            &&& t == 6 && instr == IN_JM ==> load == inputs[42]
            &&& t != 6 || !(IN_JZ <= instr <= IN_JM) ==> response.outputs[line]
                == other.outputs[line]
        }),
{
    if t == 6 && IN_JZ <= instr <= IN_JM {
        lemma_conditional_line(inputs, instr);
    } else {
        lemma_line_steady(inputs, others, t, instr, line);
        lemma_line_steady(inputs, others, t, instr, LN_PC_ENABLE as int);
        lemma_line_steady(inputs, others, t, instr, LN_SP_ENABLE as int);
    }
}

/// The line that loads the PC at T6 of a conditional jump is its only term.
proof fn lemma_conditional_line(inputs: Seq<Signal>, instr: int)
    requires
        inputs.len() == 43,
        IN_JZ <= instr <= IN_JM,
        forall|i: int|
            0 <= i < 16 ==> #[trigger] inputs[i] == Signal::Driven(hardware::bit_of(i == 6)),
        forall|i: int|
            16 <= i < 40 ==> #[trigger] inputs[i] == Signal::Driven(
                hardware::bit_of(i == 16 + instr),
            ),
    ensures
        line_signal(LN_PC_LOAD as int, inputs) == if instr == IN_JZ {
            inputs[40]
        } else if instr == IN_JNZ {
            gates::not_signal(inputs[40])
        } else {
            inputs[42]
        },
{
    let line = LN_PC_LOAD as int;
    let own = ControlTerm { t: 6, instr: instr as u8, flag: condition(6, instr) };
    let level = term_signal(own, inputs);
    assert(wired(line, own));
    assert(inputs[6] == Signal::Driven(Bit::High));
    assert(inputs[16 + instr] == Signal::Driven(Bit::High));
    assert forall|term: ControlTerm| #[trigger]
        wired(line, term) && term != own implies term_signal(term, inputs) == Signal::Driven(
        Bit::Low,
    ) by {
        assert(term.t == 6);
        assert(term.instr != instr);
        assert(inputs[16 + term.instr] == Signal::Driven(Bit::Low));
    }
    if level is HighImpedance {
        assert(term_signal(own, inputs) != Signal::Driven(Bit::Low));
    }
}

/// A line without a conditional term that is decoded does not depend on the
/// flags.
proof fn lemma_line_steady(
    inputs: Seq<Signal>,
    others: Seq<Signal>,
    t: int,
    instr: int,
    line: int,
)
    requires
        inputs.len() == 43,
        others.len() == 43,
        forall|i: int| 0 <= i < 40 ==> inputs[i] == #[trigger] others[i],
        0 <= t < 16,
        0 <= instr < 24,
        t != 6 || !(IN_JZ <= instr <= IN_JM),
        forall|i: int|
            0 <= i < 16 ==> #[trigger] inputs[i] == Signal::Driven(hardware::bit_of(i == t)),
        forall|i: int|
            16 <= i < 40 ==> #[trigger] inputs[i] == Signal::Driven(
                hardware::bit_of(i == 16 + instr),
            ),
    ensures
        line_signal(line, inputs) == line_signal(line, others),
{
    assert forall|term: ControlTerm| #[trigger] wired(line, term) implies term_signal(term, inputs)
        == term_signal(term, others) by {
        assert(term.t < 16 && (term.instr < 24 || term.instr == ANY_INSTR));
        assert(inputs[term.t as int] == others[term.t as int]);
        if term.instr != ANY_INSTR {
            assert(inputs[16 + term.instr] == others[16 + term.instr]);
        }
    }
    if line_signal(line, inputs) == Signal::Driven(Bit::High) {
        let term = choose|term: ControlTerm| #[trigger]
            wired(line, term) && term_signal(term, inputs) == Signal::Driven(Bit::High);
        assert(term_signal(term, others) == Signal::Driven(Bit::High));
    }
    if line_signal(line, others) == Signal::Driven(Bit::High) {
        let term = choose|term: ControlTerm| #[trigger]
            wired(line, term) && term_signal(term, others) == Signal::Driven(Bit::High);
        assert(term_signal(term, inputs) == Signal::Driven(Bit::High));
    }
}

/// The sequencer refuses a floating clock, and a reset line that floats
/// while the clock is Low unless the next T-state is T0 anyway; what it
/// refuses changes no stored level. A new one is at T0, and it shows its
/// count.
pub proof fn law_sequencer_starts(
    sequencer: Sequencer,
    state: Seq<FlipFlopState>,
    outputs: Seq<Signal>,
    bits: [Bit; 4],
    index: int,
)
    requires
        Sequencer::default.ensures((), sequencer),
        Sequencer::state.ensures((&sequencer,), bits),
        state.len() == 4,
        0 <= index < 4,
    ensures
        bits@[index] == Bit::Low,
        ({
            let open = Signal::HighImpedance;
            let low = Signal::Driven(Bit::Low);
            let stopped = Sequencer::respond(state, seq![open, low], outputs);
            let undecided = Sequencer::respond(state, seq![low, open], outputs);
            &&& stopped.result == Err::<(), HardwareError>(HardwareError::InvalidBit)
            &&& stopped.state == state && stopped.outputs == outputs
            &&& utils::bits_value(latches::slaves(state)) != 15 ==> undecided.result == Err::<
                (),
                HardwareError,
            >(HardwareError::InvalidBit)
            &&& latches::slaves(undecided.state) == latches::slaves(state)
        }),
{
    sequencer.lemma_width();
    let high = Signal::Driven(Bit::High);
    let open = Signal::HighImpedance;
    let low = Signal::Driven(Bit::Low);
    let count = utils::bits_value(latches::slaves(state));
    let first = sequencer_next(latches::slaves(state), low);
    let second = sequencer_next(latches::slaves(state), open);
    let next = utils::value_bits((count + 1) % 16, 4);
    power2::lemma2_to64();
    utils::lemma_bits_value_bound(latches::slaves(state));
    utils::lemma_bits_of_value((count + 1) % 16, 4);
    assert(memory::step_at(state, first, open, high, 0) is Err);
    memory::lemma_steps_stop(state, first, open, high, 0, 4);
    assert(memory::row_next(state, first, open, high) =~= state);
    memory::lemma_steps_succeed(state, second, low, high, 4);
    let undecided = Sequencer::respond(state, seq![low, open], outputs);
    assert(latches::slaves(undecided.state) =~= latches::slaves(state));
    if count != 15 {
        assert(exists|i: int| 0 <= i < 4 && next[i] == Bit::High) by {
            reveal_with_fuel(utils::bits_value, 5);
            assert(utils::bits_value(next) == count + 1);
        }
        let i = choose|i: int| 0 <= i < 4 && next[i] == Bit::High;
        assert(second[i] is HighImpedance);
        assert(memory::step_at(state, second, low, high, i) is Err);
    }
}

/// The sequencer shows what it stores.
pub proof fn law_count_shown(sequencer: &Sequencer, bits: [Bit; 4], index: int)
    requires
        sequencer.wf(),
        Sequencer::state.ensures((sequencer,), bits),
        0 <= index < 4,
    ensures
        bits@[index] == sequencer@[index].slave,
{
    sequencer.lemma_width();
}

} // verus!
