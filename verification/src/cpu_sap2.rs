//! The SAP-2 ("Simple As Possible 2") computer, after Malvino's "Digital
//! Computer Electronics".
//!
//! The SAP-2 has a 16-bit address bus (64 KiB of RAM) and an 8-bit data
//! bus, instructions of one to three bytes, the registers A and B, a full
//! ALU, the flags Z, C and S, immediate loads, I/O ports and a hardware
//! stack.
//!
//! | Format   | Size | Instruction                              |
//! |----------|------|------------------------------------------|
//! | NOP      | 1    | no operation                             |
//! | LDA a16  | 3    | A <- MEM\[a16\]                          |
//! | STA a16  | 3    | MEM\[a16\] <- A                          |
//! | MVIA d   | 2    | A <- d                                   |
//! | MVIB d   | 2    | B <- d                                   |
//! | ADD B    | 1    | A <- A + B                               |
//! | SUB B    | 1    | A <- A - B                               |
//! | ANA B    | 1    | A <- A AND B                             |
//! | ORA B    | 1    | A <- A OR B                              |
//! | XRA B    | 1    | A <- A XOR B                             |
//! | CMA      | 1    | A <- NOT A, flags kept                   |
//! | INRA     | 1    | A <- A + 1                               |
//! | DCRA     | 1    | A <- A - 1                               |
//! | IN       | 1    | A <- input port                          |
//! | OUT      | 1    | output port <- A                         |
//! | JMP a16  | 3    | PC <- a16                                |
//! | JZ a16   | 3    | PC <- a16 if Z                           |
//! | JNZ a16  | 3    | PC <- a16 if not Z                       |
//! | JM a16   | 3    | PC <- a16 if S                           |
//! | CALL a16 | 3    | push PC, low byte first, then PC <- a16  |
//! | RET      | 1    | PC <- pop, high byte first               |
//! | PSHA     | 1    | push A                                   |
//! | POPA     | 1    | A <- pop                                 |
//! | HLT      | 1    | stop the clock                           |
//!
//! A push writes at the stack pointer and then moves it down; a pop moves it
//! up and then reads, so it gives back the last byte pushed. CALL pushes the
//! address behind it, and RET comes back there. [`crate::isa::execute`]
//! states it exactly.
//!
//! [`Sap2`] is the CPU assembly, wired from the decoder, the sequencer and
//! the control unit of [`crate::control`]. What it remembers is the model
//! of [`crate::machine`]; what whole instructions do is stated in
//! [`crate::isa`].
//!
//! A line of the data bus that nobody drives is pulled Low where it meets
//! the input of a storage component, and so is the sign line of a silent
//! ALU. Every level that reaches a latch is therefore driven, and no
//! propagation through the machine ever fails.

use vstd::prelude::*;

pub use crate::control::{
    ControlTerm, ControlUnit, InstructionDecoder, Sequencer, CONTROL_LINES, INSTRUCTION_COUNT,
    IN_ADD, IN_ANA, IN_CALL, IN_CMA, IN_DCRA, IN_HLT, IN_IN, IN_INRA, IN_JM, IN_JMP, IN_JNZ, IN_JZ,
    IN_LDA, IN_MVIA, IN_MVIB, IN_NOP, IN_ORA, IN_OUT, IN_POPA, IN_PSHA, IN_RET, IN_STA, IN_SUB,
    IN_XRA, LN_ACC_IN, LN_ACC_OUT, LN_ALU_OUT, LN_B_IN, LN_FLAGS_IN, LN_HALT, LN_IN_ENABLE,
    LN_IR_IN, LN_MAR_ENABLE, LN_MAR_HI_IN, LN_MAR_IN, LN_MAR_LO_IN, LN_MEM_READ, LN_MEM_WRITE,
    LN_OP0, LN_OP1, LN_OP2, LN_OUT_SAVE, LN_PC_COUNT, LN_PC_ENABLE, LN_PC_LOAD, LN_PC_OUT_HI,
    LN_PC_OUT_LO, LN_PC_SAVE_HI, LN_PC_SAVE_LO, LN_SEQ_RESET, LN_SP_COUNT_DOWN, LN_SP_COUNT_UP,
    LN_SP_ENABLE, OPCODE_BITS, T_STATES,
};

use crate::arithmetic::{self, AluSap2, SignDetector8Bits};
use crate::control;
use crate::counters::{
    self, MemoryAddressRegister16Bits, ProgramCounter16Bits, StackPointer16Bits,
};
use crate::decoder;
use crate::gates::{AndGate, NotGate, OrGate};
use crate::hardware::{
    self, bus8, wire, Bit, Component, HardwareError, Nmos, Propagate, Signal,
};
use crate::isa::{self, Architecture};
use crate::latches::{self, SRLatch};
use crate::machine::{self, Latched, Machine};
use crate::memory::{self, FlagsRegister, InputPort, OutputRegister, Register8Bits};
use crate::ram::Ram64KBits;
use crate::utils::{self, bits_to_int, int_to_bits};

verus! {

/// A clocked value with the same stored and next value.
pub open spec fn at_rest<T>(value: T) -> Latched<T> {
    Latched { next: value, stored: value }
}

/// The machine at power-on: everything zero, but the stack pointer, which
/// is parked at the top of memory.
pub open spec fn power_on() -> Machine {
    Machine {
        pc: at_rest(0),
        sp: at_rest(0xFFFF),
        mar: at_rest(0),
        ret_lo: at_rest(0),
        ret_hi: at_rest(0),
        ir: at_rest(0),
        acc: at_rest(0),
        b: at_rest(0),
        out: at_rest(0),
        flags: at_rest(machine::Flags { zero: false, carry: false, sign: false }),
        t: at_rest(0),
        memory: Seq::new(0x1_0000, |i: int| at_rest(0u8)),
        input: 0,
        halted: false,
        clock: Bit::Low,
    }
}

/// A machine with a program in its memory, from address 0 on; what does
/// not fit is dropped.
pub open spec fn loaded(machine: Machine, program: Seq<u8>) -> Machine {
    Machine {
        memory: Seq::new(
            0x1_0000,
            |i: int|
                if i < program.len() {
                    at_rest(program[i])
                } else {
                    machine.memory[i]
                },
        ),
        ..machine
    }
}

/// What a program sees when it starts.
pub open spec fn program_start(program: Seq<u8>, input: u8) -> Architecture {
    Architecture {
        pc: 0,
        sp: 0xFFFF,
        acc: 0,
        b: 0,
        out: 0,
        flags: machine::Flags { zero: false, carry: false, sign: false },
        memory: Seq::new(
            0x1_0000,
            |i: int|
                if i < program.len() {
                    program[i]
                } else {
                    0
                },
        ),
        input,
        halted: false,
    }
}

/// The computer runs its programs: after power-on, a run of some steps over
/// a loaded program performs that many instructions from address 0 on, or
/// fewer where one of them halts the machine.
pub proof fn law_program_runs(program: Seq<u8>, input: u8, count: nat)
    ensures
        isa::visible(
            machine::run(loaded(Machine { input, ..power_on() }, program), count),
        ) == isa::execute_many(program_start(program, input), count),
{
    let start = loaded(Machine { input, ..power_on() }, program);
    assert(isa::visible(start).memory =~= program_start(program, input).memory);
    isa::law_run_executes(start, count);
}

/// Append lines to a row.
fn extend_lines(lines: &mut Vec<Signal>, part: &[Signal])
    ensures
        final(lines)@ == old(lines)@ + part@,
{
    for index in 0..part.len()
        invariant
            lines@ == old(lines)@ + part@.take(index as int),
    {
        lines.push(part[index]);
        assert(part@.take(index as int + 1) =~= part@.take(index as int).push(part@[index as int]));
    }
    assert(part@.take(part@.len() as int) =~= part@);
}

/// Append levels to a row.
fn extend_bits(bits: &mut Vec<Bit>, part: &[Bit])
    ensures
        final(bits)@ == old(bits)@ + part@,
{
    for index in 0..part.len()
        invariant
            bits@ == old(bits)@ + part@.take(index as int),
    {
        bits.push(part[index]);
        assert(part@.take(index as int + 1) =~= part@.take(index as int).push(part@[index as int]));
    }
    assert(part@.take(part@.len() as int) =~= part@);
}

/// Drive a byte onto eight wires.
fn byte_wires(bits: &[Bit; 8]) -> (lines: [Signal; 8])
    ensures
        lines@ == hardware::driven(bits@),
{
    let lines = [
        Signal::Driven(bits[0]),
        Signal::Driven(bits[1]),
        Signal::Driven(bits[2]),
        Signal::Driven(bits[3]),
        Signal::Driven(bits[4]),
        Signal::Driven(bits[5]),
        Signal::Driven(bits[6]),
        Signal::Driven(bits[7]),
    ];
    assert(lines@ =~= hardware::driven(bits@));
    lines
}

/// A line that nobody drives reads as Low.
fn pull_down(line: Signal) -> (pulled: Signal)
    ensures
        pulled == match line {
            Signal::Driven(bit) => Signal::Driven(bit),
            Signal::HighImpedance => Signal::Driven(Bit::Low),
        },
{
    match line {
        Signal::Driven(bit) => Signal::Driven(bit),
        Signal::HighImpedance => Signal::Driven(Bit::Low),
    }
}

/// Pull down the lines of the data bus that nobody drives.
fn pull_down_byte(lines: &[Signal; 8], Ghost(byte): Ghost<Option<u8>>) -> (pulled: [Signal; 8])
    requires
        lines@ == machine::bus_lines(byte),
    ensures
        pulled@ == hardware::driven(utils::byte_bits(machine::pulled(byte))),
{
    let pulled = [
        pull_down(lines[0]),
        pull_down(lines[1]),
        pull_down(lines[2]),
        pull_down(lines[3]),
        pull_down(lines[4]),
        pull_down(lines[5]),
        pull_down(lines[6]),
        pull_down(lines[7]),
    ];
    proof {
        utils::law_byte_unpacked(machine::pulled(byte));
        utils::lemma_constant_bytes();
        assert forall|i: int| 0 <= i < 8 implies pulled@[i] == hardware::driven(
            utils::byte_bits(machine::pulled(byte)),
        )[i] by {
            assert(lines@[i] == machine::bus_lines(byte)[i]);
        }
        assert(pulled@ =~= hardware::driven(utils::byte_bits(machine::pulled(byte))));
    }
    pulled
}

/// The low half of sixteen levels.
fn low_half(bits: &[Bit; 16]) -> (half: [Bit; 8])
    ensures
        half@ == bits@.subrange(0, 8),
{
    let half = [bits[0], bits[1], bits[2], bits[3], bits[4], bits[5], bits[6], bits[7]];
    assert(half@ =~= bits@.subrange(0, 8));
    half
}

/// The high half of sixteen levels.
fn high_half(bits: &[Bit; 16]) -> (half: [Bit; 8])
    ensures
        half@ == bits@.subrange(8, 16),
{
    let half = [bits[8], bits[9], bits[10], bits[11], bits[12], bits[13], bits[14], bits[15]];
    assert(half@ =~= bits@.subrange(8, 16));
    half
}

/// Sixteen levels as a word.
fn bits_to_word(bits: &[Bit; 16]) -> (word: u16)
    ensures
        word == utils::word_of(bits@),
{
    let low = bits_to_int(&low_half(bits), false);
    let high = bits_to_int(&high_half(bits), false);
    proof {
        let x = bits@.subrange(0, 8);
        let y = bits@.subrange(8, 16);
        utils::law_byte_packed(x);
        utils::law_byte_packed(y);
        utils::law_word_halves(low, high);
        assert(utils::byte_bits(low) + utils::byte_bits(high) =~= bits@);
        utils::law_word_packed(bits@);
        utils::law_word_unpacked(utils::word_from(low, high));
    }
    low as u16 + 256 * (high as u16)
}

/// Driven wires carry their levels.
proof fn lemma_driven_levels(bits: Seq<Bit>)
    ensures
        hardware::all_driven(hardware::driven(bits)),
        hardware::levels(hardware::driven(bits)) == bits,
{
    assert(hardware::levels(hardware::driven(bits)) =~= bits);
}

/// Three drivers on one wire, of which at most one is on.
proof fn lemma_wired_three(a: Signal, b: Signal, c: Signal)
    requires
        a is HighImpedance || b is HighImpedance,
        a is HighImpedance || c is HighImpedance,
        b is HighImpedance || c is HighImpedance,
    ensures
        hardware::wired(seq![a, b, c]) == Ok::<Signal, HardwareError>(
            if a is Driven {
                a
            } else if b is Driven {
                b
            } else {
                c
            },
        ),
{
    reveal_with_fuel(hardware::wired, 4);
    assert(seq![a, b, c].drop_last() =~= seq![a, b]);
    assert(seq![a, b].drop_last() =~= seq![a]);
    assert(seq![a].drop_last() =~= Seq::<Signal>::empty());
}

/// Five drivers on the data bus, of which at most one is on.
proof fn lemma_five_drivers(rows: Seq<[Signal; 8]>, bytes: Seq<Option<u8>>)
    requires
        rows.len() == 5,
        bytes.len() == 5,
        forall|k: int| 0 <= k < 5 ==> (#[trigger] rows[k])@ == machine::bus_lines(bytes[k]),
        forall|j: int, k: int|
            0 <= j < k < 5 ==> (#[trigger] bytes[j]) is None || (#[trigger] bytes[k]) is None,
    ensures
        hardware::bused(rows) == Ok::<Seq<Signal>, HardwareError>(
            machine::bus_lines(
                if bytes[0] is Some {
                    bytes[0]
                } else if bytes[1] is Some {
                    bytes[1]
                } else if bytes[2] is Some {
                    bytes[2]
                } else if bytes[3] is Some {
                    bytes[3]
                } else {
                    bytes[4]
                },
            ),
        ),
{
    if exists|k: int| 0 <= k < 5 && (#[trigger] bytes[k]) is Some {
        let driver = choose|k: int| 0 <= k < 5 && (#[trigger] bytes[k]) is Some;
        assert forall|k: int| 0 <= k < 5 && k != driver implies (#[trigger] rows[k])@
            == hardware::floating(8) by {
            assert(bytes[k] is None);
        }
        hardware::law_bus_single_driver(rows, driver);
        assert(rows[driver]@ == machine::bus_lines(bytes[driver]));
        assert(driver == 0 || bytes[0] is None);
        assert(driver == 1 || bytes[1] is None);
        assert(driver == 2 || bytes[2] is None);
        assert(driver == 3 || bytes[3] is None);
    } else {
        assert forall|k: int| 0 <= k < 5 implies (#[trigger] rows[k])@ == hardware::floating(8) by {
            assert(bytes[k] is None);
        }
        hardware::law_bus_idle(rows);
        assert(bytes[0] is None && bytes[1] is None && bytes[2] is None && bytes[3] is None
            && bytes[4] is None);
    }
}

/// The RAM and the other drivers on the data bus, of which at most one is
/// on.
proof fn lemma_two_drivers(first: [Signal; 8], second: [Signal; 8], a: Option<u8>, b: Option<u8>)
    requires
        first@ == machine::bus_lines(a),
        second@ == machine::bus_lines(b),
        a is None || b is None,
    ensures
        hardware::bused(seq![first, second]) == Ok::<Seq<Signal>, HardwareError>(
            machine::bus_lines(
                if b is Some {
                    b
                } else {
                    a
                },
            ),
        ),
{
    let rows = seq![first, second];
    if b is Some {
        hardware::law_bus_single_driver(rows, 1);
    } else {
        hardware::law_bus_single_driver(rows, 0);
    }
}

/// The SAP-2 computer: PC/SP/MAR (16-bit), IR/A/B (8-bit), ALU with flags,
/// 64 KiB RAM, sequencer + decoder + control unit, IN/OUT ports.
///
/// Every signal path goes through transistors: bus drivers are NMOS rows
/// resolved with [`wire`] / [`bus8`], decoding and control are gate nets,
/// sequencing is flip-flops. What is left is the external engine: clock
/// toggle, halt loop, fetch-to-fetch stepping.
///
/// A load of the PC keeps the PC's old value in two return registers, so
/// that CALL can jump first and push the return address afterwards. A cycle
/// that writes to memory while the SP counts down is a push: it has the SP
/// on the address bus, so that each byte of the return address gets a slot
/// of its own.
#[derive(Debug)]
pub struct Sap2 {
    pc: ProgramCounter16Bits,
    sp: StackPointer16Bits,
    mar: MemoryAddressRegister16Bits,
    /// The return registers: the PC as it was at its latest load.
    ret_lo: Register8Bits,
    ret_hi: Register8Bits,
    ir: Register8Bits,
    acc: Register8Bits,
    b: Register8Bits,
    alu: AluSap2,
    sign_detector: SignDetector8Bits,
    flags: FlagsRegister,
    ram: Ram64KBits,
    sequencer: Sequencer,
    decoder: InstructionDecoder,
    control_unit: ControlUnit,
    in_port: InputPort,
    out_reg: OutputRegister,
    halt_latch: SRLatch,
    halt_and: AndGate,
    /// The push net: it detects a push, and hands the address bus to the SP
    /// in place of the MAR.
    push_and: AndGate,
    push_not: NotGate,
    sp_drive_or: OrGate,
    mar_drive_and: AndGate,
    /// Tri-state address-bus rows: exactly one of PC / SP / MAR drives the
    /// 16 address wires.
    pc_addr_nmos: [Nmos; 16],
    sp_addr_nmos: [Nmos; 16],
    mar_addr_nmos: [Nmos; 16],
    /// Tri-state data-bus rows for the return registers and the
    /// accumulator. The RAM, ALU and input port drive through their own rows.
    ret_lo_nmos: [Nmos; 8],
    ret_hi_nmos: [Nmos; 8],
    acc_bus_nmos: [Nmos; 8],
    /// Physical input switches sampled by the IN instruction.
    input_value: [Bit; 8],
    halted: bool,
    clock_signal: Bit,
}

impl View for Sap2 {
    type V = Machine;

    closed spec fn view(&self) -> Machine {
        Machine {
            pc: machine::latched_word(self.pc@),
            sp: machine::latched_word(self.sp@),
            mar: machine::latched_word(self.mar@),
            ret_lo: machine::latched_byte(self.ret_lo@),
            ret_hi: machine::latched_byte(self.ret_hi@),
            ir: machine::latched_byte(self.ir@),
            acc: machine::latched_byte(self.acc@),
            b: machine::latched_byte(self.b@),
            out: machine::latched_byte(self.out_reg@),
            flags: machine::latched_flags(self.flags@),
            t: machine::latched_count(self.sequencer@),
            memory: machine::latched_bytes(self.ram@),
            input: utils::byte_of(self.input_value@),
            halted: self.halted,
            clock: self.clock_signal,
        }
    }
}

impl Sap2 {
    /// The invariant of the assembly: every component is well formed, and
    /// the halt flag mirrors the halt latch.
    pub closed spec fn wf(&self) -> bool {
        &&& self.pc.wf()
        &&& self.sp.wf()
        &&& self.mar.wf()
        &&& self.ret_lo.wf()
        &&& self.ret_hi.wf()
        &&& self.ir.wf()
        &&& self.acc.wf()
        &&& self.b.wf()
        &&& self.flags.wf()
        &&& self.ram.wf()
        &&& self.sequencer.wf()
        &&& self.control_unit.wf()
        &&& self.out_reg.wf()
        &&& self.halt_latch.wf()
        &&& self.halted == (self.halt_latch@ == Bit::High)
    }

    /// The T-state is one of sixteen, and the memory has 65536 bytes.
    pub proof fn lemma_bounds(&self)
        requires
            self.wf(),
        ensures
            self@.t.stored < 16,
            self@.t.next < 16,
            self@.memory.len() == 0x1_0000,
    {
        self.sequencer.lemma_width();
        self.ram.lemma_shape();
        vstd::arithmetic::power2::lemma2_to64();
        utils::lemma_bits_value_bound(latches::slaves(self.sequencer@));
        utils::lemma_bits_value_bound(memory::masters(self.sequencer@));
    }

    /// Decode the stored micro-state, opcode and flags into the control
    /// word. The sequencer propagates once on the way.
    fn control_lines(&mut self, clock: Bit) -> (r: Result<Vec<Bit>, HardwareError>)
        requires
            old(self).wf(),
        ensures
            final(self).wf(),
            r is Ok,
            r->Ok_0@ == machine::control_word(old(self)@),
            final(self)@ == (Machine {
                t: machine::latch_step(
                    old(self)@.t,
                    (old(self)@.t.stored + 1) % 16,
                    clock,
                    true,
                ),
                ..old(self)@
            }),
    {
        let ghost row = self.sequencer@;
        let ghost count = self@.t.stored;
        let ghost bits = latches::slaves(row);
        proof {
            self.lemma_bounds();
            self.sequencer.lemma_width();
            utils::lemma_value_of_bits(bits);
            control::law_sequencer_next(count, false);
            machine::lemma_count_step(row, (count + 1) % 16, clock);
            decoder::law_decoder4_one_hot(bits);
            lemma_driven_levels(decoder::one_hot(16, count));
            assert(hardware::driven(seq![clock, Bit::Low])[0] == Signal::Driven(clock));
            assert(hardware::driven(seq![clock, Bit::Low])[1] == Signal::Driven(Bit::Low));
        }
        let t_lines = match self.sequencer.compute(&[clock, Bit::Low]) {
            Ok(lines) => lines,
            Err(error) => return Err(error),
        };
        assert(t_lines@ == decoder::one_hot(16, count));

        let opcode = self.ir.state();
        let ghost instr = control::instruction_of(self@.ir.stored);
        let ghost decoded = Seq::new(24, |i: int| hardware::bit_of(instr == Some(i)));
        proof {
            self.ir.lemma_width();
            utils::law_byte_packed(opcode@);
            let lines = Seq::new(
                24,
                |i: int| control::instruction_signal(i, hardware::driven(opcode@)),
            );
            assert(lines =~= hardware::driven(decoded)) by {
                assert forall|i: int| 0 <= i < 24 implies lines[i] == hardware::driven(
                    decoded,
                )[i] by {
                    control::law_opcode_decodes(self@.ir.stored, i);
                }
            }
            lemma_driven_levels(decoded);
        }
        let instr_lines = match self.decoder.compute(&opcode) {
            Ok(lines) => lines,
            Err(error) => return Err(error),
        };
        assert(instr_lines@ == decoded);

        let (zero, carry, sign) = self.flags.state();
        let ghost flags = self@.flags.stored;
        proof {
            self.flags.lemma_width();
            assert(latches::slaves(self.flags@)[0] == zero);
            assert(latches::slaves(self.flags@)[1] == carry);
            assert(latches::slaves(self.flags@)[2] == sign);
        }
        let mut inputs = t_lines;
        extend_bits(&mut inputs, &instr_lines);
        inputs.push(zero);
        inputs.push(carry);
        inputs.push(sign);
        proof {
            assert(inputs@ =~= control::control_inputs(
                count as int,
                instr,
                flags.zero,
                flags.carry,
                flags.sign,
            ));
            lemma_instruction_range(self@.ir.stored);
            let lines = Seq::new(
                29,
                |line: int| control::control_signal(line, hardware::driven(inputs@)),
            );
            let word = machine::control_word(old(self)@);
            assert(lines =~= hardware::driven(word)) by {
                assert forall|line: int| 0 <= line < 29 implies lines[line] == hardware::driven(
                    word,
                )[line] by {
                    control::law_control_word(
                        line,
                        count as int,
                        instr,
                        flags.zero,
                        flags.carry,
                        flags.sign,
                    );
                }
            }
            lemma_driven_levels(word);
        }
        self.control_unit.compute(&inputs)
    }

    /// The enable lines of the SP and of the MAR on the address bus: a push
    /// takes the bus from the MAR and gives it to the SP.
    fn address_enables(&mut self, word: &Vec<Bit>) -> (r: Result<(Signal, Signal), HardwareError>)
        requires
            old(self).wf(),
            machine::undisputed(word@),
        ensures
            final(self).wf(),
            final(self)@ == old(self)@,
            r is Ok,
            r->Ok_0.0 == Signal::Driven(
                hardware::bit_of(machine::on(word@, LN_SP_ENABLE) || machine::pushes(word@)),
            ),
            r->Ok_0.1 == Signal::Driven(
                hardware::bit_of(machine::on(word@, LN_MAR_ENABLE) && !machine::pushes(word@)),
            ),
    {
        let mut push = [Signal::HighImpedance];
        self.push_and.conduct_into(
            &[Signal::Driven(word[LN_SP_COUNT_DOWN]), Signal::Driven(word[LN_MEM_WRITE])],
            &mut push,
        )?;
        let mut no_push = [Signal::HighImpedance];
        self.push_not.conduct_into(&push, &mut no_push)?;
        let mut sp_enable = [Signal::HighImpedance];
        self.sp_drive_or.conduct_into(
            &[Signal::Driven(word[LN_SP_ENABLE]), push[0]],
            &mut sp_enable,
        )?;
        let mut mar_enable = [Signal::HighImpedance];
        self.mar_drive_and.conduct_into(
            &[Signal::Driven(word[LN_MAR_ENABLE]), no_push[0]],
            &mut mar_enable,
        )?;
        Ok((sp_enable[0], mar_enable[0]))
    }

    /// Resolve the address bus: one NMOS row per source, of which only the
    /// enabled one drives.
    fn address_bus(&mut self, word: &Vec<Bit>) -> (r: Result<[Signal; 16], HardwareError>)
        requires
            old(self).wf(),
            machine::undisputed(word@),
        ensures
            final(self).wf(),
            final(self)@ == old(self)@,
            r is Ok,
            r->Ok_0@ == hardware::driven(
                utils::word_bits(machine::address_word(word@, old(self)@)),
            ),
    {
        let (sp_enable, mar_enable) = self.address_enables(word)?;
        let pc_state = self.pc.state();
        let sp_state = self.sp.state();
        let mar_state = self.mar.state();
        let ghost address = machine::address_word(word@, self@);
        proof {
            self.pc.lemma_width();
            self.sp.lemma_width();
            self.mar.lemma_width();
            utils::law_word_packed(pc_state@);
            utils::law_word_packed(sp_state@);
            utils::law_word_packed(mar_state@);
        }
        let mut bus = [Signal::HighImpedance; 16];
        for index in 0..16
            invariant
                self.wf(),
                self@ == old(self)@,
                machine::undisputed(word@),
                sp_enable == Signal::Driven(
                    hardware::bit_of(
                        machine::on(word@, LN_SP_ENABLE) || machine::pushes(word@),
                    ),
                ),
                mar_enable == Signal::Driven(
                    hardware::bit_of(
                        machine::on(word@, LN_MAR_ENABLE) && !machine::pushes(word@),
                    ),
                ),
                pc_state@ == utils::word_bits(self@.pc.stored),
                sp_state@ == utils::word_bits(self@.sp.stored),
                mar_state@ == utils::word_bits(self@.mar.stored),
                address == machine::address_word(word@, self@),
                forall|k: int|
                    0 <= k < index ==> #[trigger] bus@[k] == Signal::Driven(
                        utils::word_bits(address)[k],
                    ),
        {
            let mut single = [Signal::HighImpedance];
            self.pc_addr_nmos[index].conduct_into(
                &[Signal::Driven(word[LN_PC_ENABLE]), Signal::Driven(pc_state[index])],
                &mut single,
            )?;
            let pc_driver = single[0];
            self.sp_addr_nmos[index].conduct_into(
                &[sp_enable, Signal::Driven(sp_state[index])],
                &mut single,
            )?;
            let sp_driver = single[0];
            self.mar_addr_nmos[index].conduct_into(
                &[mar_enable, Signal::Driven(mar_state[index])],
                &mut single,
            )?;
            let drivers = [pc_driver, sp_driver, single[0]];
            proof {
                lemma_wired_three(drivers@[0], drivers@[1], drivers@[2]);
                assert(drivers@ =~= seq![drivers@[0], drivers@[1], drivers@[2]]);
            }
            bus[index] = wire(&drivers)?;
        }
        proof {
            utils::law_word_unpacked(address);
            assert(bus@ =~= hardware::driven(utils::word_bits(address)));
        }
        Ok(bus)
    }

    /// Run the ALU on the accumulator and B under the control word.
    fn run_alu(&mut self, word: &Vec<Bit>) -> (r: Result<[Signal; 10], HardwareError>)
        requires
            old(self).wf(),
            word@.len() == 29,
        ensures
            final(self).wf(),
            final(self)@ == old(self)@,
            r is Ok,
            r->Ok_0@.take(8) == machine::bus_lines(
                if machine::on(word@, LN_ALU_OUT) {
                    Some(machine::alu_byte(word@, old(self)@))
                } else {
                    None
                },
            ),
            r->Ok_0@[8] == Signal::Driven(
                hardware::bit_of(machine::alu_flags(word@, old(self)@).carry),
            ),
            r->Ok_0@[9] == Signal::Driven(
                hardware::bit_of(machine::alu_flags(word@, old(self)@).zero),
            ),
    {
        let a = self.acc.state();
        let b = self.b.state();
        let ghost operation = machine::alu_operation(word@);
        let ghost result = machine::alu_byte(word@, self@);
        proof {
            self.acc.lemma_width();
            self.b.lemma_width();
            utils::law_byte_packed(a@);
            utils::law_byte_packed(b@);
            utils::law_byte_unpacked(result);
            arithmetic::law_sap2_computes(operation, self@.acc.stored, self@.b.stored);
        }
        let mut lines: Vec<Signal> = Vec::new();
        extend_lines(&mut lines, &byte_wires(&a));
        extend_lines(&mut lines, &byte_wires(&b));
        lines.push(Signal::Driven(word[LN_OP2]));
        lines.push(Signal::Driven(word[LN_OP1]));
        lines.push(Signal::Driven(word[LN_OP0]));
        lines.push(Signal::Driven(word[LN_ALU_OUT]));
        assert(lines@.subrange(0, 8) =~= hardware::driven(a@));
        assert(lines@.subrange(8, 16) =~= hardware::driven(b@));
        let mut outputs = [Signal::HighImpedance; 10];
        self.alu.conduct_into(&lines, &mut outputs)?;
        proof {
            let enable = Signal::Driven(word@[LN_ALU_OUT as int]);
            let row = hardware::driven(utils::byte_bits(result));
            assert(outputs@.take(8) =~= hardware::gated_row(enable, row));
            if machine::on(word@, LN_ALU_OUT) {
                assert(hardware::gated_row(enable, row) =~= row);
            } else {
                assert(hardware::gated_row(enable, row) =~= hardware::floating(8));
            }
        }
        Ok(outputs)
    }

    /// One row of tri-state drivers on the data bus.
    fn gate_byte(nmos: &mut [Nmos; 8], enable: Bit, bits: &[Bit; 8]) -> (r: Result<
        [Signal; 8],
        HardwareError,
    >)
        ensures
            r is Ok,
            r->Ok_0@ == machine::bus_lines(
                if enable == Bit::High {
                    Some(utils::byte_of(bits@))
                } else {
                    None
                },
            ),
    {
        let mut row = [Signal::HighImpedance; 8];
        for index in 0..8
            invariant
                forall|k: int|
                    0 <= k < index ==> #[trigger] row@[k] == hardware::gated(
                        Signal::Driven(enable),
                        Signal::Driven(bits@[k]),
                    ),
        {
            let mut single = [Signal::HighImpedance];
            nmos[index].conduct_into(
                &[Signal::Driven(enable), Signal::Driven(bits[index])],
                &mut single,
            )?;
            row[index] = single[0];
        }
        proof {
            utils::law_byte_packed(bits@);
            if enable == Bit::High {
                assert(row@ =~= hardware::driven(bits@));
            } else {
                assert(row@ =~= hardware::floating(8));
            }
        }
        Ok(row)
    }

    /// Resolve the drivers of the data bus other than the RAM: the return
    /// registers, the accumulator, the ALU and the input port.
    fn partial_bus(&mut self, word: &Vec<Bit>, alu_row: &[Signal; 8]) -> (r: Result<
        [Signal; 8],
        HardwareError,
    >)
        requires
            old(self).wf(),
            machine::undisputed(word@),
            alu_row@ == machine::bus_lines(
                if machine::on(word@, LN_ALU_OUT) {
                    Some(machine::alu_byte(word@, old(self)@))
                } else {
                    None
                },
            ),
        ensures
            final(self).wf(),
            final(self)@ == old(self)@,
            r is Ok,
            r->Ok_0@ == machine::bus_lines(machine::driven_byte(word@, old(self)@)),
    {
        let low = self.ret_lo.state();
        let high = self.ret_hi.state();
        let acc_state = self.acc.state();
        let ghost m = self@;
        proof {
            self.ret_lo.lemma_width();
            self.ret_hi.lemma_width();
            self.acc.lemma_width();
            utils::law_byte_packed(low@);
            utils::law_byte_packed(high@);
            utils::law_byte_packed(acc_state@);
            utils::law_byte_packed(self.input_value@);
        }
        let low_row = Self::gate_byte(&mut self.ret_lo_nmos, word[LN_PC_OUT_LO], &low)?;
        let high_row = Self::gate_byte(&mut self.ret_hi_nmos, word[LN_PC_OUT_HI], &high)?;
        let acc_row = Self::gate_byte(&mut self.acc_bus_nmos, word[LN_ACC_OUT], &acc_state)?;

        let mut lines: Vec<Signal> = Vec::new();
        extend_lines(&mut lines, &byte_wires(&self.input_value));
        lines.push(Signal::Driven(word[LN_IN_ENABLE]));
        let mut in_row = [Signal::HighImpedance; 8];
        self.in_port.conduct_into(&lines, &mut in_row)?;
        let ghost bytes: Seq<Option<u8>> = seq![
            if machine::on(word@, LN_PC_OUT_LO) {
                Some(m.ret_lo.stored)
            } else {
                None
            },
            if machine::on(word@, LN_PC_OUT_HI) {
                Some(m.ret_hi.stored)
            } else {
                None
            },
            if machine::on(word@, LN_ACC_OUT) {
                Some(m.acc.stored)
            } else {
                None
            },
            if machine::on(word@, LN_ALU_OUT) {
                Some(machine::alu_byte(word@, m))
            } else {
                None
            },
            if machine::on(word@, LN_IN_ENABLE) {
                Some(m.input)
            } else {
                None
            },
        ];
        let rows = [low_row, high_row, acc_row, *alu_row, in_row];
        proof {
            assert(lines@.subrange(0, 8) =~= hardware::driven(self.input_value@));
            if machine::on(word@, LN_IN_ENABLE) {
                assert(in_row@ =~= hardware::driven(self.input_value@));
            } else {
                assert(in_row@ =~= hardware::floating(8));
            }
            assert(rows@[0]@ == machine::bus_lines(bytes[0]));
            assert(rows@[1]@ == machine::bus_lines(bytes[1]));
            assert(rows@[2]@ == machine::bus_lines(bytes[2]));
            assert(rows@[3]@ == machine::bus_lines(bytes[3]));
            assert(rows@[4]@ == machine::bus_lines(bytes[4]));
            lemma_five_drivers(rows@, bytes);
        }
        bus8(&rows)
    }

    /// One propagation through the memory: it writes at the rising edge
    /// and drives the data bus.
    fn access_ram(
        &mut self,
        word: &Vec<Bit>,
        partial: &[Signal; 8],
        address: &[Signal; 16],
        clock: Bit,
    ) -> (r: Result<[Signal; 8], HardwareError>)
        requires
            old(self).wf(),
            machine::undisputed(word@),
            partial@ == machine::bus_lines(machine::driven_byte(word@, old(self)@)),
            address@ == hardware::driven(
                utils::word_bits(machine::address_word(word@, old(self)@)),
            ),
        ensures
            final(self).wf(),
            final(self)@ == (Machine {
                memory: machine::memory_step(
                    old(self)@.memory,
                    machine::pulled(machine::driven_byte(word@, old(self)@)),
                    machine::address_word(word@, old(self)@),
                    clock,
                    machine::on(word@, LN_MEM_WRITE),
                    machine::on(word@, LN_MEM_READ),
                ),
                ..old(self)@
            }),
            r is Ok,
            r->Ok_0@ == machine::bus_lines(
                if machine::on(word@, LN_MEM_READ) {
                    Some(
                        old(self)@.memory[machine::address_word(
                            word@,
                            old(self)@,
                        ) as int].stored,
                    )
                } else {
                    None
                },
            ),
    {
        let ghost byte = machine::driven_byte(word@, self@);
        let data = pull_down_byte(partial, Ghost(byte));
        let mut lines: Vec<Signal> = Vec::new();
        extend_lines(&mut lines, &data);
        extend_lines(&mut lines, address);
        lines.push(Signal::Driven(clock));
        lines.push(Signal::Driven(word[LN_MEM_WRITE]));
        lines.push(Signal::Driven(word[LN_MEM_READ]));
        let mut row = [Signal::HighImpedance; 8];
        proof {
            self.ram.lemma_shape();
            utils::law_byte_unpacked(machine::pulled(byte));
            utils::law_word_unpacked(machine::address_word(word@, self@));
            assert(lines@.subrange(0, 8) =~= data@);
            assert(lines@.subrange(8, 24) =~= address@);
            machine::lemma_memory_step(
                self.ram@,
                machine::pulled(byte),
                machine::address_word(word@, self@),
                clock,
                machine::on(word@, LN_MEM_WRITE),
                machine::on(word@, LN_MEM_READ),
                row@,
            );
        }
        self.ram.conduct_into(&lines, &mut row)?;
        Ok(row)
    }

    /// Clock the program counter.
    fn clock_pc(
        &mut self,
        word: &Vec<Bit>,
        bus: &[Signal; 8],
        address: &[Signal; 16],
        clock: Bit,
        Ghost(data): Ghost<u8>,
        Ghost(target): Ghost<u16>,
    ) -> (r: Result<(), HardwareError>)
        requires
            old(self).wf(),
            machine::undisputed(word@),
            bus@ == hardware::driven(utils::byte_bits(data)),
            address@ == hardware::driven(utils::word_bits(target)),
        ensures
            final(self).wf(),
            r is Ok,
            final(self)@ == (Machine {
                pc: machine::latch_step(
                    old(self)@.pc,
                    counters::pc16_word(
                        old(self)@.pc.stored,
                        data,
                        target,
                        machine::on(word@, LN_PC_COUNT),
                        machine::on(word@, LN_PC_LOAD),
                        machine::on(word@, LN_PC_SAVE_LO),
                        machine::on(word@, LN_PC_SAVE_HI),
                    ),
                    clock,
                    true,
                ),
                ..old(self)@
            }),
    {
        let mut lines: Vec<Signal> = Vec::new();
        extend_lines(&mut lines, bus);
        extend_lines(&mut lines, address);
        lines.push(Signal::Driven(clock));
        lines.push(Signal::Driven(word[LN_PC_COUNT]));
        lines.push(Signal::Driven(word[LN_PC_LOAD]));
        lines.push(Signal::Driven(word[LN_PC_SAVE_LO]));
        lines.push(Signal::Driven(word[LN_PC_SAVE_HI]));
        lines.push(Signal::Driven(word[LN_PC_ENABLE]));
        lines.push(Signal::Driven(word[LN_PC_OUT_LO]));
        lines.push(Signal::Driven(word[LN_PC_OUT_HI]));
        proof {
            let row = self.pc@;
            self.pc.lemma_width();
            utils::law_byte_unpacked(data);
            utils::law_word_unpacked(target);
            utils::law_word_packed(latches::slaves(row));
            assert(lines@.subrange(0, 8) =~= bus@);
            assert(lines@.subrange(8, 24) =~= address@);
            counters::law_pc16_next(
                self@.pc.stored,
                data,
                target,
                machine::on(word@, LN_PC_COUNT),
                machine::on(word@, LN_PC_LOAD),
                machine::on(word@, LN_PC_SAVE_LO),
                machine::on(word@, LN_PC_SAVE_HI),
            );
            machine::lemma_word_step(
                row,
                counters::pc16_word(
                    self@.pc.stored,
                    data,
                    target,
                    machine::on(word@, LN_PC_COUNT),
                    machine::on(word@, LN_PC_LOAD),
                    machine::on(word@, LN_PC_SAVE_LO),
                    machine::on(word@, LN_PC_SAVE_HI),
                ),
                clock,
            );
        }
        let mut unused = [Signal::HighImpedance; 24];
        self.pc.conduct_into(&lines, &mut unused)
    }

    /// Clock the stack pointer.
    fn clock_sp(
        &mut self,
        word: &Vec<Bit>,
        bus: &[Signal; 8],
        clock: Bit,
        Ghost(data): Ghost<u8>,
    ) -> (r: Result<(), HardwareError>)
        requires
            old(self).wf(),
            machine::undisputed(word@),
            bus@ == hardware::driven(utils::byte_bits(data)),
        ensures
            final(self).wf(),
            r is Ok,
            final(self)@ == (Machine {
                sp: machine::latch_step(
                    old(self)@.sp,
                    counters::sp16_word(
                        old(self)@.sp.stored,
                        data,
                        machine::on(word@, LN_SP_COUNT_UP),
                        machine::on(word@, LN_SP_COUNT_DOWN),
                        false,
                        false,
                    ),
                    clock,
                    true,
                ),
                ..old(self)@
            }),
    {
        let mut lines: Vec<Signal> = Vec::new();
        extend_lines(&mut lines, bus);
        lines.push(Signal::Driven(clock));
        lines.push(Signal::Driven(word[LN_SP_COUNT_UP]));
        lines.push(Signal::Driven(word[LN_SP_COUNT_DOWN]));
        lines.push(Signal::Driven(Bit::Low));
        lines.push(Signal::Driven(Bit::Low));
        lines.push(Signal::Driven(word[LN_SP_ENABLE]));
        proof {
            let row = self.sp@;
            self.sp.lemma_width();
            utils::law_byte_unpacked(data);
            utils::law_word_packed(latches::slaves(row));
            assert(lines@.subrange(0, 8) =~= bus@);
            counters::law_sp16_next(
                self@.sp.stored,
                data,
                machine::on(word@, LN_SP_COUNT_UP),
                machine::on(word@, LN_SP_COUNT_DOWN),
                false,
                false,
            );
            machine::lemma_word_step(
                row,
                counters::sp16_word(
                    self@.sp.stored,
                    data,
                    machine::on(word@, LN_SP_COUNT_UP),
                    machine::on(word@, LN_SP_COUNT_DOWN),
                    false,
                    false,
                ),
                clock,
            );
        }
        let mut unused = [Signal::HighImpedance; 16];
        self.sp.conduct_into(&lines, &mut unused)
    }

    /// Clock the memory address register.
    fn clock_mar(
        &mut self,
        word: &Vec<Bit>,
        bus: &[Signal; 8],
        address: &[Signal; 16],
        clock: Bit,
        Ghost(data): Ghost<u8>,
        Ghost(target): Ghost<u16>,
    ) -> (r: Result<(), HardwareError>)
        requires
            old(self).wf(),
            machine::undisputed(word@),
            bus@ == hardware::driven(utils::byte_bits(data)),
            address@ == hardware::driven(utils::word_bits(target)),
        ensures
            final(self).wf(),
            r is Ok,
            final(self)@ == (Machine {
                mar: machine::latch_step(
                    old(self)@.mar,
                    counters::mar16_word(
                        old(self)@.mar.stored,
                        data,
                        target,
                        machine::on(word@, LN_MAR_LO_IN),
                        machine::on(word@, LN_MAR_HI_IN),
                        machine::on(word@, LN_MAR_IN),
                    ),
                    clock,
                    true,
                ),
                ..old(self)@
            }),
    {
        let mut lines: Vec<Signal> = Vec::new();
        extend_lines(&mut lines, bus);
        extend_lines(&mut lines, address);
        lines.push(Signal::Driven(clock));
        lines.push(Signal::Driven(word[LN_MAR_LO_IN]));
        lines.push(Signal::Driven(word[LN_MAR_HI_IN]));
        lines.push(Signal::Driven(word[LN_MAR_IN]));
        lines.push(Signal::Driven(word[LN_MAR_ENABLE]));
        proof {
            let row = self.mar@;
            self.mar.lemma_width();
            utils::law_byte_unpacked(data);
            utils::law_word_unpacked(target);
            utils::law_word_packed(latches::slaves(row));
            assert(lines@.subrange(0, 8) =~= bus@);
            assert(lines@.subrange(8, 24) =~= address@);
            counters::law_mar16_next(
                self@.mar.stored,
                data,
                target,
                machine::on(word@, LN_MAR_LO_IN),
                machine::on(word@, LN_MAR_HI_IN),
                machine::on(word@, LN_MAR_IN),
            );
            machine::lemma_word_step(
                row,
                counters::mar16_word(
                    self@.mar.stored,
                    data,
                    target,
                    machine::on(word@, LN_MAR_LO_IN),
                    machine::on(word@, LN_MAR_HI_IN),
                    machine::on(word@, LN_MAR_IN),
                ),
                clock,
            );
        }
        let mut unused = [Signal::HighImpedance; 16];
        self.mar.conduct_into(&lines, &mut unused)
    }

    /// Clock a register on the rising edge; `load` selects whether its
    /// outputs are driven.
    fn clock_register(
        register: &mut Register8Bits,
        bus: &[Signal; 8],
        clock: Bit,
        save: Bit,
        load: Bit,
        Ghost(data): Ghost<u8>,
    ) -> (r: Result<(), HardwareError>)
        requires
            old(register).wf(),
            bus@ == hardware::driven(utils::byte_bits(data)),
        ensures
            final(register).wf(),
            r is Ok,
            machine::latched_byte(final(register)@) == machine::latch_step(
                machine::latched_byte(old(register)@),
                data,
                clock,
                save == Bit::High,
            ),
    {
        let mut lines: Vec<Signal> = Vec::new();
        extend_lines(&mut lines, bus);
        lines.push(Signal::Driven(clock));
        lines.push(Signal::Driven(save));
        lines.push(Signal::Driven(load));
        proof {
            register.lemma_width();
            utils::law_byte_unpacked(data);
            assert(lines@.subrange(0, 8) =~= bus@);
            machine::lemma_byte_step(register@, data, clock, save == Bit::High);
        }
        let mut unused = [Signal::HighImpedance; 8];
        register.conduct_into(&lines, &mut unused)
    }

    /// Clock the flags.
    fn clock_flags(
        &mut self,
        word: &Vec<Bit>,
        zero: Signal,
        carry: Signal,
        sign: Signal,
        clock: Bit,
        Ghost(data): Ghost<machine::Flags>,
    ) -> (r: Result<(), HardwareError>)
        requires
            old(self).wf(),
            machine::undisputed(word@),
            zero == Signal::Driven(hardware::bit_of(data.zero)),
            carry == Signal::Driven(hardware::bit_of(data.carry)),
            sign == Signal::Driven(hardware::bit_of(data.sign)),
        ensures
            final(self).wf(),
            r is Ok,
            final(self)@ == (Machine {
                flags: machine::latch_step(
                    old(self)@.flags,
                    data,
                    clock,
                    machine::on(word@, LN_FLAGS_IN),
                ),
                ..old(self)@
            }),
    {
        let lines = [
            zero,
            carry,
            sign,
            Signal::Driven(clock),
            Signal::Driven(word[LN_FLAGS_IN]),
        ];
        proof {
            self.flags.lemma_width();
            assert(lines@.subrange(0, 3) =~= hardware::driven(machine::flag_bits(data)));
            machine::lemma_flags_step(
                self.flags@,
                data,
                clock,
                machine::on(word@, LN_FLAGS_IN),
            );
        }
        let mut unused = [Signal::HighImpedance; 3];
        self.flags.conduct_into(&lines, &mut unused)
    }

    /// Clock the output latch.
    fn clock_output(&mut self, word: &Vec<Bit>, bus: &[Signal; 8], clock: Bit, Ghost(data): Ghost<
        u8,
    >) -> (r: Result<(), HardwareError>)
        requires
            old(self).wf(),
            machine::undisputed(word@),
            bus@ == hardware::driven(utils::byte_bits(data)),
        ensures
            final(self).wf(),
            r is Ok,
            final(self)@ == (Machine {
                out: machine::latch_step(
                    old(self)@.out,
                    data,
                    clock,
                    machine::on(word@, LN_OUT_SAVE),
                ),
                ..old(self)@
            }),
    {
        let mut lines: Vec<Signal> = Vec::new();
        extend_lines(&mut lines, bus);
        lines.push(Signal::Driven(clock));
        lines.push(Signal::Driven(word[LN_OUT_SAVE]));
        proof {
            self.out_reg.lemma_width();
            utils::law_byte_unpacked(data);
            assert(lines@.subrange(0, 8) =~= bus@);
            machine::lemma_byte_step(
                self.out_reg@,
                data,
                clock,
                machine::on(word@, LN_OUT_SAVE),
            );
        }
        let mut unused = [Signal::HighImpedance; 8];
        self.out_reg.conduct_into(&lines, &mut unused)
    }

    /// Set the halt latch at the rising edge of a halting cycle.
    fn clock_halt(&mut self, word: &Vec<Bit>, clock: Bit) -> (r: Result<(), HardwareError>)
        requires
            old(self).wf(),
            machine::undisputed(word@),
        ensures
            final(self).wf(),
            r is Ok,
            final(self)@ == (Machine {
                halted: old(self)@.halted || (clock == Bit::High && machine::on(word@, LN_HALT)),
                ..old(self)@
            }),
    {
        let mut single = [Signal::HighImpedance];
        self.halt_and.conduct_into(
            &[Signal::Driven(word[LN_HALT]), Signal::Driven(clock)],
            &mut single,
        )?;
        let mut both = [Signal::HighImpedance; 2];
        self.halt_latch.conduct_into(&[single[0], Signal::Driven(Bit::Low)], &mut both)?;
        if self.halt_latch.q() == Bit::High {
            self.halted = true;
        }
        Ok(())
    }

    /// Clock the sequencer with its real reset line. It has propagated
    /// once already with the reset line Low.
    fn clock_sequencer(
        &mut self,
        word: &Vec<Bit>,
        clock: Bit,
        Ghost(before): Ghost<Latched<nat>>,
    ) -> (r: Result<(), HardwareError>)
        requires
            old(self).wf(),
            machine::undisputed(word@),
            before.stored < 16,
            old(self)@.t == machine::latch_step(before, (before.stored + 1) % 16, clock, true),
        ensures
            final(self).wf(),
            r is Ok,
            final(self)@ == (Machine {
                t: machine::latch_step(
                    before,
                    if machine::on(word@, LN_SEQ_RESET) {
                        0
                    } else {
                        (before.stored + 1) % 16
                    },
                    clock,
                    true,
                ),
                ..old(self)@
            }),
    {
        proof {
            let row = self.sequencer@;
            let count = self@.t.stored;
            let reset = machine::on(word@, LN_SEQ_RESET);
            self.lemma_bounds();
            self.sequencer.lemma_width();
            utils::lemma_value_of_bits(latches::slaves(row));
            control::law_sequencer_next(count, reset);
            machine::lemma_count_step(
                row,
                if reset {
                    0
                } else {
                    (count + 1) % 16
                },
                clock,
            );
        }
        let mut unused = [Signal::HighImpedance; 16];
        self.sequencer.conduct_into(
            &[Signal::Driven(clock), Signal::Driven(word[LN_SEQ_RESET])],
            &mut unused,
        )
    }

    /// Clock the instruction register, the accumulator and B.
    fn clock_registers(&mut self, word: &Vec<Bit>, bus: &[Signal; 8], clock: Bit, Ghost(
        data,
    ): Ghost<u8>) -> (r: Result<(), HardwareError>)
        requires
            old(self).wf(),
            machine::undisputed(word@),
            bus@ == hardware::driven(utils::byte_bits(data)),
        ensures
            final(self).wf(),
            r is Ok,
            final(self)@ == (Machine {
                ir: machine::latch_step(
                    old(self)@.ir,
                    data,
                    clock,
                    machine::on(word@, LN_IR_IN),
                ),
                acc: machine::latch_step(
                    old(self)@.acc,
                    data,
                    clock,
                    machine::on(word@, LN_ACC_IN),
                ),
                b: machine::latch_step(old(self)@.b, data, clock, machine::on(word@, LN_B_IN)),
                ..old(self)@
            }),
    {
        let low = Bit::Low;
        Self::clock_register(&mut self.ir, bus, clock, word[LN_IR_IN], low, Ghost(data))?;
        Self::clock_register(
            &mut self.acc,
            bus,
            clock,
            word[LN_ACC_IN],
            word[LN_ACC_OUT],
            Ghost(data),
        )?;
        Self::clock_register(&mut self.b, bus, clock, word[LN_B_IN], low, Ghost(data))
    }

    /// Resolve the buses and the flag lines under the control word. The
    /// memory propagates on the way.
    fn resolve(&mut self, word: &Vec<Bit>, clock: Bit) -> (r: Result<Buses, HardwareError>)
        requires
            old(self).wf(),
            machine::undisputed(word@),
        ensures
            final(self).wf(),
            final(self)@ == (Machine {
                memory: machine::memory_step(
                    old(self)@.memory,
                    machine::pulled(machine::driven_byte(word@, old(self)@)),
                    machine::address_word(word@, old(self)@),
                    clock,
                    machine::on(word@, LN_MEM_WRITE),
                    machine::on(word@, LN_MEM_READ),
                ),
                ..old(self)@
            }),
            r is Ok,
            r->Ok_0.carries(word@, old(self)@),
    {
        let ghost m = self@;
        let ghost address = machine::address_word(word@, m);
        let address_lines = self.address_bus(word)?;
        let alu_outputs = self.run_alu(word)?;
        let alu_row = [
            alu_outputs[0],
            alu_outputs[1],
            alu_outputs[2],
            alu_outputs[3],
            alu_outputs[4],
            alu_outputs[5],
            alu_outputs[6],
            alu_outputs[7],
        ];
        assert(alu_row@ =~= alu_outputs@.take(8));
        let mut sign_line = [Signal::HighImpedance];
        self.sign_detector.conduct_into(&alu_row, &mut sign_line)?;
        let sign = pull_down(sign_line[0]);
        proof {
            lemma_sign_bit(machine::alu_byte(word@, m));
        }

        let partial = self.partial_bus(word, &alu_row)?;
        let ram_row = self.access_ram(word, &partial, &address_lines, clock)?;
        let rows = [partial, ram_row];
        proof {
            lemma_two_drivers(
                partial,
                ram_row,
                machine::driven_byte(word@, m),
                if machine::on(word@, LN_MEM_READ) {
                    Some(m.memory[address as int].stored)
                } else {
                    None
                },
            );
            assert(rows@ =~= seq![partial, ram_row]);
        }
        let resolved = bus8(&rows)?;
        let data = pull_down_byte(&resolved, Ghost(machine::bus_byte(word@, m)));
        Ok(
            Buses {
                data,
                address: address_lines,
                zero: alu_outputs[9],
                carry: alu_outputs[8],
                sign,
            },
        )
    }

    /// Clock the return registers, which take the PC as it is before it
    /// loads.
    fn clock_return(&mut self, word: &Vec<Bit>, clock: Bit) -> (r: Result<(), HardwareError>)
        requires
            old(self).wf(),
            machine::undisputed(word@),
        ensures
            final(self).wf(),
            r is Ok,
            final(self)@ == (Machine {
                ret_lo: machine::latch_step(
                    old(self)@.ret_lo,
                    utils::low_byte(old(self)@.pc.stored),
                    clock,
                    machine::on(word@, LN_PC_LOAD),
                ),
                ret_hi: machine::latch_step(
                    old(self)@.ret_hi,
                    utils::high_byte(old(self)@.pc.stored),
                    clock,
                    machine::on(word@, LN_PC_LOAD),
                ),
                ..old(self)@
            }),
    {
        let pc_state = self.pc.state();
        let low = low_half(&pc_state);
        let high = high_half(&pc_state);
        proof {
            self.pc.lemma_width();
            lemma_word_bytes(pc_state@);
            utils::law_byte_packed(low@);
            utils::law_byte_packed(high@);
        }
        Self::clock_register(
            &mut self.ret_lo,
            &byte_wires(&low),
            clock,
            word[LN_PC_LOAD],
            word[LN_PC_OUT_LO],
            Ghost(utils::byte_of(low@)),
        )?;
        Self::clock_register(
            &mut self.ret_hi,
            &byte_wires(&high),
            clock,
            word[LN_PC_LOAD],
            word[LN_PC_OUT_HI],
            Ghost(utils::byte_of(high@)),
        )
    }

    /// Clock the return registers and the 16-bit components.
    fn clock_counters(
        &mut self,
        word: &Vec<Bit>,
        buses: &Buses,
        clock: Bit,
        Ghost(data): Ghost<u8>,
        Ghost(address): Ghost<u16>,
    ) -> (r: Result<(), HardwareError>)
        requires
            old(self).wf(),
            machine::undisputed(word@),
            buses.data@ == hardware::driven(utils::byte_bits(data)),
            buses.address@ == hardware::driven(utils::word_bits(address)),
        ensures
            final(self).wf(),
            r is Ok,
            final(self)@ == (Machine {
                ret_lo: machine::latch_step(
                    old(self)@.ret_lo,
                    utils::low_byte(old(self)@.pc.stored),
                    clock,
                    machine::on(word@, LN_PC_LOAD),
                ),
                ret_hi: machine::latch_step(
                    old(self)@.ret_hi,
                    utils::high_byte(old(self)@.pc.stored),
                    clock,
                    machine::on(word@, LN_PC_LOAD),
                ),
                pc: machine::latch_step(
                    old(self)@.pc,
                    counters::pc16_word(
                        old(self)@.pc.stored,
                        data,
                        address,
                        machine::on(word@, LN_PC_COUNT),
                        machine::on(word@, LN_PC_LOAD),
                        machine::on(word@, LN_PC_SAVE_LO),
                        machine::on(word@, LN_PC_SAVE_HI),
                    ),
                    clock,
                    true,
                ),
                sp: machine::latch_step(
                    old(self)@.sp,
                    counters::sp16_word(
                        old(self)@.sp.stored,
                        data,
                        machine::on(word@, LN_SP_COUNT_UP),
                        machine::on(word@, LN_SP_COUNT_DOWN),
                        false,
                        false,
                    ),
                    clock,
                    true,
                ),
                mar: machine::latch_step(
                    old(self)@.mar,
                    counters::mar16_word(
                        old(self)@.mar.stored,
                        data,
                        address,
                        machine::on(word@, LN_MAR_LO_IN),
                        machine::on(word@, LN_MAR_HI_IN),
                        machine::on(word@, LN_MAR_IN),
                    ),
                    clock,
                    true,
                ),
                ..old(self)@
            }),
    {
        let bus = buses.data;
        let lines = buses.address;
        self.clock_return(word, clock)?;
        self.clock_pc(word, &bus, &lines, clock, Ghost(data), Ghost(address))?;
        self.clock_sp(word, &bus, clock, Ghost(data))?;
        self.clock_mar(word, &bus, &lines, clock, Ghost(data), Ghost(address))
    }

    /// Clock the registers, the flags and the output latch.
    fn clock_bytes(
        &mut self,
        word: &Vec<Bit>,
        buses: &Buses,
        clock: Bit,
        Ghost(data): Ghost<u8>,
        Ghost(flags): Ghost<machine::Flags>,
    ) -> (r: Result<(), HardwareError>)
        requires
            old(self).wf(),
            machine::undisputed(word@),
            buses.data@ == hardware::driven(utils::byte_bits(data)),
            buses.zero == Signal::Driven(hardware::bit_of(flags.zero)),
            buses.carry == Signal::Driven(hardware::bit_of(flags.carry)),
            buses.sign == Signal::Driven(hardware::bit_of(flags.sign)),
        ensures
            final(self).wf(),
            r is Ok,
            final(self)@ == (Machine {
                ir: machine::latch_step(
                    old(self)@.ir,
                    data,
                    clock,
                    machine::on(word@, LN_IR_IN),
                ),
                acc: machine::latch_step(
                    old(self)@.acc,
                    data,
                    clock,
                    machine::on(word@, LN_ACC_IN),
                ),
                b: machine::latch_step(old(self)@.b, data, clock, machine::on(word@, LN_B_IN)),
                flags: machine::latch_step(
                    old(self)@.flags,
                    flags,
                    clock,
                    machine::on(word@, LN_FLAGS_IN),
                ),
                out: machine::latch_step(
                    old(self)@.out,
                    data,
                    clock,
                    machine::on(word@, LN_OUT_SAVE),
                ),
                ..old(self)@
            }),
    {
        let bus = buses.data;
        self.clock_registers(word, &bus, clock, Ghost(data))?;
        self.clock_flags(word, buses.zero, buses.carry, buses.sign, clock, Ghost(flags))?;
        self.clock_output(word, &bus, clock, Ghost(data))
    }

    /// Propagate signals through the combinational and sequential parts of
    /// the machine for the given clock value.
    #[verifier::rlimit(60)]
    fn update_at(&mut self, clock: Bit) -> (r: Result<(), HardwareError>)
        requires
            old(self).wf(),
        ensures
            final(self).wf(),
            r == Ok::<(), HardwareError>(()),
            final(self)@ == machine::tick(old(self)@, clock),
    {
        let ghost m = self@;
        let word = self.control_lines(clock)?;
        let ghost address = machine::address_word(word@, m);
        let ghost data = machine::pulled(machine::bus_byte(word@, m));
        proof {
            machine::law_control_word_undisputed(m);
            old(self).lemma_bounds();
        }
        let buses = self.resolve(&word, clock)?;

        // Sequential clocking. Storage whose `save` input is Low holds its
        // state; the counters gate their own capture.
        self.clock_counters(&word, &buses, clock, Ghost(data), Ghost(address))?;
        self.clock_bytes(
            &word,
            &buses,
            clock,
            Ghost(data),
            Ghost(machine::alu_flags(word@, m)),
        )?;
        self.clock_halt(&word, clock)?;
        self.clock_sequencer(&word, clock, Ghost(m.t))?;
        proof {
            reveal(machine::tick_under);
        }
        Ok(())
    }
}

impl Default for Sap2 {
    fn default() -> (cpu: Sap2)
        ensures
            cpu.wf(),
            cpu@ == power_on(),
    {
        let mut cpu = Sap2 {
            pc: ProgramCounter16Bits::default(),
            sp: StackPointer16Bits::default(),
            mar: MemoryAddressRegister16Bits::default(),
            ret_lo: Register8Bits::default(),
            ret_hi: Register8Bits::default(),
            ir: Register8Bits::default(),
            acc: Register8Bits::default(),
            b: Register8Bits::default(),
            alu: AluSap2::default(),
            sign_detector: SignDetector8Bits::default(),
            flags: FlagsRegister::default(),
            ram: Ram64KBits::default(),
            sequencer: Sequencer::default(),
            decoder: InstructionDecoder::default(),
            control_unit: ControlUnit::default(),
            in_port: InputPort::default(),
            out_reg: OutputRegister::default(),
            halt_latch: SRLatch::default(),
            halt_and: AndGate::default(),
            push_and: AndGate::default(),
            push_not: NotGate::default(),
            sp_drive_or: OrGate::default(),
            mar_drive_and: AndGate::default(),
            pc_addr_nmos: [Nmos::default(); 16],
            sp_addr_nmos: [Nmos::default(); 16],
            mar_addr_nmos: [Nmos::default(); 16],
            ret_lo_nmos: [Nmos::default(); 8],
            ret_hi_nmos: [Nmos::default(); 8],
            acc_bus_nmos: [Nmos::default(); 8],
            input_value: int_to_bits(0),
            halted: false,
            clock_signal: Bit::Low,
        };
        proof {
            lemma_blank_rows();
            utils::law_byte_unpacked(0);
            assert(cpu@.memory =~= Seq::new(0x1_0000, |i: int| at_rest(0u8)));
        }
        cpu.preset_stack();
        cpu
    }
}

impl Sap2 {
    /// Park the stack at the top of memory: there is no instruction that
    /// loads the SP, so reset hardware presets it. Both halves capture
    /// 0xFF on a single Low-High clock pulse.
    fn preset_stack(&mut self)
        requires
            old(self).wf(),
        ensures
            final(self).wf(),
            final(self)@ == (Machine { sp: at_rest(0xFFFF), ..old(self)@ }),
    {
        let mut lines: Vec<Signal> = Vec::new();
        let ones = byte_wires(&int_to_bits(255));
        extend_lines(&mut lines, &ones);
        lines.push(Signal::Driven(Bit::Low));
        lines.push(Signal::Driven(Bit::Low));
        lines.push(Signal::Driven(Bit::Low));
        lines.push(Signal::Driven(Bit::High));
        lines.push(Signal::Driven(Bit::High));
        lines.push(Signal::Driven(Bit::Low));
        let mut unused = [Signal::HighImpedance; 16];
        proof {
            self.sp.lemma_width();
            utils::law_byte_unpacked(255);
            utils::law_word_packed(latches::slaves(self.sp@));
            assert(lines@.subrange(0, 8) =~= ones@);
            counters::law_sp16_next(self@.sp.stored, 255, false, false, true, true);
            assert(counters::sp16_word(self@.sp.stored, 255, false, false, true, true) == 0xFFFF);
            machine::lemma_word_step(self.sp@, 0xFFFF, Bit::Low);
        }
        let _ = self.sp.conduct_into(&lines, &mut unused);
        lines.set(8, Signal::Driven(Bit::High));
        proof {
            self.sp.lemma_width();
            utils::law_word_packed(latches::slaves(self.sp@));
            assert(lines@.subrange(0, 8) =~= ones@);
            counters::law_sp16_next(self@.sp.stored, 255, false, false, true, true);
            machine::lemma_word_step(self.sp@, 0xFFFF, Bit::High);
        }
        let _ = self.sp.conduct_into(&lines, &mut unused);
    }

    /// Becomes true once a HLT instruction has been executed.
    pub fn halted(&self) -> (halted: bool)
        ensures
            halted == self@.halted,
    {
        self.halted
    }

    /// The current value of the shared clock.
    pub fn clock(&self) -> (clock: Bit)
        ensures
            clock == self@.clock,
    {
        self.clock_signal
    }

    /// The accumulator content, least significant bit first.
    pub fn out(&self) -> (bits: [Bit; 8])
        requires
            self.wf(),
        ensures
            bits@ == utils::byte_bits(self@.acc.stored),
    {
        proof {
            self.acc.lemma_width();
            utils::law_byte_packed(latches::slaves(self.acc@));
        }
        self.acc.state()
    }

    /// The OUT display latch, least significant bit first.
    pub fn output(&self) -> (bits: [Bit; 8])
        requires
            self.wf(),
        ensures
            bits@ == utils::byte_bits(self@.out.stored),
    {
        proof {
            self.out_reg.lemma_width();
            utils::law_byte_packed(latches::slaves(self.out_reg@));
        }
        self.out_reg.state()
    }

    /// The stored flags as `(zero, carry, sign)`.
    pub fn flags(&self) -> (flags: (Bit, Bit, Bit))
        requires
            self.wf(),
        ensures
            flags.0 == hardware::bit_of(self@.flags.stored.zero),
            flags.1 == hardware::bit_of(self@.flags.stored.carry),
            flags.2 == hardware::bit_of(self@.flags.stored.sign),
    {
        let flags = self.flags.state();
        proof {
            self.flags.lemma_width();
            assert(latches::slaves(self.flags@)[0] == flags.0);
            assert(latches::slaves(self.flags@)[1] == flags.1);
            assert(latches::slaves(self.flags@)[2] == flags.2);
        }
        flags
    }

    /// The instruction currently stored in the instruction register.
    pub fn current_instruction(&self) -> (opcode: u8)
        requires
            self.wf(),
        ensures
            opcode == self@.ir.stored,
    {
        proof {
            self.ir.lemma_width();
            utils::law_byte_packed(latches::slaves(self.ir@));
        }
        bits_to_int(&self.ir.state(), false)
    }

    /// The 16-bit program counter value.
    pub fn pc_value(&self) -> (value: u16)
        requires
            self.wf(),
        ensures
            value == self@.pc.stored,
    {
        bits_to_word(&self.pc.state())
    }

    /// The 16-bit memory address register value.
    pub fn mar_value(&self) -> (value: u16)
        requires
            self.wf(),
        ensures
            value == self@.mar.stored,
    {
        bits_to_word(&self.mar.state())
    }

    /// The 16-bit stack pointer value, least significant bit first.
    pub fn sp_state(&self) -> (bits: [Bit; 16])
        requires
            self.wf(),
        ensures
            bits@ == utils::word_bits(self@.sp.stored),
    {
        proof {
            self.sp.lemma_width();
            utils::law_word_packed(latches::slaves(self.sp@));
        }
        self.sp.state()
    }

    /// The 4-bit T-state count, least significant bit first.
    pub fn t_state(&self) -> (bits: [Bit; 4])
        requires
            self.wf(),
        ensures
            bits@ == utils::value_bits(self@.t.stored, 4),
    {
        proof {
            self.sequencer.lemma_width();
            utils::lemma_value_of_bits(latches::slaves(self.sequencer@));
        }
        self.sequencer.state()
    }

    /// Set the physical input switches sampled by IN.
    pub fn set_input(&mut self, value: u8)
        requires
            old(self).wf(),
        ensures
            final(self).wf(),
            final(self)@ == (Machine { input: value, ..old(self)@ }),
    {
        proof {
            utils::law_byte_unpacked(value);
        }
        self.input_value = int_to_bits(value);
    }

    /// Toggle the shared clock and return the new value. A halted clock
    /// stays where it is.
    pub fn clock_tick(&mut self) -> (r: Result<Bit, HardwareError>)
        requires
            old(self).wf(),
        ensures
            final(self).wf(),
            final(self)@ == machine::pulse(old(self)@),
            r == Ok::<Bit, HardwareError>(final(self)@.clock),
    {
        if self.halted {
            return Ok(self.clock_signal);
        }
        self.clock_signal = match self.clock_signal {
            Bit::Low => Bit::High,
            Bit::High => Bit::Low,
        };
        let clock = self.clock_signal;
        self.update_at(clock)?;
        Ok(self.clock_signal)
    }

    /// Update the internal circuit state with the current clock.
    pub fn update(&mut self) -> (r: Result<(), HardwareError>)
        requires
            old(self).wf(),
        ensures
            final(self).wf(),
            final(self)@ == machine::tick(old(self)@, old(self)@.clock),
            r == Ok::<(), HardwareError>(()),
    {
        let clock = self.clock_signal;
        self.update_at(clock)
    }

    /// Advance the sequencer by one micro-state and execute it.
    pub fn micro_step(&mut self) -> (r: Result<(), HardwareError>)
        requires
            old(self).wf(),
        ensures
            final(self).wf(),
            final(self)@ == machine::micro_step(old(self)@),
            r == Ok::<(), HardwareError>(()),
    {
        if self.halted {
            return Ok(());
        }
        // A Low level preloads every storage component for the edge.
        if self.clock_signal == Bit::High {
            self.clock_tick()?;
        } else {
            self.update()?;
        }
        self.clock_tick()?;
        self.clock_tick()?;
        Ok(())
    }

    /// Whether the sequencer is at T0.
    fn fetching(&self) -> (r: bool)
        requires
            self.wf(),
        ensures
            r == (self@.t.stored == 0),
    {
        let t = self.t_state();
        proof {
            self.lemma_bounds();
            lemma_count_zero(self@.t.stored);
        }
        t[0] == Bit::Low && t[1] == Bit::Low && t[2] == Bit::Low && t[3] == Bit::Low
    }

    /// Advance execution until the next instruction fetch starts or the
    /// machine halts.
    pub fn step_instruction(&mut self) -> (r: Result<(), HardwareError>)
        requires
            old(self).wf(),
        ensures
            final(self).wf(),
            final(self)@ == machine::step(old(self)@),
            r == Ok::<(), HardwareError>(()),
    {
        if self.halted {
            proof {
                machine::law_halted_stands_still(self@, 0);
            }
            return Ok(());
        }
        self.micro_step()?;
        let ghost start = self@;
        let ghost mut fuel: nat = 15;
        proof {
            machine::lemma_micro_step_advances(old(self)@);
            self.lemma_bounds();
        }
        while !self.halted && !self.fetching()
            invariant
                self.wf(),
                self@.t.stored < 16,
                machine::until_fetch(self@, fuel) == machine::until_fetch(start, 15),
                !self@.halted && self@.t.stored != 0 ==> 16 - self@.t.stored <= fuel,
            decreases fuel,
        {
            proof {
                machine::lemma_micro_step_advances(self@);
                assert(fuel > 0);
                fuel = (fuel - 1) as nat;
            }
            self.micro_step()?;
            proof {
                self.lemma_bounds();
            }
        }
        Ok(())
    }

    /// Run instructions until halted or `max_steps` instructions have been
    /// stepped.
    pub fn run(&mut self, max_steps: usize) -> (r: Result<(), HardwareError>)
        requires
            old(self).wf(),
        ensures
            final(self).wf(),
            final(self)@ == machine::run(old(self)@, max_steps as nat),
            r == Ok::<(), HardwareError>(()),
    {
        let mut steps: usize = 0;
        while !self.halted && steps < max_steps
            invariant
                self.wf(),
                steps <= max_steps,
                machine::run(self@, (max_steps - steps) as nat) == machine::run(
                    old(self)@,
                    max_steps as nat,
                ),
            decreases max_steps - steps,
        {
            self.step_instruction()?;
            steps += 1;
        }
        Ok(())
    }

    /// Load a sequence of bytes into RAM starting at address 0; what does
    /// not fit is dropped.
    pub fn load_program(&mut self, program: &[u8]) -> (r: Result<(), HardwareError>)
        requires
            old(self).wf(),
        ensures
            final(self).wf(),
            r == Ok::<(), HardwareError>(()),
            final(self)@ == loaded(old(self)@, program@),
    {
        let count = if program.len() < 0x1_0000 {
            program.len()
        } else {
            0x1_0000
        };
        proof {
            self.lemma_bounds();
        }
        for address in 0..count
            invariant
                self.wf(),
                count <= program@.len(),
                count <= 0x1_0000,
                old(self)@.memory.len() == 0x1_0000,
                self@ == loaded(old(self)@, program@.take(address as int)),
        {
            let ghost before = self@.memory;
            let byte = int_to_bits(program[address]);
            self.ram.write_byte(address, byte)?;
            proof {
                lemma_settled_byte(program@[address as int]);
                assert(self@.memory =~= before.update(
                    address as int,
                    at_rest(program@[address as int]),
                ));
                assert(self@.memory =~= loaded(
                    old(self)@,
                    program@.take(address as int + 1),
                ).memory);
            }
        }
        assert(self@.memory =~= loaded(old(self)@, program@).memory);
        Ok(())
    }

    /// Number of transistors of the whole computer.
    pub open spec fn transistors() -> nat {
        ProgramCounter16Bits::transistors() + StackPointer16Bits::transistors()
            + MemoryAddressRegister16Bits::transistors() + 5 * Register8Bits::transistors()
            + AluSap2::transistors() + SignDetector8Bits::transistors()
            + FlagsRegister::transistors() + Ram64KBits::transistors() + Sequencer::transistors()
            + InstructionDecoder::transistors() + ControlUnit::transistors()
            + InputPort::transistors() + OutputRegister::transistors() + SRLatch::transistors()
            + 3 * AndGate::transistors() + OrGate::transistors() + NotGate::transistors() + 72
    }

    /// Total number of transistors, every sub-component included.
    pub fn transistor_count(&self) -> (count: usize)
        requires
            self.wf(),
        ensures
            count == Self::transistors(),
    {
        let mut address_rows: usize = 0;
        for index in 0..16
            invariant
                address_rows == 3 * index,
        {
            address_rows += self.pc_addr_nmos[index].transistor_count();
            address_rows += self.sp_addr_nmos[index].transistor_count();
            address_rows += self.mar_addr_nmos[index].transistor_count();
        }
        let mut data_rows: usize = 0;
        for index in 0..8
            invariant
                data_rows == 3 * index,
        {
            data_rows += self.ret_lo_nmos[index].transistor_count();
            data_rows += self.ret_hi_nmos[index].transistor_count();
            data_rows += self.acc_bus_nmos[index].transistor_count();
        }
        proof {
            control::lemma_gate_bound(29);
        }
        self.pc.transistor_count() + self.sp.transistor_count() + self.mar.transistor_count()
            + self.ret_lo.transistor_count() + self.ret_hi.transistor_count()
            + self.ir.transistor_count() + self.acc.transistor_count() + self.b.transistor_count()
            + self.alu.transistor_count() + self.sign_detector.transistor_count()
            + self.flags.transistor_count() + self.ram.transistor_count()
            + self.sequencer.transistor_count() + self.decoder.transistor_count()
            + self.control_unit.transistor_count() + self.in_port.transistor_count()
            + self.out_reg.transistor_count() + self.halt_latch.transistor_count()
            + self.halt_and.transistor_count() + self.push_and.transistor_count()
            + self.push_not.transistor_count() + self.sp_drive_or.transistor_count()
            + self.mar_drive_and.transistor_count() + address_rows + data_rows
    }
}

/// What the buses and the flag lines of the machine carry, pulled down.
struct Buses {
    data: [Signal; 8],
    address: [Signal; 16],
    zero: Signal,
    carry: Signal,
    sign: Signal,
}

impl Buses {
    /// Whether the lines carry what the machine puts on them under a
    /// control word.
    spec fn carries(&self, word: Seq<Bit>, m: Machine) -> bool {
        let flags = machine::alu_flags(word, m);
        &&& self.data@ == hardware::driven(
            utils::byte_bits(machine::pulled(machine::bus_byte(word, m))),
        )
        &&& self.address@ == hardware::driven(
            utils::word_bits(machine::address_word(word, m)),
        )
        &&& self.zero == Signal::Driven(hardware::bit_of(flags.zero))
        &&& self.carry == Signal::Driven(hardware::bit_of(flags.carry))
        &&& self.sign == Signal::Driven(hardware::bit_of(flags.sign))
    }
}

/// Rows that were never written hold zero.
proof fn lemma_blank_rows()
    ensures
        machine::latched_byte(memory::blank_row(8)) == at_rest(0u8),
        machine::latched_word(memory::blank_row(16)) == at_rest(0u16),
        machine::latched_count(memory::blank_row(4)) == at_rest(0nat),
        machine::latched_flags(memory::blank_row(3)) == at_rest(
            machine::Flags { zero: false, carry: false, sign: false },
        ),
{
    arithmetic::lemma_uniform_value(8);
    arithmetic::lemma_uniform_value(16);
    arithmetic::lemma_uniform_value(4);
    lemma_blank_levels(8);
    lemma_blank_levels(16);
    lemma_blank_levels(4);
    lemma_blank_levels(3);
}

/// The levels of a row that was never written are all Low.
proof fn lemma_blank_levels(count: nat)
    ensures
        memory::masters(memory::blank_row(count)) == Seq::new(count, |i: int| Bit::Low),
        latches::slaves(memory::blank_row(count)) == Seq::new(count, |i: int| Bit::Low),
{
    assert(memory::masters(memory::blank_row(count)) =~= Seq::new(count, |i: int| Bit::Low));
    assert(latches::slaves(memory::blank_row(count)) =~= Seq::new(count, |i: int| Bit::Low));
}

/// A count is zero exactly when its four bits are Low.
proof fn lemma_count_zero(count: nat)
    requires
        count < 16,
    ensures
        ({
            let bits = utils::value_bits(count, 4);
            &&& bits.len() == 4
            &&& (count == 0) == (bits[0] == Bit::Low && bits[1] == Bit::Low && bits[2] == Bit::Low
                && bits[3] == Bit::Low)
        }),
{
    reveal_with_fuel(utils::value_bits, 5);
}

/// A register that settled on the bits of a byte holds that byte.
proof fn lemma_settled_byte(byte: u8)
    ensures
        machine::latched_byte(crate::ram::settled(utils::byte_bits(byte))) == at_rest(byte),
{
    let bits = utils::byte_bits(byte);
    let row = crate::ram::settled(bits);
    utils::law_byte_unpacked(byte);
    assert(memory::masters(row) =~= bits);
    assert(latches::slaves(row) =~= bits);
}

/// The instruction of an opcode has a line of its own.
proof fn lemma_instruction_range(opcode: u8)
    ensures
        control::instruction_of(opcode) is Some ==> 0 <= control::instruction_of(opcode)->0 < 24,
{
}

/// The bytes of a word are the values of the halves of its bits.
proof fn lemma_word_bytes(bits: Seq<Bit>)
    requires
        bits.len() == 16,
    ensures
        utils::byte_of(bits.subrange(0, 8)) == utils::low_byte(utils::word_of(bits)),
        utils::byte_of(bits.subrange(8, 16)) == utils::high_byte(utils::word_of(bits)),
{
    let word = utils::word_of(bits);
    let low = bits.subrange(0, 8);
    let high = bits.subrange(8, 16);
    utils::law_word_packed(bits);
    utils::law_byte_packed(low);
    utils::law_byte_packed(high);
    utils::law_word_halves(utils::byte_of(low), utils::byte_of(high));
    assert(low + high =~= bits);
    utils::law_word_unpacked(utils::word_from(utils::byte_of(low), utils::byte_of(high)));
}

/// The sign bit of a byte is set from 128 on.
proof fn lemma_sign_bit(byte: u8)
    ensures
        utils::byte_bits(byte).len() == 8,
        utils::byte_bits(byte)[7] == hardware::bit_of(byte >= 128),
{
    utils::lemma_byte_bit(byte, 7);
    assert(((byte >> 7u8) & 1 == 1) == (byte >= 128)) by (bit_vector);
}

/// The machine at power-on: the SP points to the top of memory, and
/// everything else that a program sees is zero, clear and off.
pub proof fn law_power_on(address: int)
    requires
        0 <= address < 0x1_0000,
    ensures
        ({
            let start = isa::visible(power_on());
            &&& start.pc == 0 && start.sp == 65535
            &&& start.acc == 0 && start.b == 0 && start.out == 0 && start.input == 0
            &&& !start.flags.zero && !start.flags.carry && !start.flags.sign
            &&& start.memory.len() == 0x1_0000 && start.memory[address] == 0
            &&& !start.halted
            &&& power_on().t.stored == 0 && power_on().clock == Bit::Low
        }),
{
}

/// Loading a program puts its bytes into memory from address 0 on, as far as
/// they fit, keeps the bytes behind them, and changes nothing else. A byte
/// that was loaded is stored and preloaded, so that the next edge keeps it.
pub proof fn law_loading(machine: Machine, program: Seq<u8>, address: int)
    requires
        0 <= address < 0x1_0000,
        machine.memory.len() == 0x1_0000,
    ensures
        ({
            let after = loaded(machine, program);
            &&& after.memory.len() == 0x1_0000
            &&& address < program.len() ==> after.memory[address].stored == program[address]
                && after.memory[address].next == program[address]
            &&& address >= program.len() ==> after.memory[address] == machine.memory[address]
            &&& after == (Machine { memory: after.memory, ..machine })
        }),
{
}

/// A program starts at address 0 with a stack at the top of memory, with its
/// own bytes in memory and zeros behind them.
pub proof fn law_program_start(program: Seq<u8>, input: u8, address: int)
    requires
        0 <= address < 0x1_0000,
    ensures
        ({
            let start = program_start(program, input);
            &&& start.pc == 0 && start.sp == 65535
            &&& start.acc == 0 && start.b == 0 && start.out == 0
            &&& start.input == input
            &&& !start.flags.zero && !start.flags.carry && !start.flags.sign
            &&& start.memory.len() == 0x1_0000
            &&& address < program.len() ==> start.memory[address] == program[address]
            &&& address >= program.len() ==> start.memory[address] == 0
            &&& !start.halted
        }),
{
}

/// The numbers that the computer shows are those that a program sees.
pub proof fn law_readings(cpu: &Sap2, halted: bool, clock: Bit, opcode: u8, pc: u16, mar: u16)
    requires
        cpu.wf(),
        Sap2::halted.ensures((cpu,), halted),
        Sap2::clock.ensures((cpu,), clock),
        Sap2::current_instruction.ensures((cpu,), opcode),
        Sap2::pc_value.ensures((cpu,), pc),
        Sap2::mar_value.ensures((cpu,), mar),
    ensures
        halted == isa::visible(cpu@).halted,
        clock == cpu@.clock,
        opcode == cpu@.ir.stored,
        pc == isa::visible(cpu@).pc,
        mar == cpu@.mar.stored,
{
}

/// The rows of levels that the computer shows spell what a program sees,
/// least significant bit first.
pub proof fn law_rows_shown(
    cpu: &Sap2,
    acc: [Bit; 8],
    out: [Bit; 8],
    sp: [Bit; 16],
    t: [Bit; 4],
    flags: (Bit, Bit, Bit),
)
    requires
        cpu.wf(),
        Sap2::out.ensures((cpu,), acc),
        Sap2::output.ensures((cpu,), out),
        Sap2::sp_state.ensures((cpu,), sp),
        Sap2::t_state.ensures((cpu,), t),
        Sap2::flags.ensures((cpu,), flags),
    ensures
        utils::bits_value(acc@) == isa::visible(cpu@).acc,
        utils::bits_value(out@) == isa::visible(cpu@).out,
        utils::bits_value(sp@) == isa::visible(cpu@).sp,
        utils::bits_value(t@) == cpu@.t.stored,
        flags.0 == Bit::High <==> isa::visible(cpu@).flags.zero,
        flags.1 == Bit::High <==> isa::visible(cpu@).flags.carry,
        flags.2 == Bit::High <==> isa::visible(cpu@).flags.sign,
{
    utils::law_byte_unpacked(cpu@.acc.stored);
    utils::law_byte_unpacked(cpu@.out.stored);
    utils::law_word_unpacked(cpu@.sp.stored);
    cpu.lemma_bounds();
    vstd::arithmetic::power2::lemma2_to64();
    utils::lemma_bits_of_value(cpu@.t.stored, 4);
}

/// A new computer is at power-on.
pub proof fn law_starts_at_power_on(cpu: Sap2)
    requires
        Sap2::default.ensures((), cpu),
    ensures
        cpu.wf(),
        cpu@ == power_on(),
{
}

/// Setting the input switches changes what IN samples, and nothing else.
pub proof fn law_input_set(cpu: &mut Sap2, value: u8)
    requires
        Sap2::set_input.ensures((cpu, value), ()),
    ensures
        final(cpu)@ == (Machine { input: value, ..old(cpu)@ }),
{
}

/// Loading a program writes its bytes to memory from address 0 on, as far as
/// they fit, and a program sees no other change.
pub proof fn law_program_loaded(
    cpu: &mut Sap2,
    program: &[u8],
    r: Result<(), HardwareError>,
    address: int,
)
    requires
        old(cpu).wf(),
        Sap2::load_program.ensures((cpu, program), r),
        0 <= address < 0x1_0000,
    ensures
        r is Ok,
        ({
            let before = isa::visible(old(cpu)@);
            let after = isa::visible(final(cpu)@);
            &&& after == (Architecture { memory: after.memory, ..before })
            &&& after.memory.len() == 0x1_0000
            &&& after.memory[address] == if address < program@.len() {
                program@[address]
            } else {
                before.memory[address]
            }
        }),
{
    old(cpu).lemma_bounds();
}

/// One instruction step of a computer that stands before an instruction
/// executes that instruction and leaves it before the next one. A halted
/// computer stands still.
pub proof fn law_instruction_stepped(cpu: &mut Sap2, r: Result<(), HardwareError>)
    requires
        old(cpu).wf(),
        old(cpu)@.t.stored == 0,
        Sap2::step_instruction.ensures((cpu,), r),
    ensures
        r is Ok,
        !old(cpu)@.halted ==> isa::visible(final(cpu)@) == isa::execute(isa::visible(old(cpu)@)),
        old(cpu)@.halted ==> final(cpu)@ == old(cpu)@,
        final(cpu)@.t.stored == 0,
{
    old(cpu).lemma_bounds();
    if old(cpu)@.halted {
        machine::law_halted_stands_still(old(cpu)@, 0);
    } else {
        isa::law_step_executes(old(cpu)@);
    }
}

/// One micro-step of a running computer is one rising edge of its core, with
/// the control lines of the stored T-state. A halted computer stands still.
pub proof fn law_micro_stepped(cpu: &mut Sap2, r: Result<(), HardwareError>)
    requires
        old(cpu).wf(),
        Sap2::micro_step.ensures((cpu,), r),
    ensures
        r is Ok,
        !old(cpu)@.halted ==> isa::core_of(final(cpu)@) == isa::cycle(isa::core_of(old(cpu)@)),
        old(cpu)@.halted ==> final(cpu)@ == old(cpu)@,
{
    old(cpu).lemma_bounds();
    if old(cpu)@.halted {
        machine::law_halted_stands_still(old(cpu)@, 0);
    } else {
        isa::law_cycle(old(cpu)@);
    }
}

/// A tick of a running computer turns the clock over and tells its new
/// level; that of a halted one changes nothing.
pub proof fn law_clock_ticked(cpu: &mut Sap2, r: Result<Bit, HardwareError>)
    requires
        old(cpu).wf(),
        Sap2::clock_tick.ensures((cpu,), r),
    ensures
        r == Ok::<Bit, HardwareError>(final(cpu)@.clock),
        !old(cpu)@.halted ==> final(cpu)@.clock != old(cpu)@.clock,
        old(cpu)@.halted ==> final(cpu)@ == old(cpu)@,
{
    if !old(cpu)@.halted {
        machine::law_clock_alternates(old(cpu)@);
    }
}

/// A run of a computer that stands before an instruction executes as many
/// instructions as it is given steps, or fewer where one of them halts it.
pub proof fn law_run_performed(cpu: &mut Sap2, steps: usize, r: Result<(), HardwareError>)
    requires
        old(cpu).wf(),
        old(cpu)@.t.stored == 0,
        Sap2::run.ensures((cpu, steps), r),
    ensures
        r is Ok,
        isa::visible(final(cpu)@) == isa::execute_many(isa::visible(old(cpu)@), steps as nat),
        final(cpu)@.t.stored == 0,
{
    old(cpu).lemma_bounds();
    isa::law_run_executes(old(cpu)@, steps as nat);
}

/// The computer runs what it is given: a new computer, with its switches set
/// and a program loaded, executes the program from address 0 on.
pub proof fn law_computer_runs(
    cpu: Sap2,
    switched: &mut Sap2,
    input: u8,
    fed: &mut Sap2,
    program: &[u8],
    fed_result: Result<(), HardwareError>,
    running: &mut Sap2,
    steps: usize,
    run_result: Result<(), HardwareError>,
)
    requires
        Sap2::default.ensures((), cpu),
        *old(switched) == cpu,
        Sap2::set_input.ensures((switched, input), ()),
        *old(fed) == *final(switched),
        Sap2::load_program.ensures((fed, program), fed_result),
        *old(running) == *final(fed),
        Sap2::run.ensures((running, steps), run_result),
    ensures
        fed_result is Ok,
        run_result is Ok,
        isa::visible(final(running)@) == isa::execute_many(
            program_start(program@, input),
            steps as nat,
        ),
{
    law_program_runs(program@, input, steps as nat);
}

/// An update propagates the current level of the clock.
pub proof fn law_updated(cpu: &mut Sap2, r: Result<(), HardwareError>)
    requires
        old(cpu).wf(),
        Sap2::update.ensures((cpu,), r),
    ensures
        r is Ok,
        final(cpu)@ == machine::tick(old(cpu)@, old(cpu)@.clock),
        old(cpu)@.clock == Bit::Low ==> isa::core_of(final(cpu)@) == isa::core_of(old(cpu)@),
{
    old(cpu).lemma_bounds();
    if old(cpu)@.clock == Bit::Low {
        isa::law_low_level_prepares(old(cpu)@);
    }
}

/// An instruction step in the middle of an instruction finishes it: it ends
/// at T0 or in a halt, by as many micro-steps as that takes.
pub proof fn law_instruction_finished(cpu: &mut Sap2, r: Result<(), HardwareError>)
    requires
        old(cpu).wf(),
        !old(cpu)@.halted,
        Sap2::step_instruction.ensures((cpu,), r),
    ensures
        r is Ok,
        final(cpu)@.t.stored == 0 || final(cpu)@.halted,
        ({
            let next = machine::micro_step(old(cpu)@);
            final(cpu)@ == if next.t.stored == 0 || next.halted {
                next
            } else {
                machine::step(next)
            }
        }),
{
    old(cpu).lemma_bounds();
    machine::law_step_finishes(old(cpu)@);
}

} // verus!
