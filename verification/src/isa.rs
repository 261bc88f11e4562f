//! What whole instructions do.
//!
//! [`Core`] is the stored part of the machine, and [`cycle`] is one rising
//! clock edge on it. [`law_cycle`] shows that the machine, whose storage
//! works in two phases, steps exactly like that. [`execute`] is the
//! instruction set, and [`law_instruction`] shows that the micro-program of
//! every opcode performs it.

use vstd::prelude::*;

use crate::arithmetic;
use crate::control::{
    self, IN_ADD, IN_ANA, IN_CALL, IN_CMA, IN_DCRA, IN_HLT, IN_IN, IN_INRA, IN_JM, IN_JMP, IN_JNZ,
    IN_JZ, IN_LDA, IN_MVIA, IN_MVIB, IN_NOP, IN_ORA, IN_OUT, IN_POPA, IN_PSHA, IN_RET, IN_STA,
    IN_SUB, IN_XRA, LN_ACC_IN, LN_B_IN, LN_FLAGS_IN, LN_HALT, LN_IR_IN, LN_MAR_HI_IN, LN_MAR_IN,
    LN_MAR_LO_IN, LN_MEM_READ, LN_MEM_WRITE, LN_OUT_SAVE, LN_PC_COUNT, LN_PC_LOAD, LN_PC_SAVE_HI,
    LN_PC_SAVE_LO, LN_SEQ_RESET, LN_SP_COUNT_DOWN, LN_SP_COUNT_UP,
};
use crate::counters;
use crate::hardware::Bit;
use crate::machine::{self, Flags, Latched, Machine};
use crate::utils;

verus! {

/// The stored values of the machine.
#[verifier::ext_equal]
pub struct Core {
    pub pc: u16,
    pub sp: u16,
    pub mar: u16,
    pub ret_lo: u8,
    pub ret_hi: u8,
    pub ir: u8,
    pub acc: u8,
    pub b: u8,
    pub out: u8,
    pub flags: Flags,
    pub t: nat,
    pub memory: Seq<u8>,
    pub input: u8,
    pub halted: bool,
}

/// What is stored in a memory of clocked bytes.
pub open spec fn stored_bytes(cells: Seq<Latched<u8>>) -> Seq<u8> {
    Seq::new(cells.len(), |i: int| cells[i].stored)
}

/// The stored values of a machine.
pub open spec fn core_of(m: Machine) -> Core {
    Core {
        pc: m.pc.stored,
        sp: m.sp.stored,
        mar: m.mar.stored,
        ret_lo: m.ret_lo.stored,
        ret_hi: m.ret_hi.stored,
        ir: m.ir.stored,
        acc: m.acc.stored,
        b: m.b.stored,
        out: m.out.stored,
        flags: m.flags.stored,
        t: m.t.stored,
        memory: stored_bytes(m.memory),
        input: m.input,
        halted: m.halted,
    }
}

/// Whether a control line is on.
pub open spec fn line_on(core: Core, line: usize) -> bool {
    control::active(
        line as int,
        core.t as int,
        control::instruction_of(core.ir),
        core.flags.zero,
        core.flags.sign,
    )
}

/// Whether the stack is pushed: memory is written while the SP counts down.
pub open spec fn core_pushes(core: Core) -> bool {
    line_on(core, LN_SP_COUNT_DOWN) && line_on(core, LN_MEM_WRITE)
}

/// What the address bus carries.
pub open spec fn core_address(core: Core) -> u16 {
    if line_on(core, control::LN_PC_ENABLE) {
        core.pc
    } else if line_on(core, control::LN_SP_ENABLE) || core_pushes(core) {
        core.sp
    } else {
        core.mar
    }
}

/// The operation that the ALU is asked for.
pub open spec fn core_operation(core: Core) -> arithmetic::AluOperation {
    arithmetic::selected(
        crate::hardware::bit_of(line_on(core, control::LN_OP2)),
        crate::hardware::bit_of(line_on(core, control::LN_OP1)),
        crate::hardware::bit_of(line_on(core, control::LN_OP0)),
    )
}

/// What the drivers other than the RAM put on the data bus, pulled down.
pub open spec fn core_driven(core: Core) -> u8 {
    if line_on(core, control::LN_PC_OUT_LO) {
        core.ret_lo
    } else if line_on(core, control::LN_PC_OUT_HI) {
        core.ret_hi
    } else if line_on(core, control::LN_ACC_OUT) {
        core.acc
    } else if line_on(core, control::LN_ALU_OUT) {
        arithmetic::sap2_byte(core_operation(core), core.acc, core.b)
    } else if line_on(core, control::LN_IN_ENABLE) {
        core.input
    } else {
        0
    }
}

/// What a storage input reads from the data bus.
pub open spec fn core_data(core: Core) -> u8 {
    if line_on(core, LN_MEM_READ) {
        core.memory[core_address(core) as int]
    } else {
        core_driven(core)
    }
}

/// The flags that the ALU offers.
pub open spec fn core_flags(core: Core) -> Flags {
    let result = arithmetic::sap2_byte(core_operation(core), core.acc, core.b);
    Flags {
        zero: result == 0,
        carry: arithmetic::sap2_byte_carry(core_operation(core), core.acc, core.b),
        sign: line_on(core, control::LN_ALU_OUT) && result >= 128,
    }
}

/// One rising clock edge.
#[verifier::opaque]
pub open spec fn cycle(core: Core) -> Core {
    let address = core_address(core);
    let data = core_data(core);
    Core {
        pc: counters::pc16_word(
            core.pc,
            data,
            address,
            line_on(core, LN_PC_COUNT),
            line_on(core, LN_PC_LOAD),
            line_on(core, LN_PC_SAVE_LO),
            line_on(core, LN_PC_SAVE_HI),
        ),
        sp: counters::sp16_word(
            core.sp,
            data,
            line_on(core, LN_SP_COUNT_UP),
            line_on(core, LN_SP_COUNT_DOWN),
            false,
            false,
        ),
        mar: counters::mar16_word(
            core.mar,
            data,
            address,
            line_on(core, LN_MAR_LO_IN),
            line_on(core, LN_MAR_HI_IN),
            line_on(core, LN_MAR_IN),
        ),
        ret_lo: if line_on(core, LN_PC_LOAD) {
            utils::low_byte(core.pc)
        } else {
            core.ret_lo
        },
        ret_hi: if line_on(core, LN_PC_LOAD) {
            utils::high_byte(core.pc)
        } else {
            core.ret_hi
        },
        ir: if line_on(core, LN_IR_IN) {
            data
        } else {
            core.ir
        },
        acc: if line_on(core, LN_ACC_IN) {
            data
        } else {
            core.acc
        },
        b: if line_on(core, LN_B_IN) {
            data
        } else {
            core.b
        },
        out: if line_on(core, LN_OUT_SAVE) {
            data
        } else {
            core.out
        },
        flags: if line_on(core, LN_FLAGS_IN) {
            core_flags(core)
        } else {
            core.flags
        },
        t: if line_on(core, LN_SEQ_RESET) {
            0
        } else {
            (core.t + 1) % 16
        },
        memory: if line_on(core, LN_MEM_WRITE) {
            core.memory.update(address as int, core_driven(core))
        } else {
            core.memory
        },
        halted: core.halted || line_on(core, LN_HALT),
        ..core
    }
}

/// Whether a machine waits for a rising edge with everything preloaded:
/// the clock is Low, and another Low level changes nothing.
pub open spec fn ready(m: Machine) -> bool {
    &&& m.clock == Bit::Low
    &&& m.memory.len() == 0x1_0000
    &&& machine::tick(m, Bit::Low) == m
}

/// A Low level changes no stored value, and a second one changes nothing
/// more: it leaves the machine ready.
pub proof fn law_low_level_prepares(m: Machine)
    requires
        m.clock == Bit::Low,
        m.memory.len() == 0x1_0000,
    ensures
        core_of(machine::tick(m, Bit::Low)) == core_of(m),
        ready(machine::tick(m, Bit::Low)),
{
    reveal(machine::tick_under);
    let low = machine::tick(m, Bit::Low);
    assert(core_of(low).memory =~= core_of(m).memory);
    assert(machine::control_word(low) =~= machine::control_word(m));
    let word = machine::control_word(m);
    let address = machine::address_word(word, m);
    assert(low.memory[address as int].stored == m.memory[address as int].stored);
    let again = machine::tick(low, Bit::Low);
    assert(again.memory =~= low.memory);
}

/// The buses of a machine carry what its core says.
proof fn lemma_core_buses(m: Machine)
    requires
        m.memory.len() == 0x1_0000,
    ensures
        ({
            let word = machine::control_word(m);
            let core = core_of(m);
            &&& machine::address_word(word, m) == core_address(core)
            &&& machine::pulled(machine::driven_byte(word, m)) == core_driven(core)
            &&& machine::pulled(machine::bus_byte(word, m)) == core_data(core)
            &&& machine::alu_flags(word, m) == core_flags(core)
        }),
{
    let word = machine::control_word(m);
    let core = core_of(m);
    assert(machine::alu_operation(word) == core_operation(core));
}

/// The High level of a ready machine is one rising edge of its core.
proof fn lemma_high_level(m: Machine)
    requires
        ready(m),
    ensures
        core_of(machine::tick(m, Bit::High)) == cycle(core_of(m)),
        machine::tick(m, Bit::High).memory.len() == 0x1_0000,
{
    reveal(machine::tick_under);
    reveal(cycle);
    let word = machine::control_word(m);
    let low = machine::tick(m, Bit::Low);
    let high = machine::tick(m, Bit::High);
    let address = machine::address_word(word, m);
    lemma_core_buses(m);
    assert(m.memory[address as int] == low.memory[address as int]);
    assert(core_of(high).memory =~= cycle(core_of(m)).memory);
}

/// A ready machine goes through a rising edge of its core, and is ready
/// again where the edge does not halt it.
proof fn lemma_edge(m: Machine)
    requires
        ready(m),
        !m.halted,
    ensures
        ({
            let after = machine::pulse(machine::pulse(m));
            &&& core_of(after) == cycle(core_of(m))
            &&& after.halted || ready(after)
            &&& after.memory.len() == 0x1_0000
        }),
{
    let lifted = Machine { clock: Bit::High, ..m };
    let high = machine::pulse(m);
    assert(high == machine::tick(lifted, Bit::High));
    assert(machine::tick(lifted, Bit::High) == (Machine {
        clock: Bit::High,
        ..machine::tick(m, Bit::High)
    })) by {
        reveal(machine::tick_under);
    }
    lemma_high_level(m);
    assert(core_of(high) == cycle(core_of(m)));
    if !high.halted {
        law_low_level_prepares(Machine { clock: Bit::Low, ..high });
    }
}

/// A micro-step is one rising edge of the core, in every state of the
/// machine. A machine that the edge does not halt is ready for the next.
pub proof fn law_cycle(m: Machine)
    requires
        m.memory.len() == 0x1_0000,
        !m.halted,
    ensures
        core_of(machine::micro_step(m)) == cycle(core_of(m)),
        machine::micro_step(m).halted || ready(machine::micro_step(m)),
        machine::micro_step(m).memory.len() == 0x1_0000,
{
    let lowered = Machine { clock: Bit::Low, ..m };
    law_low_level_prepares(lowered);
    lemma_edge(machine::tick(lowered, Bit::Low));
}

/// Rising edges until the sequencer is back at T0 or the machine halts.
pub open spec fn cycles_until_fetch(core: Core, fuel: nat) -> Core
    decreases fuel,
{
    if fuel == 0 || core.halted || core.t == 0 {
        core
    } else {
        cycles_until_fetch(cycle(core), (fuel - 1) as nat)
    }
}

/// The rising edges of one instruction.
pub open spec fn core_step(core: Core) -> Core {
    cycles_until_fetch(cycle(core), 15)
}

/// The machine goes through the same rising edges as its core.
proof fn lemma_until_fetch(m: Machine, fuel: nat)
    requires
        m.memory.len() == 0x1_0000,
    ensures
        core_of(machine::until_fetch(m, fuel)) == cycles_until_fetch(core_of(m), fuel),
        machine::until_fetch(m, fuel).memory.len() == 0x1_0000,
    decreases fuel,
{
    if !(fuel == 0 || m.halted || m.t.stored == 0) {
        law_cycle(m);
        lemma_until_fetch(machine::micro_step(m), (fuel - 1) as nat);
    }
}

/// An instruction step of the machine is an instruction of its core.
pub proof fn law_step(m: Machine)
    requires
        m.memory.len() == 0x1_0000,
        !m.halted,
    ensures
        core_of(machine::step(m)) == core_step(core_of(m)),
        machine::step(m).memory.len() == 0x1_0000,
{
    law_cycle(m);
    lemma_until_fetch(machine::micro_step(m), 15);
}

/// What a program sees of the machine.
#[verifier::ext_equal]
pub struct Architecture {
    pub pc: u16,
    pub sp: u16,
    pub acc: u8,
    pub b: u8,
    pub out: u8,
    pub flags: Flags,
    pub memory: Seq<u8>,
    pub input: u8,
    pub halted: bool,
}

/// What a program sees of a core.
pub open spec fn architecture_of(core: Core) -> Architecture {
    Architecture {
        pc: core.pc,
        sp: core.sp,
        acc: core.acc,
        b: core.b,
        out: core.out,
        flags: core.flags,
        memory: core.memory,
        input: core.input,
        halted: core.halted,
    }
}

/// The address some bytes further on, around the end of memory.
pub open spec fn plus(address: u16, count: int) -> u16 {
    utils::wrapped_word(address + count)
}

/// The operation of an ALU instruction.
pub open spec fn operation_of(instr: int) -> arithmetic::AluOperation {
    if instr == IN_ADD {
        arithmetic::AluOperation::Add
    } else if instr == IN_SUB {
        arithmetic::AluOperation::Sub
    } else if instr == IN_ANA {
        arithmetic::AluOperation::And
    } else if instr == IN_ORA {
        arithmetic::AluOperation::Or
    } else if instr == IN_XRA {
        arithmetic::AluOperation::Xor
    } else if instr == IN_CMA {
        arithmetic::AluOperation::Not
    } else if instr == IN_INRA {
        arithmetic::AluOperation::Inc
    } else {
        arithmetic::AluOperation::Dec
    }
}

/// Whether a jump is taken.
pub open spec fn jump_taken(instr: int, flags: Flags) -> bool {
    ||| instr == IN_JMP
    ||| instr == IN_JZ && flags.zero
    ||| instr == IN_JNZ && !flags.zero
    ||| instr == IN_JM && flags.sign
}

/// The instruction set: what the instruction at the PC does.
///
/// A push writes at the stack pointer and then moves it down. A pop moves
/// the stack pointer up and then reads there. CALL pushes the low byte of
/// the address behind it, then the high byte, and jumps. RET pops the high
/// byte of the PC, then its low byte.
pub open spec fn execute(a: Architecture) -> Architecture {
    let opcode = a.memory[a.pc as int];
    let first = a.memory[plus(a.pc, 1) as int];
    let target = utils::word_from(first, a.memory[plus(a.pc, 2) as int]);
    match control::instruction_of(opcode) {
        None => Architecture { pc: plus(a.pc, 1), ..a },
        Some(instr) => if instr == IN_NOP {
            Architecture { pc: plus(a.pc, 1), ..a }
        } else if instr == IN_LDA {
            Architecture { pc: plus(a.pc, 3), acc: a.memory[target as int], ..a }
        } else if instr == IN_STA {
            Architecture { pc: plus(a.pc, 3), memory: a.memory.update(target as int, a.acc), ..a }
        } else if instr == IN_MVIA {
            Architecture { pc: plus(a.pc, 2), acc: first, ..a }
        } else if instr == IN_MVIB {
            Architecture { pc: plus(a.pc, 2), b: first, ..a }
        } else if IN_ADD <= instr <= IN_DCRA {
            let result = arithmetic::sap2_byte(operation_of(instr), a.acc, a.b);
            Architecture {
                pc: plus(a.pc, 1),
                acc: result,
                flags: if instr == IN_CMA {
                    a.flags
                } else {
                    Flags {
                        zero: result == 0,
                        carry: arithmetic::sap2_byte_carry(operation_of(instr), a.acc, a.b),
                        sign: result >= 128,
                    }
                },
                ..a
            }
        } else if instr == IN_IN {
            Architecture { pc: plus(a.pc, 1), acc: a.input, ..a }
        } else if instr == IN_OUT {
            Architecture { pc: plus(a.pc, 1), out: a.acc, ..a }
        } else if IN_JMP <= instr <= IN_JM {
            Architecture {
                pc: if jump_taken(instr, a.flags) {
                    target
                } else {
                    plus(a.pc, 3)
                },
                ..a
            }
        } else if instr == IN_CALL {
            let back = plus(a.pc, 3);
            Architecture {
                pc: target,
                sp: plus(a.sp, -2),
                memory: a.memory.update(a.sp as int, utils::low_byte(back)).update(
                    plus(a.sp, -1) as int,
                    utils::high_byte(back),
                ),
                ..a
            }
        } else if instr == IN_RET {
            Architecture {
                pc: utils::word_from(
                    a.memory[plus(a.sp, 2) as int],
                    a.memory[plus(a.sp, 1) as int],
                ),
                sp: plus(a.sp, 2),
                ..a
            }
        } else if instr == IN_PSHA {
            Architecture {
                pc: plus(a.pc, 1),
                sp: plus(a.sp, -1),
                memory: a.memory.update(a.sp as int, a.acc),
                ..a
            }
        } else if instr == IN_POPA {
            Architecture {
                pc: plus(a.pc, 1),
                sp: plus(a.sp, 1),
                acc: a.memory[plus(a.sp, 1) as int],
                ..a
            }
        } else {
            Architecture { pc: plus(a.pc, 1), halted: true, ..a }
        },
    }
}

/// A pop undoes a push: after PSHA and POPA the accumulator and the stack
/// pointer are what they were, and memory holds the byte that was pushed.
pub proof fn law_push_pop(a: Architecture)
    requires
        a.memory.len() == 0x1_0000,
        control::instruction_of(a.memory[a.pc as int]) == Some(IN_PSHA as int),
        control::instruction_of(a.memory[plus(a.pc, 1) as int]) == Some(IN_POPA as int),
        a.sp != plus(a.pc, 1),
    ensures
        execute(execute(a)) == (Architecture {
            pc: plus(a.pc, 2),
            memory: a.memory.update(a.sp as int, a.acc),
            ..a
        }),
{
    lemma_plus(a.pc);
    assert(plus(plus(a.sp, -1), 1) == a.sp);
}

/// A pop gives back what was pushed, whatever happened in between: it takes
/// only that the stack pointer is where the push left it and that nobody
/// wrote to the slot.
pub proof fn law_pop_returns_push(before: Architecture, later: Architecture)
    requires
        before.memory.len() == 0x1_0000,
        control::instruction_of(before.memory[before.pc as int]) == Some(IN_PSHA as int),
        control::instruction_of(later.memory[later.pc as int]) == Some(IN_POPA as int),
        later.sp == execute(before).sp,
        later.memory[before.sp as int] == execute(before).memory[before.sp as int],
    ensures
        execute(later).acc == before.acc,
        execute(later).sp == before.sp,
{
    assert(plus(plus(before.sp, -1), 1) == before.sp);
}

/// A return undoes a call: after CALL and a RET at its target the PC is
/// behind the CALL, the stack pointer is back, and the two stack slots hold
/// the address that was pushed.
pub proof fn law_call_return(a: Architecture)
    requires
        a.memory.len() == 0x1_0000,
        control::instruction_of(a.memory[a.pc as int]) == Some(IN_CALL as int),
        ({
            let target = utils::word_from(
                a.memory[plus(a.pc, 1) as int],
                a.memory[plus(a.pc, 2) as int],
            );
            &&& control::instruction_of(a.memory[target as int]) == Some(IN_RET as int)
            &&& target != a.sp
            &&& target != plus(a.sp, -1)
        }),
    ensures
        ({
            let back = plus(a.pc, 3);
            execute(execute(a)) == (Architecture {
                pc: back,
                memory: a.memory.update(a.sp as int, utils::low_byte(back)).update(
                    plus(a.sp, -1) as int,
                    utils::high_byte(back),
                ),
                ..a
            })
        }),
{
    let back = plus(a.pc, 3);
    assert(plus(plus(a.sp, -2), 1) == plus(a.sp, -1));
    assert(plus(plus(a.sp, -2), 2) == a.sp);
    assert(plus(a.sp, -1) != a.sp);
    utils::law_word_split(back);
}

/// A subroutine comes back to its caller, whatever it did: it takes only
/// that the stack pointer is where the call left it and that nobody wrote to
/// the two slots.
pub proof fn law_return_follows_call(before: Architecture, later: Architecture)
    requires
        before.memory.len() == 0x1_0000,
        control::instruction_of(before.memory[before.pc as int]) == Some(IN_CALL as int),
        control::instruction_of(later.memory[later.pc as int]) == Some(IN_RET as int),
        later.sp == execute(before).sp,
        ({
            let low = before.sp as int;
            let high = plus(before.sp, -1) as int;
            &&& later.memory[low] == execute(before).memory[low]
            &&& later.memory[high] == execute(before).memory[high]
        }),
    ensures
        execute(later).pc == plus(before.pc, 3),
        execute(later).sp == before.sp,
{
    let back = plus(before.pc, 3);
    assert(plus(plus(before.sp, -2), 1) == plus(before.sp, -1));
    assert(plus(plus(before.sp, -2), 2) == before.sp);
    assert(plus(before.sp, -1) != before.sp);
    utils::law_word_split(back);
}

/// Words that no half replaces: the counters and the address bus of a
/// core, and what the counters count to.
proof fn lemma_unmixed(c: Core)
    ensures
        ({
            let data = core_data(c);
            &&& counters::word_mixed(c.pc, data, false, false) == c.pc
            &&& counters::word_mixed(c.sp, data, false, false) == c.sp
            &&& counters::word_mixed(c.mar, data, false, false) == c.mar
            &&& counters::word_mixed(core_address(c), data, false, false) == core_address(c)
            &&& counters::word_mixed(plus(c.pc, 1), data, false, false) == plus(c.pc, 1)
            &&& counters::word_mixed(plus(c.sp, 1), data, false, false) == plus(c.sp, 1)
            &&& counters::word_mixed(plus(c.sp, -1), data, false, false) == plus(c.sp, -1)
        }),
{
    let data = core_data(c);
    counters::lemma_unmixed(c.pc, data);
    counters::lemma_unmixed(c.sp, data);
    counters::lemma_unmixed(c.mar, data);
    counters::lemma_unmixed(core_address(c), data);
    counters::lemma_unmixed(plus(c.pc, 1), data);
    counters::lemma_unmixed(plus(c.sp, 1), data);
    counters::lemma_unmixed(plus(c.sp, -1), data);
}

/// Steps that add up, around the end of memory.
proof fn lemma_plus(word: u16)
    ensures
        plus(plus(word, 1), 1) == plus(word, 2),
        plus(plus(word, 2), 1) == plus(word, 3),
        plus(plus(word, 1), 2) == plus(word, 3),
        plus(plus(word, -1), -1) == plus(word, -2),
{
}

/// T0: the MAR takes the PC, and the PC counts.
proof fn lemma_t0(c: Core)
    requires
        c.t == 0,
    ensures
        cycle(c) == (Core { pc: plus(c.pc, 1), mar: c.pc, t: 1, ..c }),
{
    reveal(cycle);
    lemma_unmixed(c);
}

/// T1: the IR takes the opcode.
proof fn lemma_t1(c: Core)
    requires
        c.t == 1,
    ensures
        cycle(c) == (Core { ir: c.memory[c.mar as int], t: 2, ..c }),
{
    reveal(cycle);
    lemma_unmixed(c);
}

/// T2 of an instruction with an operand: the MAR takes the PC, and the PC counts.
proof fn lemma_operand_address(c: Core)
    requires
        c.t == 2,
        control::instruction_of(c.ir) is Some,
        control::has_operand(control::instruction_of(c.ir)->0),
    ensures
        cycle(c) == (Core { pc: plus(c.pc, 1), mar: c.pc, t: 3, ..c }),
{
    reveal(cycle);
    lemma_unmixed(c);
}

/// T3 of an instruction with an address: the MAR takes its low byte.
proof fn lemma_low_operand(c: Core)
    requires
        c.t == 3,
        control::instruction_of(c.ir) is Some,
        control::has_address(control::instruction_of(c.ir)->0),
    ensures
        cycle(c) == (Core {
            mar: utils::word_from(c.memory[c.mar as int], utils::high_byte(c.mar)),
            t: 4,
            ..c
        }),
{
    reveal(cycle);
    lemma_unmixed(c);
}

/// A cycle in which no control line but the MAR's own is on.
proof fn lemma_quiet(c: Core)
    requires
        2 <= c.t < 16,
        match control::instruction_of(c.ir) {
            None => true,
            Some(instr) => {
                ||| c.t == 4 && control::has_address(instr)
                ||| c.t >= 6 && IN_JZ <= instr <= IN_JM && !jump_taken(instr, c.flags)
            },
        },
    ensures
        cycle(c) == (Core { t: (c.t + 1) % 16, ..c }),
{
    reveal(cycle);
    lemma_unmixed(c);
}

/// T5 of an instruction with an address: the MAR takes its high byte, and the
/// PC counts.
proof fn lemma_high_operand(c: Core)
    requires
        c.t == 5,
        control::instruction_of(c.ir) is Some,
        control::has_address(control::instruction_of(c.ir)->0),
    ensures
        cycle(c) == (Core {
            pc: plus(c.pc, 1),
            mar: utils::word_from(utils::low_byte(c.mar), c.memory[c.pc as int]),
            t: 6,
            ..c
        }),
{
    reveal(cycle);
    lemma_unmixed(c);
}

/// T2 of NOP.
proof fn lemma_nop(c: Core)
    requires
        c.t == 2,
        control::instruction_of(c.ir) == Some(IN_NOP as int),
    ensures
        cycle(c) == (Core { t: 0, ..c }),
{
    reveal(cycle);
    lemma_unmixed(c);
}

/// T2 of HLT.
proof fn lemma_hlt(c: Core)
    requires
        c.t == 2,
        control::instruction_of(c.ir) == Some(IN_HLT as int),
    ensures
        cycle(c) == (Core { halted: true, t: 0, ..c }),
{
    reveal(cycle);
    lemma_unmixed(c);
}

/// T2 of IN.
proof fn lemma_in(c: Core)
    requires
        c.t == 2,
        control::instruction_of(c.ir) == Some(IN_IN as int),
    ensures
        cycle(c) == (Core { acc: c.input, t: 0, ..c }),
{
    reveal(cycle);
    lemma_unmixed(c);
}

/// T2 of OUT.
proof fn lemma_out(c: Core)
    requires
        c.t == 2,
        control::instruction_of(c.ir) == Some(IN_OUT as int),
    ensures
        cycle(c) == (Core { out: c.acc, t: 0, ..c }),
{
    reveal(cycle);
    lemma_unmixed(c);
}

/// T3 of MVIA.
proof fn lemma_mvia(c: Core)
    requires
        c.t == 3,
        control::instruction_of(c.ir) == Some(IN_MVIA as int),
    ensures
        cycle(c) == (Core { acc: c.memory[c.mar as int], t: 0, ..c }),
{
    reveal(cycle);
    lemma_unmixed(c);
}

/// T3 of MVIB.
proof fn lemma_mvib(c: Core)
    requires
        c.t == 3,
        control::instruction_of(c.ir) == Some(IN_MVIB as int),
    ensures
        cycle(c) == (Core { b: c.memory[c.mar as int], t: 0, ..c }),
{
    reveal(cycle);
    lemma_unmixed(c);
}

/// T6 of LDA.
proof fn lemma_lda(c: Core)
    requires
        c.t == 6,
        control::instruction_of(c.ir) == Some(IN_LDA as int),
    ensures
        cycle(c) == (Core { acc: c.memory[c.mar as int], t: 0, ..c }),
{
    reveal(cycle);
    lemma_unmixed(c);
}

/// T6 of STA.
proof fn lemma_sta(c: Core)
    requires
        c.t == 6,
        control::instruction_of(c.ir) == Some(IN_STA as int),
    ensures
        cycle(c) == (Core { memory: c.memory.update(c.mar as int, c.acc), t: 0, ..c }),
{
    reveal(cycle);
    lemma_unmixed(c);
}

/// T6 of CALL: the PC takes the target, and the address behind the CALL is
/// kept.
proof fn lemma_call_6(c: Core)
    requires
        c.t == 6,
        control::instruction_of(c.ir) == Some(IN_CALL as int),
    ensures
        cycle(c) == (Core {
            pc: c.mar,
            ret_lo: utils::low_byte(c.pc),
            ret_hi: utils::high_byte(c.pc),
            t: 7,
            ..c
        }),
{
    reveal(cycle);
    lemma_unmixed(c);
}

/// T7 of CALL: the MAR takes the SP.
proof fn lemma_call_7(c: Core)
    requires
        c.t == 7,
        control::instruction_of(c.ir) == Some(IN_CALL as int),
    ensures
        cycle(c) == (Core { mar: c.sp, t: 8, ..c }),
{
    reveal(cycle);
    lemma_unmixed(c);
}

/// T8 of CALL: the low byte of the return address is pushed.
proof fn lemma_call_8(c: Core)
    requires
        c.t == 8,
        control::instruction_of(c.ir) == Some(IN_CALL as int),
    ensures
        cycle(c) == (Core {
            memory: c.memory.update(c.sp as int, c.ret_lo),
            sp: plus(c.sp, -1),
            t: 9,
            ..c
        }),
{
    reveal(cycle);
    lemma_unmixed(c);
}

/// T9 of CALL: the high byte of the return address is pushed.
proof fn lemma_call_9(c: Core)
    requires
        c.t == 9,
        control::instruction_of(c.ir) == Some(IN_CALL as int),
    ensures
        cycle(c) == (Core {
            memory: c.memory.update(c.sp as int, c.ret_hi),
            sp: plus(c.sp, -1),
            t: 0,
            ..c
        }),
{
    reveal(cycle);
    lemma_unmixed(c);
}

/// T2 of PSHA: the MAR takes the SP.
proof fn lemma_psha_2(c: Core)
    requires
        c.t == 2,
        control::instruction_of(c.ir) == Some(IN_PSHA as int),
    ensures
        cycle(c) == (Core { mar: c.sp, t: 3, ..c }),
{
    reveal(cycle);
    lemma_unmixed(c);
}

/// T3 of PSHA: the accumulator is written, and the SP moves down.
proof fn lemma_psha_3(c: Core)
    requires
        c.t == 3,
        control::instruction_of(c.ir) == Some(IN_PSHA as int),
    ensures
        cycle(c) == (Core {
            memory: c.memory.update(c.sp as int, c.acc),
            sp: plus(c.sp, -1),
            t: 0,
            ..c
        }),
{
    reveal(cycle);
    lemma_unmixed(c);
}

/// T2 of an instruction that pops: the SP moves up.
proof fn lemma_pop_2(c: Core)
    requires
        c.t == 2,
        control::instruction_of(c.ir) == Some(IN_POPA as int) || control::instruction_of(c.ir)
            == Some(IN_RET as int),
    ensures
        cycle(c) == (Core { sp: plus(c.sp, 1), t: 3, ..c }),
{
    reveal(cycle);
    lemma_unmixed(c);
}

/// T3 of POPA: the MAR takes the SP.
proof fn lemma_popa_3(c: Core)
    requires
        c.t == 3,
        control::instruction_of(c.ir) == Some(IN_POPA as int),
    ensures
        cycle(c) == (Core { mar: c.sp, t: 4, ..c }),
{
    reveal(cycle);
    lemma_unmixed(c);
}

/// T4 of POPA: the accumulator takes the byte.
proof fn lemma_popa_4(c: Core)
    requires
        c.t == 4,
        control::instruction_of(c.ir) == Some(IN_POPA as int),
    ensures
        cycle(c) == (Core { acc: c.memory[c.mar as int], t: 0, ..c }),
{
    reveal(cycle);
    lemma_unmixed(c);
}

/// T3 of RET: the MAR takes the SP, and the SP moves up.
proof fn lemma_ret_3(c: Core)
    requires
        c.t == 3,
        control::instruction_of(c.ir) == Some(IN_RET as int),
    ensures
        cycle(c) == (Core { mar: c.sp, sp: plus(c.sp, 1), t: 4, ..c }),
{
    reveal(cycle);
    lemma_unmixed(c);
}

/// T4 of RET: the PC takes its high byte.
proof fn lemma_ret_4(c: Core)
    requires
        c.t == 4,
        control::instruction_of(c.ir) == Some(IN_RET as int),
    ensures
        cycle(c) == (Core {
            pc: utils::word_from(utils::low_byte(c.pc), c.memory[c.mar as int]),
            t: 5,
            ..c
        }),
{
    reveal(cycle);
    lemma_unmixed(c);
}

/// T5 of RET: the MAR takes the SP.
proof fn lemma_ret_5(c: Core)
    requires
        c.t == 5,
        control::instruction_of(c.ir) == Some(IN_RET as int),
    ensures
        cycle(c) == (Core { mar: c.sp, t: 6, ..c }),
{
    reveal(cycle);
    lemma_unmixed(c);
}

/// T6 of RET: the PC takes its low byte.
proof fn lemma_ret_6(c: Core)
    requires
        c.t == 6,
        control::instruction_of(c.ir) == Some(IN_RET as int),
    ensures
        cycle(c) == (Core {
            pc: utils::word_from(c.memory[c.mar as int], utils::high_byte(c.pc)),
            t: 0,
            ..c
        }),
{
    reveal(cycle);
    lemma_unmixed(c);
}

/// T6 of a jump that is taken.
proof fn lemma_jump(c: Core)
    requires
        c.t == 6,
        control::instruction_of(c.ir) is Some,
        IN_JMP <= control::instruction_of(c.ir)->0 <= IN_JM,
        jump_taken(control::instruction_of(c.ir)->0, c.flags),
    ensures
        cycle(c) == (Core {
            pc: c.mar,
            ret_lo: utils::low_byte(c.pc),
            ret_hi: utils::high_byte(c.pc),
            t: 0,
            ..c
        }),
{
    reveal(cycle);
    lemma_unmixed(c);
}

/// T2 of an ALU instruction.
proof fn lemma_alu(c: Core)
    requires
        c.t == 2,
        control::instruction_of(c.ir) is Some,
        IN_ADD <= control::instruction_of(c.ir)->0 <= IN_DCRA,
    ensures
        ({
            let instr = control::instruction_of(c.ir)->0;
            let result = arithmetic::sap2_byte(operation_of(instr), c.acc, c.b);
            cycle(c) == (Core {
                acc: result,
                flags: if instr == IN_CMA {
                    c.flags
                } else {
                    Flags {
                        zero: result == 0,
                        carry: arithmetic::sap2_byte_carry(operation_of(instr), c.acc, c.b),
                        sign: result >= 128,
                    }
                },
                t: 0,
                ..c
            })
        }),
{
    reveal(cycle);
    lemma_unmixed(c);
    assert(core_operation(c) == operation_of(control::instruction_of(c.ir)->0));
}

/// T2 to T5 of an instruction with an address: the MAR ends up with the
/// address, the PC behind it.
proof fn lemma_address_operands(c: Core, fuel: nat)
    requires
        c.t == 2,
        !c.halted,
        control::instruction_of(c.ir) is Some,
        control::has_address(control::instruction_of(c.ir)->0),
        fuel >= 4,
    ensures
        ({
            let target = utils::word_from(
                c.memory[c.pc as int],
                c.memory[plus(c.pc, 1) as int],
            );
            cycles_until_fetch(c, fuel) == cycles_until_fetch(
                Core { pc: plus(c.pc, 2), mar: target, t: 6, ..c },
                (fuel - 4) as nat,
            )
        }),
{
    lemma_operand_address(c);
    let c3 = cycle(c);
    lemma_low_operand(c3);
    let c4 = cycle(c3);
    lemma_quiet(c4);
    let c5 = cycle(c4);
    lemma_high_operand(c5);
    let c6 = cycle(c5);
    lemma_plus(c.pc);
    utils::law_word_halves(c.memory[c.pc as int], utils::high_byte(c3.mar));
    assert(cycles_until_fetch(c, fuel) == cycles_until_fetch(c3, (fuel - 1) as nat));
    assert(cycles_until_fetch(c3, (fuel - 1) as nat) == cycles_until_fetch(
        c4,
        (fuel - 2) as nat,
    ));
    assert(cycles_until_fetch(c4, (fuel - 2) as nat) == cycles_until_fetch(
        c5,
        (fuel - 3) as nat,
    ));
    assert(cycles_until_fetch(c5, (fuel - 3) as nat) == cycles_until_fetch(
        c6,
        (fuel - 4) as nat,
    ));
}

/// The remaining T-states of an instruction that has nothing left to do.
proof fn lemma_quiet_run(c: Core)
    requires
        2 <= c.t < 16,
        !c.halted,
        match control::instruction_of(c.ir) {
            None => true,
            Some(instr) => c.t >= 6 && IN_JZ <= instr <= IN_JM && !jump_taken(instr, c.flags),
        },
    ensures
        cycles_until_fetch(c, (16 - c.t) as nat) == (Core { t: 0, ..c }),
    decreases 16 - c.t,
{
    lemma_quiet(c);
    if c.t == 15 {
        assert(cycles_until_fetch(cycle(c), 0) == cycle(c));
    } else {
        lemma_quiet_run(cycle(c));
    }
}

/// T2 and on of an instruction without an address.
proof fn lemma_short(c: Core)
    requires
        c.t == 2,
        !c.halted,
        control::instruction_of(c.ir) is Some,
        !control::has_address(control::instruction_of(c.ir)->0),
        0 <= control::instruction_of(c.ir)->0 < 24,
        c.memory[plus(c.pc, -1) as int] == c.ir,
    ensures
        ({
            let before = architecture_of(Core { pc: plus(c.pc, -1), ..c });
            let after = cycles_until_fetch(c, 13);
            &&& architecture_of(after) == execute(before)
            &&& after.t == 0
        }),
{
    let instr = control::instruction_of(c.ir)->0;
    assert(plus(plus(c.pc, -1), 1) == c.pc);
    assert(plus(plus(c.pc, -1), 2) == plus(c.pc, 1));
    let next = cycle(c);
    assert(cycles_until_fetch(c, 13) == cycles_until_fetch(next, 12));
    if instr == IN_NOP {
        lemma_nop(c);
    } else if instr == IN_HLT {
        lemma_hlt(c);
    } else if instr == IN_IN {
        lemma_in(c);
    } else if instr == IN_OUT {
        lemma_out(c);
    } else if IN_ADD <= instr <= IN_DCRA {
        lemma_alu(c);
    } else if instr == IN_MVIA {
        lemma_operand_address(c);
        lemma_mvia(next);
        assert(cycles_until_fetch(next, 12) == cycles_until_fetch(cycle(next), 11));
    } else if instr == IN_MVIB {
        lemma_operand_address(c);
        lemma_mvib(next);
        assert(cycles_until_fetch(next, 12) == cycles_until_fetch(cycle(next), 11));
    } else if instr == IN_PSHA {
        lemma_psha_2(c);
        lemma_psha_3(next);
        assert(cycles_until_fetch(next, 12) == cycles_until_fetch(cycle(next), 11));
    } else if instr == IN_POPA {
        lemma_pop_2(c);
        lemma_popa_3(next);
        let c4 = cycle(next);
        lemma_popa_4(c4);
        assert(cycles_until_fetch(next, 12) == cycles_until_fetch(c4, 11));
        assert(cycles_until_fetch(c4, 11) == cycles_until_fetch(cycle(c4), 10));
    } else {
        assert(instr == IN_RET);
        lemma_pop_2(c);
        lemma_ret_3(next);
        let c4 = cycle(next);
        lemma_ret_4(c4);
        let c5 = cycle(c4);
        lemma_ret_5(c5);
        let c6 = cycle(c5);
        lemma_ret_6(c6);
        lemma_plus(c.sp);
        utils::law_word_halves(utils::low_byte(c.pc), c.memory[plus(c.sp, 1) as int]);
        assert(cycles_until_fetch(next, 12) == cycles_until_fetch(c4, 11));
        assert(cycles_until_fetch(c4, 11) == cycles_until_fetch(c5, 10));
        assert(cycles_until_fetch(c5, 10) == cycles_until_fetch(c6, 9));
        assert(cycles_until_fetch(c6, 9) == cycles_until_fetch(cycle(c6), 8));
    }
}

/// T2 and on of an instruction with an address.
proof fn lemma_long(c: Core)
    requires
        c.t == 2,
        !c.halted,
        control::instruction_of(c.ir) is Some,
        control::has_address(control::instruction_of(c.ir)->0),
        c.memory.len() == 0x1_0000,
        c.memory[plus(c.pc, -1) as int] == c.ir,
    ensures
        ({
            let before = architecture_of(Core { pc: plus(c.pc, -1), ..c });
            let after = cycles_until_fetch(c, 14);
            &&& architecture_of(after) == execute(before)
            &&& after.t == 0
        }),
{
    let instr = control::instruction_of(c.ir)->0;
    assert(plus(plus(c.pc, -1), 1) == c.pc);
    assert(plus(plus(c.pc, -1), 2) == plus(c.pc, 1));
    assert(plus(plus(c.pc, -1), 3) == plus(c.pc, 2));
    let target = utils::word_from(c.memory[c.pc as int], c.memory[plus(c.pc, 1) as int]);
    lemma_address_operands(c, 14);
    let c6 = Core { pc: plus(c.pc, 2), mar: target, t: 6, ..c };
    if instr == IN_LDA {
        lemma_lda(c6);
    } else if instr == IN_STA {
        lemma_sta(c6);
    } else if instr == IN_CALL {
        lemma_call_6(c6);
        let c7 = cycle(c6);
        lemma_call_7(c7);
        let c8 = cycle(c7);
        lemma_call_8(c8);
        let c9 = cycle(c8);
        lemma_call_9(c9);
        lemma_plus(c.sp);
        assert(cycles_until_fetch(c6, 10) == cycles_until_fetch(c7, 9));
        assert(cycles_until_fetch(c7, 9) == cycles_until_fetch(c8, 8));
        assert(cycles_until_fetch(c8, 8) == cycles_until_fetch(c9, 7));
        assert(cycles_until_fetch(c9, 7) == cycles_until_fetch(cycle(c9), 6));
    } else if jump_taken(instr, c.flags) {
        lemma_jump(c6);
    } else {
        lemma_quiet_run(c6);
    }
    if instr != IN_CALL && !(IN_JZ <= instr <= IN_JM && !jump_taken(instr, c.flags)) {
        assert(cycles_until_fetch(c6, 10) == cycles_until_fetch(cycle(c6), 9));
    }
}

/// Fuel that is left over when the sequencer is back at T0 is not used.
proof fn lemma_spare_fuel(c: Core, fuel: nat)
    requires
        cycles_until_fetch(c, fuel).t == 0,
    ensures
        cycles_until_fetch(c, fuel + 1) == cycles_until_fetch(c, fuel),
    decreases fuel,
{
    if fuel > 0 && !c.halted && c.t != 0 {
        lemma_spare_fuel(cycle(c), (fuel - 1) as nat);
    }
}

/// Every opcode performs its instruction: from a fetch to the next one,
/// the rising edges of the machine change what a program sees exactly as
/// the instruction at the PC says. An opcode that encodes nothing only
/// moves the PC on.
pub proof fn law_instruction(core: Core)
    requires
        core.t == 0,
        !core.halted,
        core.memory.len() == 0x1_0000,
    ensures
        architecture_of(core_step(core)) == execute(architecture_of(core)),
        core_step(core).t == 0,
{
    lemma_t0(core);
    let c1 = cycle(core);
    lemma_t1(c1);
    let c2 = cycle(c1);
    assert(core_step(core) == cycles_until_fetch(c2, 14));
    assert(plus(plus(core.pc, 1), -1) == core.pc);
    assert(c2.memory[plus(c2.pc, -1) as int] == c2.ir);
    let before = Core { pc: plus(c2.pc, -1), ..c2 };
    assert(architecture_of(before) == architecture_of(core));
    match control::instruction_of(c2.ir) {
        None => {
            lemma_quiet_run(c2);
        },
        Some(instr) => {
            if control::has_address(instr) {
                lemma_long(c2);
            } else {
                lemma_short(c2);
                lemma_spare_fuel(c2, 13);
            }
        },
    }
}

/// What a program sees of a machine.
pub open spec fn visible(m: Machine) -> Architecture {
    architecture_of(core_of(m))
}

/// Whether a machine stands before an instruction.
pub open spec fn at_fetch(m: Machine) -> bool {
    m.memory.len() == 0x1_0000 && m.t.stored == 0
}

/// An instruction step executes the instruction at the PC, and leaves the
/// machine before the next one.
pub proof fn law_step_executes(m: Machine)
    requires
        at_fetch(m),
        !m.halted,
    ensures
        visible(machine::step(m)) == execute(visible(m)),
        at_fetch(machine::step(m)),
{
    law_step(m);
    law_instruction(core_of(m));
}

/// Instructions until the machine halts, `count` of them at most.
pub open spec fn execute_many(a: Architecture, count: nat) -> Architecture
    decreases count,
{
    if count == 0 || a.halted {
        a
    } else {
        execute_many(execute(a), (count - 1) as nat)
    }
}

/// Running a machine runs its program.
pub proof fn law_run_executes(m: Machine, count: nat)
    requires
        at_fetch(m),
    ensures
        visible(machine::run(m, count)) == execute_many(visible(m), count),
        at_fetch(machine::run(m, count)),
    decreases count,
{
    if count > 0 && !m.halted {
        law_step_executes(m);
        law_run_executes(machine::step(m), (count - 1) as nat);
    }
}

/// The jumps, opcode by opcode. Behind the opcode stands the target, low
/// byte first. `7x` always goes there, `8x` goes there exactly when the zero
/// flag is set, `9x` exactly when it is clear, and `Ax` exactly when the sign
/// flag is set; otherwise the instruction behind the three bytes is next. No
/// other flag has a say, and nothing but the PC changes.
pub proof fn law_jumps(a: Architecture)
    ensures
        ({
            let opcode = a.memory[a.pc as int];
            let after = execute(a);
            let target = a.memory[(a.pc + 1) % 65536] + 256 * a.memory[(a.pc + 2) % 65536];
            let behind = (a.pc + 3) % 65536;
            &&& 0x70 <= opcode <= 0x7F ==> after.pc == target
            &&& 0x80 <= opcode <= 0x8F && a.flags.zero ==> after.pc == target
            &&& 0x80 <= opcode <= 0x8F && !a.flags.zero ==> after.pc == behind
            &&& 0x90 <= opcode <= 0x9F && !a.flags.zero ==> after.pc == target
            &&& 0x90 <= opcode <= 0x9F && a.flags.zero ==> after.pc == behind
            &&& 0xA0 <= opcode <= 0xAF && a.flags.sign ==> after.pc == target
            &&& 0xA0 <= opcode <= 0xAF && !a.flags.sign ==> after.pc == behind
            &&& 0x70 <= opcode <= 0xAF ==> after == (Architecture { pc: after.pc, ..a })
        }),
{
    control::law_opcode_table(a.memory[a.pc as int]);
}

/// JZ and JNZ are complements: from the same place, with the same target and
/// the same zero flag, one of them goes to the target and the other one to
/// the instruction behind.
pub proof fn law_jumps_complement(jz: Architecture, jnz: Architecture)
    requires
        0x80 <= jz.memory[jz.pc as int] <= 0x8F,
        0x90 <= jnz.memory[jnz.pc as int] <= 0x9F,
        jz.pc == jnz.pc,
        jz.flags.zero == jnz.flags.zero,
        jz.memory[(jz.pc + 1) % 65536] == jnz.memory[(jz.pc + 1) % 65536],
        jz.memory[(jz.pc + 2) % 65536] == jnz.memory[(jz.pc + 2) % 65536],
    ensures
        ({
            let target = jz.memory[(jz.pc + 1) % 65536] + 256 * jz.memory[(jz.pc + 2) % 65536];
            let behind = (jz.pc + 3) % 65536;
            ||| execute(jz).pc == target && execute(jnz).pc == behind
            ||| execute(jz).pc == behind && execute(jnz).pc == target
        }),
{
    law_jumps(jz);
    law_jumps(jnz);
}

/// Loads and stores, opcode by opcode: `1x` reads the accumulator from the
/// address in the two bytes behind it, `2x` writes it there, `3x` and `4x`
/// take the byte behind them into the accumulator and into B. Nothing else
/// changes, the flags included.
pub proof fn law_moves(a: Architecture)
    requires
        a.memory.len() == 0x1_0000,
    ensures
        ({
            let opcode = a.memory[a.pc as int];
            let after = execute(a);
            let byte = a.memory[(a.pc + 1) % 65536];
            let address = byte + 256 * a.memory[(a.pc + 2) % 65536];
            &&& 0x10 <= opcode <= 0x1F ==> after == (Architecture {
                pc: after.pc,
                acc: a.memory[address],
                ..a
            })
            &&& 0x20 <= opcode <= 0x2F ==> after == (Architecture {
                pc: after.pc,
                memory: a.memory.update(address, a.acc),
                ..a
            })
            &&& 0x10 <= opcode <= 0x2F ==> after.pc == (a.pc + 3) % 65536
            &&& 0x30 <= opcode <= 0x3F ==> after == (Architecture {
                pc: after.pc,
                acc: byte,
                ..a
            })
            &&& 0x40 <= opcode <= 0x4F ==> after == (Architecture { pc: after.pc, b: byte, ..a })
            &&& 0x30 <= opcode <= 0x4F ==> after.pc == (a.pc + 2) % 65536
        }),
{
    control::law_opcode_table(a.memory[a.pc as int]);
}

/// What was stored is loaded again: a load from the address of an earlier
/// store gives the accumulator of that time, unless the byte was written
/// since.
pub proof fn law_load_returns_store(before: Architecture, later: Architecture, address: u16)
    requires
        before.memory.len() == 0x1_0000,
        0x20 <= before.memory[before.pc as int] <= 0x2F,
        0x10 <= later.memory[later.pc as int] <= 0x1F,
        address == before.memory[(before.pc + 1) % 65536] + 256 * before.memory[(before.pc + 2)
            % 65536],
        address == later.memory[(later.pc + 1) % 65536] + 256 * later.memory[(later.pc + 2)
            % 65536],
        later.memory[address as int] == execute(before).memory[address as int],
    ensures
        execute(later).acc == before.acc,
{
    control::law_opcode_table(before.memory[before.pc as int]);
    control::law_opcode_table(later.memory[later.pc as int]);
}

/// Arithmetic, opcode by opcode, over the carry flag: for an addition and
/// an increment it says that 256 was taken off, for a subtraction and a
/// decrement that nothing was borrowed.
pub proof fn law_arithmetic(a: Architecture)
    ensures
        ({
            let opcode = a.memory[a.pc as int];
            let after = execute(a);
            let carry: int = if after.flags.carry {
                1
            } else {
                0
            };
            &&& opcode == 0x50 ==> after.acc + 256 * carry == a.acc + a.b
            &&& opcode == 0x51 ==> after.acc + a.b == a.acc + 256 * (1 - carry)
            &&& opcode == 0x56 ==> after.acc + 256 * carry == a.acc + 1
            &&& opcode == 0x57 ==> after.acc + 1 == a.acc + 256 * (1 - carry)
        }),
{
    control::law_opcode_table(a.memory[a.pc as int]);
}

/// Logic, opcode by opcode: AND, OR, XOR and NOT work bit by bit. The first
/// three clear the carry flag, and the complement keeps all flags.
pub proof fn law_logic(a: Architecture)
    ensures
        ({
            let opcode = a.memory[a.pc as int];
            let after = execute(a);
            &&& opcode == 0x52 ==> after.acc == a.acc & a.b
            &&& opcode == 0x53 ==> after.acc == a.acc | a.b
            &&& opcode == 0x54 ==> after.acc == a.acc ^ a.b
            &&& opcode == 0x55 ==> after.acc == !a.acc
            &&& 0x52 <= opcode <= 0x54 ==> !after.flags.carry
            &&& opcode == 0x55 ==> after.flags == a.flags
        }),
{
    control::law_opcode_table(a.memory[a.pc as int]);
}

/// What the ALU instructions have in common: the zero and the sign flag tell
/// of the new accumulator, but for the complement, and nothing changes but
/// the accumulator, the flags and the PC, which moves on by one.
pub proof fn law_alu_flags(a: Architecture)
    requires
        0x50 <= a.memory[a.pc as int] <= 0x57,
    ensures
        execute(a) == (Architecture {
            pc: execute(a).pc,
            acc: execute(a).acc,
            flags: execute(a).flags,
            ..a
        }),
        execute(a).pc == (a.pc + 1) % 65536,
        a.memory[a.pc as int] != 0x55 ==> (execute(a).flags.zero <==> execute(a).acc == 0),
        a.memory[a.pc as int] != 0x55 ==> (execute(a).flags.sign <==> execute(a).acc >= 128),
{
    control::law_opcode_table(a.memory[a.pc as int]);
}

/// The one-byte instructions without the ALU, opcode by opcode: `60` takes
/// the input switches into the accumulator, `61` shows the accumulator at the
/// output, `F0` halts, and `00` and every byte that encodes no instruction
/// only move the PC on.
pub proof fn law_ports_and_halt(a: Architecture)
    ensures
        ({
            let opcode = a.memory[a.pc as int];
            let after = execute(a);
            let skipped = {
                ||| opcode <= 0x0F
                ||| 0x58 <= opcode <= 0x5F
                ||| 0x62 <= opcode <= 0x6F
                ||| 0xC3 <= opcode <= 0xEF
                ||| 0xF1 <= opcode
            };
            &&& opcode == 0x60 ==> after == (Architecture { pc: after.pc, acc: a.input, ..a })
            &&& opcode == 0x61 ==> after == (Architecture { pc: after.pc, out: a.acc, ..a })
            &&& opcode == 0xF0 ==> after == (Architecture { pc: after.pc, halted: true, ..a })
            &&& skipped ==> after == (Architecture { pc: after.pc, ..a })
            &&& skipped || opcode == 0x60 || opcode == 0x61 || opcode == 0xF0 ==> after.pc == (a.pc
                + 1) % 65536
        }),
{
    control::law_opcode_table(a.memory[a.pc as int]);
}

/// The stack, opcode by opcode. A push writes where the SP points and then
/// counts it down, a pop counts it up and then reads: `C1` and `C2` do so
/// with the accumulator, `Bx` pushes the address behind its three bytes, low
/// byte first, and jumps, and `C0` pops the PC, high byte first.
pub proof fn law_stack(a: Architecture)
    requires
        a.memory.len() == 0x1_0000,
    ensures
        ({
            let opcode = a.memory[a.pc as int];
            let after = execute(a);
            let above = (a.sp + 1) % 65536;
            let below = (a.sp + 65535) % 65536;
            let behind = (a.pc + 3) % 65536;
            &&& opcode == 0xC1 ==> after == (Architecture {
                pc: after.pc,
                sp: after.sp,
                memory: a.memory.update(a.sp as int, a.acc),
                ..a
            }) && after.sp == below
            &&& opcode == 0xC2 ==> after == (Architecture {
                pc: after.pc,
                sp: after.sp,
                acc: a.memory[above],
                ..a
            }) && after.sp == above
            &&& opcode == 0xC1 || opcode == 0xC2 ==> after.pc == (a.pc + 1) % 65536
            &&& 0xB0 <= opcode <= 0xBF ==> {
                &&& after == (Architecture {
                    pc: after.pc,
                    sp: after.sp,
                    memory: after.memory,
                    ..a
                })
                &&& after.pc == a.memory[(a.pc + 1) % 65536] + 256 * a.memory[(a.pc + 2) % 65536]
                &&& after.sp == (a.sp + 65534) % 65536
                &&& after.memory.len() == 0x1_0000
                &&& after.memory[a.sp as int] + 256 * after.memory[below] == behind
                &&& forall|i: int|
                    0 <= i < 0x1_0000 && i != a.sp && i != below ==> #[trigger] after.memory[i]
                        == a.memory[i]
            }
            &&& opcode == 0xC0 ==> {
                &&& after == (Architecture { pc: after.pc, sp: after.sp, ..a })
                &&& after.pc == a.memory[(a.sp + 2) % 65536] + 256 * a.memory[above]
                &&& after.sp == (a.sp + 2) % 65536
            }
        }),
{
    control::law_opcode_table(a.memory[a.pc as int]);
    assert(plus(a.sp, -1) == (a.sp + 65535) % 65536);
    assert(plus(a.sp, -2) == (a.sp + 65534) % 65536);
    assert(plus(a.sp, -1) != a.sp);
}

/// Executing some instructions and then some more is executing all of them;
/// one of them is the instruction at the PC, none of them changes nothing,
/// and a halted machine executes nothing.
pub proof fn law_executions_compose(a: Architecture, first: nat, more: nat)
    ensures
        execute_many(a, first + more) == execute_many(execute_many(a, first), more),
        execute_many(a, 0) == a,
        execute_many(a, 1) == if a.halted {
            a
        } else {
            execute(a)
        },
    decreases first,
{
    reveal_with_fuel(execute_many, 2);
    if first > 0 && !a.halted {
        law_executions_compose(execute(a), (first - 1) as nat, more);
    } else if first > 0 {
        assert(execute_many(a, first) == a);
        assert(execute_many(a, more) == a);
    }
}

/// The fetch: within two rising edges the byte at the PC is in the
/// instruction register, its address is in the MAR, and the PC is on the
/// next byte.
pub proof fn law_fetch(core: Core)
    requires
        core.t == 0,
    ensures
        cycle(cycle(core)) == (Core {
            pc: cycle(cycle(core)).pc,
            mar: core.pc,
            ir: core.memory[core.pc as int],
            t: 2,
            ..core
        }),
        cycle(cycle(core)).pc == (core.pc + 1) % 65536,
{
    lemma_t0(core);
    lemma_t1(cycle(core));
}

/// What a program sees of a machine are its stored values.
pub proof fn law_visible(m: Machine, address: int)
    requires
        0 <= address < m.memory.len(),
    ensures
        visible(m).pc == m.pc.stored,
        visible(m).sp == m.sp.stored,
        visible(m).acc == m.acc.stored,
        visible(m).b == m.b.stored,
        visible(m).out == m.out.stored,
        visible(m).flags == m.flags.stored,
        visible(m).input == m.input,
        visible(m).halted == m.halted,
        visible(m).memory.len() == m.memory.len(),
        visible(m).memory[address] == m.memory[address].stored,
{
}

/// The buses during an edge. The address bus carries the PC or the SP where
/// one of them is enabled, the SP also while a push is written, and the MAR
/// otherwise. The data bus carries the byte at that address while memory is
/// read, and otherwise what the one enabled source drives, or nothing, which
/// reads as zero.
pub proof fn law_edge_buses(core: Core)
    ensures
        ({
            let address = core_address(core);
            let data = core_data(core);
            let push = line_on(core, LN_SP_COUNT_DOWN) && line_on(core, LN_MEM_WRITE);
            let op2: int = if line_on(core, control::LN_OP2) {
                4
            } else {
                0
            };
            let op1: int = if line_on(core, control::LN_OP1) {
                2
            } else {
                0
            };
            let op0: int = if line_on(core, control::LN_OP0) {
                1
            } else {
                0
            };
            &&& line_on(core, control::LN_PC_ENABLE) ==> address == core.pc
            &&& line_on(core, control::LN_SP_ENABLE) || push ==> address == core.sp
            &&& line_on(core, control::LN_MAR_ENABLE) && !push ==> address == core.mar
            &&& line_on(core, LN_MEM_READ) ==> data == core.memory[address as int]
            &&& line_on(core, control::LN_PC_OUT_LO) ==> data == core.ret_lo
            &&& line_on(core, control::LN_PC_OUT_HI) ==> data == core.ret_hi
            &&& line_on(core, control::LN_ACC_OUT) ==> data == core.acc
            &&& line_on(core, control::LN_IN_ENABLE) ==> data == core.input
            &&& line_on(core, control::LN_ALU_OUT) ==> {
                &&& op2 + op1 + op0 == 0 ==> data == (core.acc + core.b) % 256
                &&& op2 + op1 + op0 == 1 ==> data == (core.acc + 256 - core.b) % 256
                &&& op2 + op1 + op0 == 2 ==> data == core.acc & core.b
                &&& op2 + op1 + op0 == 3 ==> data == core.acc | core.b
                &&& op2 + op1 + op0 == 4 ==> data == core.acc ^ core.b
                &&& op2 + op1 + op0 == 5 ==> data == !core.acc
                &&& op2 + op1 + op0 == 6 ==> data == (core.acc + 1) % 256
                &&& op2 + op1 + op0 == 7 ==> data == (core.acc + 255) % 256
            }
            &&& !line_on(core, LN_MEM_READ) && !line_on(core, control::LN_PC_OUT_LO) && !line_on(
                core,
                control::LN_PC_OUT_HI,
            ) && !line_on(core, control::LN_ACC_OUT) && !line_on(core, control::LN_IN_ENABLE)
                && !line_on(core, control::LN_ALU_OUT) ==> data == 0
        }),
{
    let instr = control::instruction_of(core.ir);
    control::law_one_address_driver(core.t as int, instr, core.flags.zero, core.flags.sign);
    control::law_one_data_driver(core.t as int, instr, core.flags.zero, core.flags.sign);
}

/// What one rising edge stores, line by line: a register takes the data bus
/// while its line is on and keeps its byte otherwise, memory takes it at the
/// address on the bus, the return address is the PC from before a load, and
/// the T-state counts modulo 16 or restarts.
pub proof fn law_edge_registers(core: Core)
    requires
        core.memory.len() == 0x1_0000,
    ensures
        ({
            let after = cycle(core);
            let data = core_data(core);
            &&& after.ir == if line_on(core, LN_IR_IN) {
                data
            } else {
                core.ir
            }
            &&& after.acc == if line_on(core, LN_ACC_IN) {
                data
            } else {
                core.acc
            }
            &&& after.b == if line_on(core, LN_B_IN) {
                data
            } else {
                core.b
            }
            &&& after.out == if line_on(core, LN_OUT_SAVE) {
                data
            } else {
                core.out
            }
            &&& line_on(core, LN_MEM_WRITE) ==> after.memory == core.memory.update(
                core_address(core) as int,
                data,
            )
            &&& !line_on(core, LN_MEM_WRITE) ==> after.memory == core.memory
            &&& line_on(core, LN_PC_LOAD) ==> after.ret_lo + 256 * after.ret_hi == core.pc
            &&& !line_on(core, LN_PC_LOAD) ==> after.ret_lo == core.ret_lo && after.ret_hi
                == core.ret_hi
            &&& after.t == if line_on(core, LN_SEQ_RESET) {
                0
            } else {
                (core.t + 1) % 16
            }
            &&& after.input == core.input
            &&& after.halted <==> core.halted || line_on(core, LN_HALT)
            &&& !line_on(core, LN_FLAGS_IN) ==> after.flags == core.flags
            &&& line_on(core, LN_FLAGS_IN) && line_on(core, control::LN_ALU_OUT) ==> {
                &&& after.flags.zero <==> data == 0
                &&& after.flags.sign <==> data >= 128
            }
        }),
{
    reveal(cycle);
    let instr = control::instruction_of(core.ir);
    control::law_one_data_driver(core.t as int, instr, core.flags.zero, core.flags.sign);
    utils::law_word_bytes(core.pc, 0, 0);
}

/// What one rising edge does to the PC, line by line: it takes the address
/// bus, or counts modulo 65536, or stays; on top of that the data bus may
/// replace one of its halves.
pub proof fn law_edge_pc(core: Core)
    ensures
        ({
            let base: int = if line_on(core, LN_PC_LOAD) {
                core_address(core) as int
            } else if line_on(core, LN_PC_COUNT) {
                (core.pc + 1) % 65536
            } else {
                core.pc as int
            };
            counters::replaced(
                cycle(core).pc,
                base,
                core_data(core),
                line_on(core, LN_PC_SAVE_LO),
                line_on(core, LN_PC_SAVE_HI),
            )
        }),
{
    let address = core_address(core);
    let data = core_data(core);
    let count = line_on(core, LN_PC_COUNT);
    let load = line_on(core, LN_PC_LOAD);
    let low = line_on(core, LN_PC_SAVE_LO);
    let high = line_on(core, LN_PC_SAVE_HI);
    assert(cycle(core).pc == counters::pc16_word(core.pc, data, address, count, load, low, high))
        by {
        reveal(cycle);
    }
    counters::law_pc16_words(core.pc, data, address, count, load, low, high);
}

/// What one rising edge does to the MAR, line by line: it takes the address
/// bus or stays; on top of that the data bus may replace one of its halves.
pub proof fn law_edge_mar(core: Core)
    ensures
        ({
            let base: int = if line_on(core, LN_MAR_IN) {
                core_address(core) as int
            } else {
                core.mar as int
            };
            counters::replaced(
                cycle(core).mar,
                base,
                core_data(core),
                line_on(core, LN_MAR_LO_IN),
                line_on(core, LN_MAR_HI_IN),
            )
        }),
{
    let address = core_address(core);
    let data = core_data(core);
    let load = line_on(core, LN_MAR_IN);
    let low = line_on(core, LN_MAR_LO_IN);
    let high = line_on(core, LN_MAR_HI_IN);
    assert(cycle(core).mar == counters::mar16_word(core.mar, data, address, low, high, load)) by {
        reveal(cycle);
    }
    counters::law_mar16_words(core.mar, data, address, low, high, load);
}

/// What one rising edge does to the SP, line by line: it counts down or up
/// modulo 65536, or stays.
pub proof fn law_edge_sp(core: Core)
    ensures
        ({
            let base: int = if line_on(core, LN_SP_COUNT_DOWN) {
                (core.sp + 65535) % 65536
            } else if line_on(core, LN_SP_COUNT_UP) {
                (core.sp + 1) % 65536
            } else {
                core.sp as int
            };
            cycle(core).sp == base
        }),
{
    let data = core_data(core);
    let up = line_on(core, LN_SP_COUNT_UP);
    let down = line_on(core, LN_SP_COUNT_DOWN);
    assert(cycle(core).sp == counters::sp16_word(core.sp, data, up, down, false, false)) by {
        reveal(cycle);
    }
    counters::law_sp16_words(core.sp, data, up, down, false, false);
}

} // verus!
