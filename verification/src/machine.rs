//! The register-transfer model of the SAP-2 machine.
//!
//! [`Machine`] is what the computer remembers, in bytes and words. Every
//! clocked value is a pair: what is stored, and what the next rising edge
//! captures. [`tick`] says what one level of the clock does to all of it.

use vstd::prelude::*;

use crate::arithmetic::{self, AluOperation};
use crate::control::{
    self, LN_ACC_IN, LN_ACC_OUT, LN_ALU_OUT, LN_B_IN, LN_FLAGS_IN, LN_HALT, LN_IN_ENABLE, LN_IR_IN,
    LN_MAR_ENABLE, LN_MAR_HI_IN, LN_MAR_IN, LN_MAR_LO_IN, LN_MEM_READ, LN_MEM_WRITE, LN_OP0,
    LN_OP1, LN_OP2, LN_OUT_SAVE, LN_PC_COUNT, LN_PC_ENABLE, LN_PC_LOAD, LN_PC_OUT_HI, LN_PC_OUT_LO,
    LN_PC_SAVE_HI, LN_PC_SAVE_LO, LN_SEQ_RESET, LN_SP_COUNT_DOWN, LN_SP_COUNT_UP, LN_SP_ENABLE,
};
use crate::counters;
use crate::hardware::{self, Bit, Component, HardwareError, Signal};
use crate::latches::{self, FlipFlopState};
use crate::memory;
use crate::ram;
use crate::utils;

verus! {

/// A clocked value: what is stored, and what the next rising edge
/// captures.
pub struct Latched<T> {
    pub next: T,
    pub stored: T,
}

/// The three flags.
pub struct Flags {
    pub zero: bool,
    pub carry: bool,
    pub sign: bool,
}

/// Everything that the computer remembers.
#[verifier::ext_equal]
pub struct Machine {
    pub pc: Latched<u16>,
    pub sp: Latched<u16>,
    pub mar: Latched<u16>,
    /// The low byte of the PC at the latest load: where a call returns to.
    pub ret_lo: Latched<u8>,
    /// The high byte of the PC at the latest load.
    pub ret_hi: Latched<u8>,
    pub ir: Latched<u8>,
    pub acc: Latched<u8>,
    pub b: Latched<u8>,
    pub out: Latched<u8>,
    pub flags: Latched<Flags>,
    pub t: Latched<nat>,
    pub memory: Seq<Latched<u8>>,
    pub input: u8,
    pub halted: bool,
    pub clock: Bit,
}

/// The byte that a row of eight flip-flops holds.
pub open spec fn latched_byte(row: Seq<FlipFlopState>) -> Latched<u8> {
    Latched {
        next: utils::byte_of(memory::masters(row)),
        stored: utils::byte_of(latches::slaves(row)),
    }
}

/// The word that a row of sixteen flip-flops holds.
pub open spec fn latched_word(row: Seq<FlipFlopState>) -> Latched<u16> {
    Latched {
        next: utils::word_of(memory::masters(row)),
        stored: utils::word_of(latches::slaves(row)),
    }
}

/// The count that a row of flip-flops holds.
pub open spec fn latched_count(row: Seq<FlipFlopState>) -> Latched<nat> {
    Latched {
        next: utils::bits_value(memory::masters(row)),
        stored: utils::bits_value(latches::slaves(row)),
    }
}

/// The flags that a row of levels stands for: zero, carry, sign.
pub open spec fn flags_of(bits: Seq<Bit>) -> Flags {
    Flags {
        zero: bits[0] == Bit::High,
        carry: bits[1] == Bit::High,
        sign: bits[2] == Bit::High,
    }
}

/// The levels of the flags.
pub open spec fn flag_bits(flags: Flags) -> Seq<Bit> {
    seq![
        hardware::bit_of(flags.zero),
        hardware::bit_of(flags.carry),
        hardware::bit_of(flags.sign),
    ]
}

/// The flags that a row of three flip-flops holds.
pub open spec fn latched_flags(row: Seq<FlipFlopState>) -> Latched<Flags> {
    Latched { next: flags_of(memory::masters(row)), stored: flags_of(latches::slaves(row)) }
}

/// The bytes that the rows of a memory hold.
pub open spec fn latched_bytes(rows: Seq<Seq<FlipFlopState>>) -> Seq<Latched<u8>> {
    Seq::new(rows.len(), |i: int| latched_byte(rows[i]))
}

/// One level of the clock on a clocked value: a Low clock takes in
/// `data`, a High clock stores it when `save` is on.
pub open spec fn latch_step<T>(cell: Latched<T>, data: T, clock: Bit, save: bool) -> Latched<T> {
    match clock {
        Bit::Low => Latched { next: data, stored: cell.stored },
        Bit::High => if save {
            Latched { next: cell.next, stored: cell.next }
        } else {
            cell
        },
    }
}

/// One level of the clock on the memory. An access with a Low clock takes
/// in `data` at all sixteen addresses of the selected chip; with a High
/// clock it stores at the one address when `save` is on.
pub open spec fn memory_step(
    cells: Seq<Latched<u8>>,
    data: u8,
    address: u16,
    clock: Bit,
    save: bool,
    load: bool,
) -> Seq<Latched<u8>> {
    if !save && !load {
        cells
    } else {
        match clock {
            Bit::Low => Seq::new(
                cells.len(),
                |i: int|
                    if i / 16 == address as int / 16 {
                        Latched { next: data, stored: cells[i].stored }
                    } else {
                        cells[i]
                    },
            ),
            Bit::High => if save {
                cells.update(
                    address as int,
                    Latched {
                        next: cells[address as int].next,
                        stored: cells[address as int].next,
                    },
                )
            } else {
                cells
            },
        }
    }
}

/// The control word of a machine: the level of every control line.
pub open spec fn control_word(machine: Machine) -> Seq<Bit> {
    Seq::new(
        29,
        |line: int|
            hardware::bit_of(
                control::active(
                    line,
                    machine.t.stored as int,
                    control::instruction_of(machine.ir.stored),
                    machine.flags.stored.zero,
                    machine.flags.stored.sign,
                ),
            ),
    )
}

/// Whether a control line is High.
pub open spec fn on(word: Seq<Bit>, line: usize) -> bool {
    word[line as int] == Bit::High
}

/// Whether a control word pushes: memory is written while the SP counts
/// down.
pub open spec fn pushes(word: Seq<Bit>) -> bool {
    on(word, LN_SP_COUNT_DOWN) && on(word, LN_MEM_WRITE)
}

/// Whether a control word enables exactly one address-bus driver and at
/// most one data-bus driver, and does not push while the PC is on the
/// address bus.
pub open spec fn undisputed(word: Seq<Bit>) -> bool {
    &&& word.len() == 29
    &&& !(on(word, LN_PC_ENABLE) && on(word, LN_SP_ENABLE))
    &&& on(word, LN_MAR_ENABLE) == (!on(word, LN_PC_ENABLE) && !on(word, LN_SP_ENABLE))
    &&& !(on(word, LN_PC_ENABLE) && pushes(word))
    &&& !(on(word, LN_PC_OUT_LO) && on(word, LN_PC_OUT_HI))
    &&& !(on(word, LN_PC_OUT_LO) && on(word, LN_ACC_OUT))
    &&& !(on(word, LN_PC_OUT_LO) && on(word, LN_ALU_OUT))
    &&& !(on(word, LN_PC_OUT_LO) && on(word, LN_IN_ENABLE))
    &&& !(on(word, LN_PC_OUT_HI) && on(word, LN_ACC_OUT))
    &&& !(on(word, LN_PC_OUT_HI) && on(word, LN_ALU_OUT))
    &&& !(on(word, LN_PC_OUT_HI) && on(word, LN_IN_ENABLE))
    &&& !(on(word, LN_ACC_OUT) && on(word, LN_ALU_OUT))
    &&& !(on(word, LN_ACC_OUT) && on(word, LN_IN_ENABLE))
    &&& !(on(word, LN_ALU_OUT) && on(word, LN_IN_ENABLE))
    &&& on(word, LN_MEM_READ) ==> {
        &&& !on(word, LN_PC_OUT_LO)
        &&& !on(word, LN_PC_OUT_HI)
        &&& !on(word, LN_ACC_OUT)
        &&& !on(word, LN_ALU_OUT)
        &&& !on(word, LN_IN_ENABLE)
        &&& !on(word, LN_MEM_WRITE)
    }
}

/// The buses of a machine never have two drivers.
pub proof fn law_control_word_undisputed(machine: Machine)
    ensures
        undisputed(control_word(machine)),
{
    let t = machine.t.stored as int;
    let instr = control::instruction_of(machine.ir.stored);
    let zero = machine.flags.stored.zero;
    let sign = machine.flags.stored.sign;
    control::law_one_address_driver(t, instr, zero, sign);
    control::law_one_data_driver(t, instr, zero, sign);
}

/// What the address bus carries. A push puts the SP on it in place of the
/// MAR.
pub open spec fn address_word(word: Seq<Bit>, machine: Machine) -> u16 {
    if on(word, LN_PC_ENABLE) {
        machine.pc.stored
    } else if on(word, LN_SP_ENABLE) || pushes(word) {
        machine.sp.stored
    } else {
        machine.mar.stored
    }
}

/// The operation that the ALU is asked for.
pub open spec fn alu_operation(word: Seq<Bit>) -> AluOperation {
    arithmetic::selected(word[LN_OP2 as int], word[LN_OP1 as int], word[LN_OP0 as int])
}

/// The result of the ALU.
pub open spec fn alu_byte(word: Seq<Bit>, machine: Machine) -> u8 {
    arithmetic::sap2_byte(alu_operation(word), machine.acc.stored, machine.b.stored)
}

/// The flags that the ALU offers. The sign comes from the data bus side
/// of the ALU, so it is Low while the ALU does not drive the bus.
pub open spec fn alu_flags(word: Seq<Bit>, machine: Machine) -> Flags {
    Flags {
        zero: alu_byte(word, machine) == 0,
        carry: arithmetic::sap2_byte_carry(
            alu_operation(word),
            machine.acc.stored,
            machine.b.stored,
        ),
        sign: on(word, LN_ALU_OUT) && alu_byte(word, machine) >= 128,
    }
}

/// What the drivers other than the RAM put on the data bus, if any.
pub open spec fn driven_byte(word: Seq<Bit>, machine: Machine) -> Option<u8> {
    if on(word, LN_PC_OUT_LO) {
        Some(machine.ret_lo.stored)
    } else if on(word, LN_PC_OUT_HI) {
        Some(machine.ret_hi.stored)
    } else if on(word, LN_ACC_OUT) {
        Some(machine.acc.stored)
    } else if on(word, LN_ALU_OUT) {
        Some(alu_byte(word, machine))
    } else if on(word, LN_IN_ENABLE) {
        Some(machine.input)
    } else {
        None
    }
}

/// What the data bus carries, the RAM included.
pub open spec fn bus_byte(word: Seq<Bit>, machine: Machine) -> Option<u8> {
    if on(word, LN_MEM_READ) {
        Some(machine.memory[address_word(word, machine) as int].stored)
    } else {
        driven_byte(word, machine)
    }
}

/// What a storage input reads from the data bus: a line that nobody
/// drives is pulled Low.
pub open spec fn pulled(byte: Option<u8>) -> u8 {
    match byte {
        Some(value) => value,
        None => 0,
    }
}

/// The wires of the data bus.
pub open spec fn bus_lines(byte: Option<u8>) -> Seq<Signal> {
    match byte {
        Some(value) => hardware::driven(utils::byte_bits(value)),
        None => hardware::floating(8),
    }
}

/// What one level of the clock does under a given control word.
#[verifier::opaque]
pub open spec fn tick_under(word: Seq<Bit>, machine: Machine, clock: Bit) -> Machine {
    let address = address_word(word, machine);
    let data = pulled(bus_byte(word, machine));
    Machine {
        pc: latch_step(
            machine.pc,
            counters::pc16_word(
                machine.pc.stored,
                data,
                address,
                on(word, LN_PC_COUNT),
                on(word, LN_PC_LOAD),
                on(word, LN_PC_SAVE_LO),
                on(word, LN_PC_SAVE_HI),
            ),
            clock,
            true,
        ),
        sp: latch_step(
            machine.sp,
            counters::sp16_word(
                machine.sp.stored,
                data,
                on(word, LN_SP_COUNT_UP),
                on(word, LN_SP_COUNT_DOWN),
                false,
                false,
            ),
            clock,
            true,
        ),
        mar: latch_step(
            machine.mar,
            counters::mar16_word(
                machine.mar.stored,
                data,
                address,
                on(word, LN_MAR_LO_IN),
                on(word, LN_MAR_HI_IN),
                on(word, LN_MAR_IN),
            ),
            clock,
            true,
        ),
        ret_lo: latch_step(
            machine.ret_lo,
            utils::low_byte(machine.pc.stored),
            clock,
            on(word, LN_PC_LOAD),
        ),
        ret_hi: latch_step(
            machine.ret_hi,
            utils::high_byte(machine.pc.stored),
            clock,
            on(word, LN_PC_LOAD),
        ),
        ir: latch_step(machine.ir, data, clock, on(word, LN_IR_IN)),
        acc: latch_step(machine.acc, data, clock, on(word, LN_ACC_IN)),
        b: latch_step(machine.b, data, clock, on(word, LN_B_IN)),
        out: latch_step(machine.out, data, clock, on(word, LN_OUT_SAVE)),
        flags: latch_step(machine.flags, alu_flags(word, machine), clock, on(word, LN_FLAGS_IN)),
        t: latch_step(
            machine.t,
            if on(word, LN_SEQ_RESET) {
                0
            } else {
                (machine.t.stored + 1) % 16
            },
            clock,
            true,
        ),
        memory: memory_step(
            machine.memory,
            pulled(driven_byte(word, machine)),
            address,
            clock,
            on(word, LN_MEM_WRITE),
            on(word, LN_MEM_READ),
        ),
        halted: machine.halted || (clock == Bit::High && on(word, LN_HALT)),
        ..machine
    }
}

/// What one level of the clock does.
pub open spec fn tick(machine: Machine, clock: Bit) -> Machine {
    tick_under(control_word(machine), machine, clock)
}

/// One toggle of the clock. A halted machine stands still.
pub open spec fn pulse(machine: Machine) -> Machine {
    if machine.halted {
        machine
    } else {
        let clock = hardware::flipped(machine.clock);
        tick(Machine { clock, ..machine }, clock)
    }
}

/// One micro-step: a Low level that preloads every clocked value, then a
/// rising edge that stores them, then a Low level again.
pub open spec fn micro_step(machine: Machine) -> Machine {
    if machine.halted {
        machine
    } else {
        let low = if machine.clock == Bit::High {
            pulse(machine)
        } else {
            tick(machine, Bit::Low)
        };
        pulse(pulse(low))
    }
}

/// Micro-steps until the sequencer is back at T0 or the machine halts,
/// `fuel` of them at most.
pub open spec fn until_fetch(machine: Machine, fuel: nat) -> Machine
    decreases fuel,
{
    if fuel == 0 || machine.halted || machine.t.stored == 0 {
        machine
    } else {
        until_fetch(micro_step(machine), (fuel - 1) as nat)
    }
}

/// Micro-steps up to the next fetch: one at least, and no more than the
/// sequencer has T-states.
pub open spec fn step(machine: Machine) -> Machine {
    until_fetch(micro_step(machine), 15)
}

/// Instruction steps until the machine halts, `count` of them at most.
pub open spec fn run(machine: Machine, count: nat) -> Machine
    decreases count,
{
    if count == 0 || machine.halted {
        machine
    } else {
        run(step(machine), (count - 1) as nat)
    }
}

/// A micro-step moves the sequencer to the next T-state or back to T0.
pub proof fn lemma_micro_step_advances(machine: Machine)
    requires
        !machine.halted,
    ensures
        ({
            let after = micro_step(machine);
            after.t.stored == 0 || after.t.stored == (machine.t.stored + 1) % 16
        }),
{
    reveal(tick_under);
}

/// A halted machine stands still, whatever is asked of it.
pub proof fn law_halted_stands_still(machine: Machine, count: nat)
    requires
        machine.halted,
    ensures
        pulse(machine) == machine,
        micro_step(machine) == machine,
        step(machine) == machine,
        run(machine, count) == machine,
{
    reveal_with_fuel(until_fetch, 1);
}

/// A halted machine never wakes up: no clock level clears the halt.
pub proof fn law_halt_is_final(machine: Machine, clock: Bit)
    requires
        machine.halted,
    ensures
        tick(machine, clock).halted,
{
    reveal(tick_under);
}

/// A row of flip-flops takes in driven bits with a Low clock, and stores
/// its masters with a High clock when `save` is on.
pub proof fn lemma_row_step(row: Seq<FlipFlopState>, bits: Seq<Bit>, clock: Bit, save: bool)
    requires
        bits.len() == row.len(),
    ensures
        ({
            let data = hardware::driven(bits);
            let tick = Signal::Driven(clock);
            let gate = Signal::Driven(hardware::bit_of(save));
            let next = memory::row_next(row, data, tick, gate);
            &&& memory::row_result(row, data, tick, gate) == Ok::<(), HardwareError>(())
            &&& memory::steps(row, data, tick, gate, row.len()) == row.len()
            &&& next.len() == row.len()
            &&& clock == Bit::Low ==> memory::masters(next) == bits && latches::slaves(next)
                == latches::slaves(row)
            &&& clock == Bit::High && save ==> memory::masters(next) == memory::masters(row)
                && latches::slaves(next) == memory::masters(row)
            &&& clock == Bit::High && !save ==> next == row
        }),
{
    let gate = Signal::Driven(hardware::bit_of(save));
    memory::law_register_preloads(row, bits, gate);
    memory::law_register_captures(row, hardware::driven(bits));
    memory::law_register_holds(row, hardware::driven(bits));
}

/// A register holds bytes: it steps as [`latch_step`] says.
pub proof fn lemma_byte_step(row: Seq<FlipFlopState>, data: u8, clock: Bit, save: bool)
    requires
        row.len() == 8,
    ensures
        ({
            let lines = hardware::driven(utils::byte_bits(data));
            let tick = Signal::Driven(clock);
            let gate = Signal::Driven(hardware::bit_of(save));
            let next = memory::row_next(row, lines, tick, gate);
            &&& memory::row_result(row, lines, tick, gate) == Ok::<(), HardwareError>(())
            &&& next.len() == 8
            &&& latched_byte(next) == latch_step(latched_byte(row), data, clock, save)
        }),
{
    utils::law_byte_unpacked(data);
    lemma_row_step(row, utils::byte_bits(data), clock, save);
}

/// A counter holds words: it steps as [`latch_step`] says.
pub proof fn lemma_word_step(row: Seq<FlipFlopState>, data: u16, clock: Bit)
    requires
        row.len() == 16,
    ensures
        ({
            let lines = hardware::driven(utils::word_bits(data));
            let tick = Signal::Driven(clock);
            let next = memory::row_next(row, lines, tick, tick);
            &&& memory::row_result(row, lines, tick, tick) == Ok::<(), HardwareError>(())
            &&& next.len() == 16
            &&& latched_word(next) == latch_step(latched_word(row), data, clock, true)
        }),
{
    utils::law_word_unpacked(data);
    lemma_row_step(row, utils::word_bits(data), clock, clock == Bit::High);
}

/// The sequencer holds a count: it steps as [`latch_step`] says.
pub proof fn lemma_count_step(row: Seq<FlipFlopState>, data: nat, clock: Bit)
    requires
        row.len() == 4,
        data < 16,
    ensures
        ({
            let lines = hardware::driven(utils::value_bits(data, 4));
            let tick = Signal::Driven(clock);
            let high = Signal::Driven(Bit::High);
            let next = memory::row_next(row, lines, tick, high);
            &&& memory::row_result(row, lines, tick, high) == Ok::<(), HardwareError>(())
            &&& next.len() == 4
            &&& latched_count(next) == latch_step(latched_count(row), data, clock, true)
        }),
{
    vstd::arithmetic::power2::lemma2_to64();
    utils::lemma_bits_of_value(data, 4);
    lemma_row_step(row, utils::value_bits(data, 4), clock, true);
}

/// The flags step as [`latch_step`] says.
pub proof fn lemma_flags_step(row: Seq<FlipFlopState>, data: Flags, clock: Bit, save: bool)
    requires
        row.len() == 3,
    ensures
        ({
            let lines = hardware::driven(flag_bits(data));
            let tick = Signal::Driven(clock);
            let gate = Signal::Driven(hardware::bit_of(save));
            let next = memory::row_next(row, lines, tick, gate);
            &&& memory::row_result(row, lines, tick, gate) == Ok::<(), HardwareError>(())
            &&& next.len() == 3
            &&& latched_flags(next) == latch_step(latched_flags(row), data, clock, save)
        }),
{
    lemma_row_step(row, flag_bits(data), clock, save);
    assert(flags_of(flag_bits(data)) == data);
}

/// A memory holds bytes: it steps as [`memory_step`] says, and reads out
/// the stored byte.
pub proof fn lemma_memory_step(
    rows: Seq<Seq<FlipFlopState>>,
    data: u8,
    address: u16,
    clock: Bit,
    save: bool,
    load: bool,
    outputs: Seq<Signal>,
)
    requires
        rows.len() == 0x1_0000,
        forall|i: int| 0 <= i < 0x1_0000 ==> (#[trigger] rows[i]).len() == 8,
        !(save && load),
    ensures
        ({
            let response = ram::array_response(
                rows,
                hardware::driven(utils::byte_bits(data)),
                hardware::driven(utils::word_bits(address)),
                Signal::Driven(clock),
                Signal::Driven(hardware::bit_of(save)),
                Signal::Driven(hardware::bit_of(load)),
                outputs,
            );
            let cells = latched_bytes(rows);
            &&& response.result == Ok::<(), HardwareError>(())
            &&& latched_bytes(response.state) == memory_step(
                cells,
                data,
                address,
                clock,
                save,
                load,
            )
            &&& response.outputs == bus_lines(
                if load {
                    Some(cells[address as int].stored)
                } else {
                    None
                },
            )
        }),
{
    let bits = utils::byte_bits(data);
    let cells = latched_bytes(rows);
    utils::law_byte_unpacked(data);
    ram::law_ram_access(rows, bits, address, clock, save, load, outputs);
    let next = ram::accessed(rows, bits, address as int, clock, save);
    assert(rows[address as int].len() == 8);
    if save || load {
        assert forall|i: int| 0 <= i < 0x1_0000 implies latched_byte(#[trigger] next[i])
            == memory_step(cells, data, address, clock, save, load)[i] by {
            assert(rows[i].len() == 8);
            memory::law_register_preloads(rows[i], bits, Signal::Driven(Bit::Low));
            memory::law_register_captures(rows[i], hardware::driven(bits));
        }
        assert(latched_bytes(next) =~= memory_step(cells, data, address, clock, save, load));
    }
    if load {
        let stored = latches::slaves(rows[address as int]);
        assert(latches::slaves(next[address as int]) =~= stored);
        utils::law_byte_packed(stored);
    }
}

/// Running for some steps and then for some more is running for all of
/// them; a run of one step is that step, and a run of none changes nothing.
pub proof fn law_runs_compose(machine: Machine, first: nat, more: nat)
    ensures
        run(machine, first + more) == run(run(machine, first), more),
        run(machine, 1) == step(machine),
        run(machine, 0) == machine,
    decreases first,
{
    reveal_with_fuel(run, 2);
    if machine.halted {
        law_halted_stands_still(machine, first);
        law_halted_stands_still(machine, more);
        law_halted_stands_still(machine, first + more);
    } else if first > 0 {
        law_runs_compose(step(machine), (first - 1) as nat, more);
    }
}

/// The clock of a running machine alternates, and a micro-step leaves it
/// Low unless it halts the machine.
pub proof fn law_clock_alternates(machine: Machine)
    requires
        !machine.halted,
    ensures
        pulse(machine).clock != machine.clock,
        micro_step(machine).clock == Bit::Low || micro_step(machine).halted,
{
    reveal(tick_under);
}

/// A byte, a word and the flags in flip-flops: the slaves are what is
/// stored, the masters are what the next rising edge stores, and a level
/// counts for the power of two of its place.
pub proof fn law_stored_values(row: Seq<FlipFlopState>, place: nat)
    ensures
        row.len() == 8 && place < 8 ==> {
            let held = latched_byte(row);
            let power = vstd::arithmetic::power2::pow2(place);
            &&& row[place as int].slave == Bit::High <==> (held.stored as nat / power) % 2 == 1
            &&& row[place as int].master == Bit::High <==> (held.next as nat / power) % 2 == 1
        },
        row.len() == 16 && place < 16 ==> {
            let held = latched_word(row);
            let power = vstd::arithmetic::power2::pow2(place);
            &&& row[place as int].slave == Bit::High <==> (held.stored as nat / power) % 2 == 1
            &&& row[place as int].master == Bit::High <==> (held.next as nat / power) % 2 == 1
        },
        row.len() == 3 ==> {
            let held = latched_flags(row).stored;
            &&& held.zero <==> row[0].slave == Bit::High
            &&& held.carry <==> row[1].slave == Bit::High
            &&& held.sign <==> row[2].slave == Bit::High
        },
{
    vstd::arithmetic::power2::lemma2_to64();
    utils::lemma_bits_value_bound(latches::slaves(row));
    utils::lemma_bits_value_bound(memory::masters(row));
    if place < row.len() {
        utils::law_binary_digits(latches::slaves(row), place);
        utils::law_binary_digits(memory::masters(row), place);
    }
}

/// The control lines of a machine are those that its control unit raises
/// for the stored T-state, the stored instruction and the stored flags.
pub proof fn law_control_word_raised(
    machine: Machine,
    inputs: Seq<Bit>,
    outputs: Seq<Signal>,
    line: int,
)
    requires
        machine.t.stored < 16,
        0 <= line < 29,
        control::inputs_say(
            inputs,
            machine.t.stored as int,
            control::instruction_of(machine.ir.stored),
            machine.flags.stored.zero,
            machine.flags.stored.carry,
            machine.flags.stored.sign,
        ),
    ensures
        control_word(machine).len() == 29,
        Signal::Driven(control_word(machine)[line]) == control::ControlUnit::respond(
            (),
            hardware::driven(inputs),
            outputs,
        ).outputs[line],
{
    let t = machine.t.stored as int;
    let instr = control::instruction_of(machine.ir.stored);
    let flags = machine.flags.stored;
    control::law_opcode_table(machine.ir.stored);
    assert(inputs =~= control::control_inputs(t, instr, flags.zero, flags.carry, flags.sign));
    control::law_control_word(line, t, instr, flags.zero, flags.carry, flags.sign);
}

/// A Low level of the clock changes nothing that is stored, and a High level
/// changes nothing that waits to be stored. At a High level the counters
/// store what waits, and the registers do while their line is on.
pub proof fn law_levels(machine: Machine)
    requires
        machine.memory.len() == 0x1_0000,
    ensures
        ({
            let low = tick(machine, Bit::Low);
            let high = tick(machine, Bit::High);
            let word = control_word(machine);
            &&& low.pc.stored == machine.pc.stored && low.sp.stored == machine.sp.stored
            &&& low.mar.stored == machine.mar.stored && low.ir.stored == machine.ir.stored
            &&& low.acc.stored == machine.acc.stored && low.b.stored == machine.b.stored
            &&& low.out.stored == machine.out.stored && low.flags.stored == machine.flags.stored
            &&& low.t.stored == machine.t.stored && low.halted == machine.halted
            &&& low.ret_lo.stored == machine.ret_lo.stored
            &&& low.ret_hi.stored == machine.ret_hi.stored
            &&& low.memory.len() == 0x1_0000
            &&& forall|i: int|
                0 <= i < 0x1_0000 ==> (#[trigger] low.memory[i]).stored == machine.memory[i].stored
            &&& rises(machine.pc, high.pc, true)
            &&& rises(machine.sp, high.sp, true)
            &&& rises(machine.mar, high.mar, true)
            &&& rises(machine.t, high.t, true)
            &&& rises(machine.ret_lo, high.ret_lo, on(word, LN_PC_LOAD))
            &&& rises(machine.ret_hi, high.ret_hi, on(word, LN_PC_LOAD))
            &&& rises(machine.ir, high.ir, on(word, LN_IR_IN))
            &&& rises(machine.acc, high.acc, on(word, LN_ACC_IN))
            &&& rises(machine.b, high.b, on(word, LN_B_IN))
            &&& rises(machine.out, high.out, on(word, LN_OUT_SAVE))
            &&& rises(machine.flags, high.flags, on(word, LN_FLAGS_IN))
            &&& high.memory.len() == 0x1_0000
            &&& forall|i: int|
                0 <= i < 0x1_0000 ==> rises(
                    machine.memory[i],
                    #[trigger] high.memory[i],
                    on(word, LN_MEM_WRITE) && i == address_word(word, machine),
                )
            &&& high.halted <==> machine.halted || on(word, LN_HALT)
            &&& low.input == machine.input && high.input == machine.input
            &&& low.clock == machine.clock && high.clock == machine.clock
        }),
{
    reveal(tick_under);
    law_control_word_undisputed(machine);
}

/// Whether a High level of the clock stored what waited, or kept what was
/// stored.
pub open spec fn rises<T>(before: Latched<T>, after: Latched<T>, save: bool) -> bool {
    &&& after.next == before.next
    &&& after.stored == if save {
        before.next
    } else {
        before.stored
    }
}

/// An instruction step from any T-state ends at T0 or in a halt. It is one
/// micro-step where that gets there already, and otherwise one micro-step
/// and an instruction step from there.
pub proof fn law_step_finishes(machine: Machine)
    requires
        !machine.halted,
        machine.t.stored < 16,
    ensures
        step(machine).t.stored == 0 || step(machine).halted,
        ({
            let next = micro_step(machine);
            step(machine) == if next.t.stored == 0 || next.halted {
                next
            } else {
                step(next)
            }
        }),
{
    let next = micro_step(machine);
    lemma_micro_step_advances(machine);
    lemma_fetch_reached(next, 15);
    if !(next.t.stored == 0 || next.halted) {
        let later = micro_step(next);
        lemma_micro_step_advances(next);
        lemma_fetch_reached(later, 14);
    }
}

/// Enough micro-steps reach T0 or a halt, and one more allowed makes no
/// difference.
proof fn lemma_fetch_reached(machine: Machine, fuel: nat)
    requires
        machine.t.stored < 16,
        machine.t.stored == 0 || machine.halted || fuel + machine.t.stored >= 16,
    ensures
        until_fetch(machine, fuel).t.stored == 0 || until_fetch(machine, fuel).halted,
        until_fetch(machine, fuel + 1) == until_fetch(machine, fuel),
    decreases fuel,
{
    if !(machine.t.stored == 0 || machine.halted) {
        lemma_micro_step_advances(machine);
        lemma_fetch_reached(micro_step(machine), (fuel - 1) as nat);
    }
}

} // verus!
