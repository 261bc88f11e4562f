//! Random access memories built from 8-bit registers.
//!
//! * [`Ram256Bits`]: sixteen 8-bit registers addressed by a 4-to-16
//!   decoder. Only the addressed register drives the output bus on load.
//! * [`Ram64KBits`]: 65536 bytes built by cascading 4096 of those chips.
//!   The three high address nibbles select one chip through cascaded
//!   decoders and AND gates; the low nibble addresses the 16 registers
//!   inside every chip.
//!
//! The view of a memory is its rows of flip-flops in address order.

use vstd::arithmetic::power2;
use vstd::prelude::*;

use crate::decoder::{self, Decoder4to16};
use crate::gates::{self, AndGate};
use crate::hardware::{self, bus8, Bit, Component, HardwareError, Response, Signal};
use crate::latches::{self, FlipFlopState};
use crate::memory::{self, Register8Bits};
use crate::utils;
use crate::FAST;

verus! {

/// Number of address bits of a [`Ram256Bits`].
pub const ADDRESS_BITS: usize = 4;

/// Number of registers of a [`Ram256Bits`].
pub const RAM_REGISTERS: usize = 16;

/// Number of address bits of a [`Ram64KBits`]: a 16-bit address space.
pub const RAM64K_ADDRESS_BITS: usize = 16;

/// Number of [`Ram256Bits`] chips cascaded into a [`Ram64KBits`]:
/// 4096 chips x 16 registers x 8 bits = 65536 bytes.
pub const RAM64K_CHIPS: usize = 4096;

/// Number of bank lines: the two highest nibbles select one of 256
/// banks, the third nibble selects a chip inside the bank.
const RAM64K_BANKS: usize = 256;

/// A register whose flip-flops settled on the given levels.
pub open spec fn settled(bits: Seq<Bit>) -> Seq<FlipFlopState> {
    Seq::new(bits.len(), |i: int| FlipFlopState { master: bits[i], slave: bits[i] })
}

/// The number that four or sixteen driven address lines spell.
pub open spec fn address_value(address: Seq<Signal>) -> nat {
    utils::bits_value(hardware::levels(address))
}

/// How many of the first `count` registers step before one refuses its
/// inputs.
pub open spec fn cells_stepped(
    rows: Seq<Seq<FlipFlopState>>,
    data: Seq<Signal>,
    lines: Seq<Signal>,
    clock: Signal,
    save: Signal,
    count: nat,
) -> nat
    decreases count,
{
    if count == 0 {
        0
    } else {
        let before = cells_stepped(rows, data, lines, clock, save, (count - 1) as nat);
        if before == count - 1 && memory::row_result(
            rows[count - 1],
            data,
            clock,
            gates::and_signal(lines[count - 1], save),
        ) is Ok {
            count
        } else {
            before
        }
    }
}

/// What the registers of a chip remember next: they step in address
/// order, each with `save` gated by its select line; the first one that
/// refuses its inputs ends the propagation.
pub open spec fn cells_next(
    rows: Seq<Seq<FlipFlopState>>,
    data: Seq<Signal>,
    lines: Seq<Signal>,
    clock: Signal,
    save: Signal,
) -> Seq<Seq<FlipFlopState>> {
    Seq::new(
        16,
        |i: int|
            if i <= cells_stepped(rows, data, lines, clock, save, 16) {
                memory::row_next(rows[i], data, clock, gates::and_signal(lines[i], save))
            } else {
                rows[i]
            },
    )
}

/// What a memory of stored rows puts on its outputs.
pub open spec fn read_out(
    rows: Seq<Seq<FlipFlopState>>,
    address: Seq<Signal>,
    load: Signal,
) -> Seq<Signal> {
    if hardware::all_driven(address) && load == Signal::Driven(Bit::High) {
        hardware::driven(latches::slaves(rows[address_value(address) as int]))
    } else {
        hardware::floating(8)
    }
}

/// What a propagation through all registers of a chip does: a Low clock
/// preloads all sixteen registers, a High clock stores into the addressed
/// one, and the addressed byte drives the outputs while `load` is High.
pub open spec fn cells_response(
    rows: Seq<Seq<FlipFlopState>>,
    data: Seq<Signal>,
    address: Seq<Signal>,
    clock: Signal,
    save: Signal,
    load: Signal,
    outputs: Seq<Signal>,
) -> Response<Seq<Seq<FlipFlopState>>> {
    let lines = decoder::decoded_lines(address);
    let next = cells_next(rows, data, lines, clock, save);
    if cells_stepped(rows, data, lines, clock, save, 16) == 16 {
        Response { state: next, outputs: read_out(next, address, load), result: Ok(()) }
    } else {
        Response { state: next, outputs, result: Err(HardwareError::InvalidBit) }
    }
}

/// What a chip does. A chip that is neither written nor read is skipped.
pub open spec fn chip_response(
    rows: Seq<Seq<FlipFlopState>>,
    data: Seq<Signal>,
    address: Seq<Signal>,
    clock: Signal,
    save: Signal,
    load: Signal,
    outputs: Seq<Signal>,
) -> Response<Seq<Seq<FlipFlopState>>> {
    if save == Signal::Driven(Bit::Low) && load == Signal::Driven(Bit::Low) {
        Response { state: rows, outputs: hardware::floating(8), result: Ok(()) }
    } else {
        cells_response(rows, data, address, clock, save, load, outputs)
    }
}

/// A register that refuses its inputs ends the propagation there.
proof fn lemma_cells_stop(
    rows: Seq<Seq<FlipFlopState>>,
    data: Seq<Signal>,
    lines: Seq<Signal>,
    clock: Signal,
    save: Signal,
    stop: nat,
    count: nat,
)
    requires
        stop < count,
        cells_stepped(rows, data, lines, clock, save, stop) == stop,
        memory::row_result(
            rows[stop as int],
            data,
            clock,
            gates::and_signal(lines[stop as int], save),
        ) is Err,
    ensures
        cells_stepped(rows, data, lines, clock, save, count) == stop,
    decreases count,
{
    if count > stop + 1 {
        lemma_cells_stop(rows, data, lines, clock, save, stop, (count - 1) as nat);
    }
}

/// Registers that all accept their inputs step as a whole.
proof fn lemma_cells_all(
    rows: Seq<Seq<FlipFlopState>>,
    data: Seq<Signal>,
    lines: Seq<Signal>,
    clock: Signal,
    save: Signal,
    count: nat,
)
    requires
        forall|i: int|
            0 <= i < count ==> memory::row_result(
                #[trigger] rows[i],
                data,
                clock,
                gates::and_signal(lines[i], save),
            ) is Ok,
    ensures
        cells_stepped(rows, data, lines, clock, save, count) == count,
    decreases count,
{
    if count > 0 {
        lemma_cells_all(rows, data, lines, clock, save, (count - 1) as nat);
        assert(memory::row_result(
            rows[count - 1],
            data,
            clock,
            gates::and_signal(lines[count - 1], save),
        ) is Ok);
    }
}

/// Sixteen registers behind their gated load lines put the addressed
/// byte on the bus.
proof fn lemma_cells_bus(
    drivers: Seq<[Signal; 8]>,
    rows: Seq<Seq<FlipFlopState>>,
    address: Seq<Signal>,
    load: Signal,
)
    requires
        drivers.len() == 16,
        rows.len() == 16,
        address.len() == 4,
        forall|i: int| 0 <= i < 16 ==> (#[trigger] rows[i]).len() == 8,
        forall|i: int|
            0 <= i < 16 ==> (#[trigger] drivers[i])@ == hardware::gated_row(
                gates::and_signal(decoder::decoded_lines(address)[i], load),
                hardware::driven(latches::slaves(rows[i])),
            ),
    ensures
        hardware::bused(drivers) == Ok::<Seq<Signal>, HardwareError>(
            read_out(rows, address, load),
        ),
{
    let lines = decoder::decoded_lines(address);
    if hardware::all_driven(address) && load == Signal::Driven(Bit::High) {
        let bits = hardware::levels(address);
        let chosen = utils::bits_value(bits);
        decoder::law_decoder4_one_hot(bits);
        assert(hardware::driven(bits) =~= address) by {
            assert forall|i: int| 0 <= i < 4 implies hardware::driven(bits)[i] == address[i] by {
                assert(address[i] is Driven);
            }
        }
        assert forall|i: int| 0 <= i < 16 && i != chosen implies (#[trigger] drivers[i])@
            == hardware::floating(8) by {
            assert(lines[i] == Signal::Driven(Bit::Low));
            assert(drivers[i]@ =~= hardware::floating(8));
        }
        hardware::law_bus_single_driver(drivers, chosen as int);
        assert(lines[chosen as int] == Signal::Driven(Bit::High));
        assert(rows[chosen as int].len() == 8);
        assert(drivers[chosen as int]@ =~= hardware::driven(
            latches::slaves(rows[chosen as int]),
        ));
    } else {
        if !hardware::all_driven(address) {
            decoder::law_decoder4_floating(address);
        }
        assert forall|i: int| 0 <= i < 16 implies (#[trigger] drivers[i])@ == hardware::floating(
            8,
        ) by {
            assert(lines[i] != Signal::Driven(Bit::High) || load != Signal::Driven(Bit::High));
            assert(rows[i].len() == 8);
            assert(drivers[i]@ =~= hardware::floating(8));
        }
        hardware::law_bus_idle(drivers);
    }
}

/// Float eight output lines.
fn float_byte(outputs: &mut [Signal])
    requires
        old(outputs)@.len() == 8,
    ensures
        final(outputs)@ == hardware::floating(8),
{
    for index in 0..8
        invariant
            outputs@.len() == 8,
            forall|k: int| 0 <= k < index ==> #[trigger] outputs@[k] is HighImpedance,
    {
        outputs[index] = Signal::HighImpedance;
    }
    assert(outputs@ =~= hardware::floating(8));
}

/// Put a byte on eight output lines.
fn copy_byte(byte: &[Signal; 8], outputs: &mut [Signal])
    requires
        old(outputs)@.len() == 8,
    ensures
        final(outputs)@ == byte@,
{
    for index in 0..8
        invariant
            outputs@.len() == 8,
            forall|k: int| 0 <= k < index ==> #[trigger] outputs@[k] == byte@[k],
    {
        outputs[index] = byte[index];
    }
    assert(outputs@ =~= byte@);
}

/// The input lines of a register: the first eight of `inputs`, then the
/// clock, `save` and `load`.
fn cell_lines(inputs: &[Signal], clock: Signal, save: Signal, load: Signal) -> (lines: [Signal; 11])
    requires
        inputs@.len() >= 8,
    ensures
        lines@.subrange(0, 8) == inputs@.subrange(0, 8),
        lines@[8] == clock,
        lines@[9] == save,
        lines@[10] == load,
{
    let lines = [
        inputs[0],
        inputs[1],
        inputs[2],
        inputs[3],
        inputs[4],
        inputs[5],
        inputs[6],
        inputs[7],
        clock,
        save,
        load,
    ];
    assert(lines@.subrange(0, 8) =~= inputs@.subrange(0, 8));
    lines
}

/// 256-bit RAM: 16 registers of 8 bits selected by a 4-bit address.
#[derive(Debug)]
pub struct Ram256Bits {
    registers: [Register8Bits; RAM_REGISTERS],
    decoder: Decoder4to16,
    save_gates: [AndGate; RAM_REGISTERS],
    load_gates: [AndGate; RAM_REGISTERS],
}

impl Default for Ram256Bits {
    fn default() -> (ram: Ram256Bits)
        ensures
            ram.wf(),
            ram@ == Seq::new(16, |i: int| memory::blank_row(8)),
    {
        let ram = Ram256Bits {
            registers: [
                Register8Bits::default(),
                Register8Bits::default(),
                Register8Bits::default(),
                Register8Bits::default(),
                Register8Bits::default(),
                Register8Bits::default(),
                Register8Bits::default(),
                Register8Bits::default(),
                Register8Bits::default(),
                Register8Bits::default(),
                Register8Bits::default(),
                Register8Bits::default(),
                Register8Bits::default(),
                Register8Bits::default(),
                Register8Bits::default(),
                Register8Bits::default(),
            ],
            decoder: Decoder4to16::default(),
            save_gates: [AndGate::default(); RAM_REGISTERS],
            load_gates: [AndGate::default(); RAM_REGISTERS],
        };
        assert(ram@ =~= Seq::new(16, |i: int| memory::blank_row(8)));
        ram
    }
}

impl View for Ram256Bits {
    type V = Seq<Seq<FlipFlopState>>;

    closed spec fn view(&self) -> Seq<Seq<FlipFlopState>> {
        Seq::new(16, |i: int| self.registers@[i]@)
    }
}

impl Ram256Bits {
    /// The stored content of every register, in address order.
    pub fn state(&self) -> (bytes: [[Bit; 8]; RAM_REGISTERS])
        requires
            self.wf(),
        ensures
            forall|i: int| 0 <= i < 16 ==> (#[trigger] bytes@[i])@ == latches::slaves(self@[i]),
    {
        let mut bytes = [[Bit::Low; 8]; RAM_REGISTERS];
        for index in 0..RAM_REGISTERS
            invariant
                self.wf(),
                forall|i: int|
                    0 <= i < index ==> (#[trigger] bytes@[i])@ == latches::slaves(self@[i]),
        {
            bytes[index] = self.registers[index].state();
        }
        bytes
    }

    /// A chip has sixteen registers of eight flip-flops.
    pub proof fn lemma_shape(&self)
        ensures
            self@.len() == 16,
            forall|i: int| 0 <= i < 16 ==> (#[trigger] self@[i]).len() == 8,
    {
        assert forall|i: int| 0 <= i < 16 implies (#[trigger] self@[i]).len() == 8 by {
            self.registers@[i].lemma_width();
        }
    }

    /// Force-write `data` at `address`, outside any CPU clock cycle.
    ///
    /// This emulates the LOW->HIGH->LOW clock pulse needed by the
    /// register's flip-flops to capture `data`. It is meant for loading a
    /// program before execution starts.
    pub fn write_byte(&mut self, address: usize, data: [Bit; 8]) -> (r: Result<(), HardwareError>)
        requires
            old(self).wf(),
            address < RAM_REGISTERS,
        ensures
            final(self).wf(),
            r == Ok::<(), HardwareError>(()),
            final(self)@ == old(self)@.update(address as int, settled(data@)),
    {
        let mut inputs = [
            Signal::Driven(data[0]),
            Signal::Driven(data[1]),
            Signal::Driven(data[2]),
            Signal::Driven(data[3]),
            Signal::Driven(data[4]),
            Signal::Driven(data[5]),
            Signal::Driven(data[6]),
            Signal::Driven(data[7]),
            Signal::Driven(Bit::Low),
            Signal::Driven(Bit::Low),
            Signal::Driven(Bit::Low),
        ];
        let ghost lines = hardware::driven(data@);
        let ghost row = self@[address as int];
        proof {
            self.lemma_shape();
            assert(row.len() == 8);
        }
        let mut stored = [Signal::HighImpedance; 8];

        // The master latch receives the data while the clock is LOW, the
        // slave latch updates during HIGH, then the clock returns LOW.
        inputs[9] = Signal::Driven(Bit::High);
        proof {
            assert(inputs@.subrange(0, 8) =~= lines);
            memory::law_register_preloads(row, data@, Signal::Driven(Bit::High));
        }
        self.registers[address].conduct_into(&inputs, &mut stored)?;

        inputs[8] = Signal::Driven(Bit::High);
        proof {
            assert(inputs@.subrange(0, 8) =~= lines);
            memory::law_register_captures(memory::preloaded(row, data@), lines);
        }
        self.registers[address].conduct_into(&inputs, &mut stored)?;

        inputs[8] = Signal::Driven(Bit::Low);
        inputs[9] = Signal::Driven(Bit::Low);
        proof {
            assert(inputs@.subrange(0, 8) =~= lines);
            memory::law_register_preloads(
                memory::captured(memory::preloaded(row, data@)),
                data@,
                Signal::Driven(Bit::Low),
            );
        }
        self.registers[address].conduct_into(&inputs, &mut stored)?;

        proof {
            assert(self.registers@[address as int]@ =~= settled(data@));
            assert(self@ =~= old(self)@.update(address as int, settled(data@)));
        }
        Ok(())
    }
}

impl Component for Ram256Bits {
    /// Inputs:
    ///
    /// - 0..8:   data, least significant bit first
    /// - 8..12:  address, least significant bit first
    /// - 12:     clock
    /// - 13:     save
    /// - 14:     load
    ///
    /// Outputs:
    ///
    /// - 0..8: the addressed byte, gated by `load`. Every output floats when
    ///   `load` is Low.
    ///
    /// Write `data` at `address` on the rising edge, or read it.
    ///
    /// The decoder activates a single register. The `save` and `load` signals
    /// are ANDed with that selection, so only the addressed register can be
    /// written or can drive the output bus.
    const INPUTS: usize = 15;

    const OUTPUTS: usize = 8;

    open spec fn fan_in() -> nat {
        15
    }

    open spec fn fan_out() -> nat {
        8
    }

    proof fn arity() {
    }

    closed spec fn wf(&self) -> bool {
        forall|i: int| 0 <= i < 16 ==> (#[trigger] self.registers@[i]).wf()
    }

    open spec fn admits(state: Seq<Seq<FlipFlopState>>, inputs: Seq<Signal>, slots: nat) -> bool {
        slots == 8
    }

    open spec fn respond(
        state: Seq<Seq<FlipFlopState>>,
        inputs: Seq<Signal>,
        outputs: Seq<Signal>,
    ) -> Response<Seq<Seq<FlipFlopState>>> {
        chip_response(
            state,
            inputs.subrange(0, 8),
            inputs.subrange(8, 12),
            inputs[12],
            inputs[13],
            inputs[14],
            outputs,
        )
    }

    open spec fn transistors() -> nat {
        9048
    }

    fn conduct_into(&mut self, inputs: &[Signal], outputs: &mut [Signal]) -> (r: Result<
        (),
        HardwareError,
    >) {
        if inputs.len() != 15 {
            return Err(
                HardwareError::InvalidInputCount { expected: 15, actual: inputs.len() },
            );
        }
        let clock = inputs[12];
        let save = inputs[13];
        let load = inputs[14];
        let ghost rows = self@;
        let ghost data = inputs@.subrange(0, 8);
        let ghost address = inputs@.subrange(8, 12);
        let ghost lines = decoder::decoded_lines(address);

        // A memory receiving neither `save` nor `load` can neither change
        // state nor drive the bus: skip the decoder, the gating gates and
        // every register.
        if FAST && save == Signal::Driven(Bit::Low) && load == Signal::Driven(Bit::Low) {
            float_byte(outputs);
            return Ok(());
        }

        let mut selected = [Signal::HighImpedance; 16];
        self.decoder.conduct_into(
            &[inputs[8], inputs[9], inputs[10], inputs[11]],
            &mut selected,
        )?;
        assert(seq![inputs@[8], inputs@[9], inputs@[10], inputs@[11]] =~= address);

        let mut drivers = [[Signal::HighImpedance; 8]; RAM_REGISTERS];
        proof {
            self.lemma_shape();
        }
        for index in 0..RAM_REGISTERS
            invariant
                inputs@.len() == 15,
                outputs@ == old(outputs)@,
                outputs@.len() == 8,
                rows == old(self)@,
                data == inputs@.subrange(0, 8),
                address == inputs@.subrange(8, 12),
                lines == decoder::decoded_lines(address),
                selected@ == lines,
                clock == inputs@[12],
                save == inputs@[13],
                load == inputs@[14],
                !(save == Signal::Driven(Bit::Low) && load == Signal::Driven(Bit::Low)),
                rows.len() == 16,
                forall|i: int| 0 <= i < 16 ==> (#[trigger] self.registers@[i]).wf(),
                forall|i: int| 0 <= i < 16 ==> (#[trigger] rows[i]).len() == 8,
                cells_stepped(rows, data, lines, clock, save, index as nat) == index,
                forall|i: int|
                    0 <= i < index ==> (#[trigger] self.registers@[i])@ == memory::row_next(
                        rows[i],
                        data,
                        clock,
                        gates::and_signal(lines[i], save),
                    ),
                forall|i: int| index <= i < 16 ==> (#[trigger] self.registers@[i])@ == rows[i],
                forall|i: int|
                    0 <= i < index ==> (#[trigger] drivers@[i])@ == hardware::gated_row(
                        gates::and_signal(lines[i], load),
                        hardware::driven(
                            latches::slaves(
                                memory::row_next(
                                    rows[i],
                                    data,
                                    clock,
                                    gates::and_signal(lines[i], save),
                                ),
                            ),
                        ),
                    ),
        {
            let mut single = [Signal::HighImpedance];
            self.save_gates[index].conduct_into(&[selected[index], save], &mut single)?;
            let register_save = single[0];
            self.load_gates[index].conduct_into(&[selected[index], load], &mut single)?;
            let register_load = single[0];

            // Unselected registers skip themselves at a High clock: their
            // gated `save` and `load` are both Low.
            let register_inputs = cell_lines(inputs, clock, register_save, register_load);
            let mut row = [Signal::HighImpedance; 8];
            match self.registers[index].conduct_into(&register_inputs, &mut row) {
                Ok(()) => {},
                Err(error) => {
                    proof {
                        lemma_cells_stop(rows, data, lines, clock, save, index as nat, 16);
                        assert(self@ =~= cells_next(rows, data, lines, clock, save));
                    }
                    return Err(error);
                },
            }
            assert(row@ =~= hardware::gated_row(
                register_load,
                hardware::driven(latches::slaves(self.registers@[index as int]@)),
            ));
            drivers[index] = row;
        }
        proof {
            let next = cells_next(rows, data, lines, clock, save);
            assert(self@ =~= next);
            assert forall|i: int| 0 <= i < 16 implies (#[trigger] next[i]).len() == 8 by {
                assert(rows[i].len() == 8);
            }
            lemma_cells_bus(drivers@, next, address, load);
        }
        let resolved = bus8(&drivers)?;
        copy_byte(&resolved, outputs);
        Ok(())
    }

    fn transistor_count(&self) -> (count: usize) {
        let mut registers: usize = 0;
        let mut save_gates: usize = 0;
        let mut load_gates: usize = 0;
        for index in 0..RAM_REGISTERS
            invariant
                self.wf(),
                registers == 544 * index,
                save_gates == 6 * index,
                load_gates == 6 * index,
        {
            registers += self.registers[index].transistor_count();
            save_gates += self.save_gates[index].transistor_count();
            load_gates += self.load_gates[index].transistor_count();
        }
        registers + self.decoder.transistor_count() + save_gates + load_gates
    }
}

/// What a chip does with driven lines: a Low clock preloads all its
/// registers, a High clock stores into the addressed one when `save` is
/// High, and the addressed byte drives the outputs while `load` is High.
pub open spec fn accessed(
    rows: Seq<Seq<FlipFlopState>>,
    bits: Seq<Bit>,
    address: int,
    clock: Bit,
    save: bool,
) -> Seq<Seq<FlipFlopState>> {
    match clock {
        Bit::Low => Seq::new(
            rows.len(),
            |i: int|
                if i / 16 == address / 16 {
                    memory::preloaded(rows[i], bits)
                } else {
                    rows[i]
                },
        ),
        Bit::High => if save {
            rows.update(address, memory::captured(rows[address]))
        } else {
            rows
        },
    }
}

/// A chip with driven lines never refuses them, and does what
/// [`accessed`] says.
pub proof fn law_chip_access(
    rows: Seq<Seq<FlipFlopState>>,
    bits: Seq<Bit>,
    address: Seq<Signal>,
    clock: Bit,
    save: bool,
    load: bool,
    outputs: Seq<Signal>,
)
    requires
        rows.len() == 16,
        forall|i: int| 0 <= i < 16 ==> (#[trigger] rows[i]).len() == 8,
        bits.len() == 8,
        address.len() == 4,
        hardware::all_driven(address),
        save || load,
    ensures
        ({
            let response = chip_response(
                rows,
                hardware::driven(bits),
                address,
                Signal::Driven(clock),
                Signal::Driven(hardware::bit_of(save)),
                Signal::Driven(hardware::bit_of(load)),
                outputs,
            );
            let index = address_value(address) as int;
            &&& 0 <= index < 16
            &&& response.result == Ok::<(), HardwareError>(())
            &&& response.state == accessed(rows, bits, index, clock, save)
            &&& response.outputs == if load {
                hardware::driven(latches::slaves(response.state[index]))
            } else {
                hardware::floating(8)
            }
        }),
{
    let data = hardware::driven(bits);
    let lines = decoder::decoded_lines(address);
    let tick = Signal::Driven(clock);
    let gate = Signal::Driven(hardware::bit_of(save));
    let index = address_value(address) as int;
    lemma_nibble_below(hardware::levels(address), Seq::empty());
    let next = accessed(rows, bits, index, clock, save);
    assert forall|i: int| 0 <= i < 16 implies {
        &&& memory::row_result(
            #[trigger] rows[i],
            data,
            tick,
            gates::and_signal(lines[i], gate),
        ) is Ok
        &&& memory::row_next(rows[i], data, tick, gates::and_signal(lines[i], gate)) == next[i]
    } by {
        lemma_nibble_line(address, i);
        let register_save = gates::and_signal(lines[i], gate);
        assert(register_save == Signal::Driven(hardware::bit_of(i == index && save)));
        memory::law_register_preloads(rows[i], bits, register_save);
        memory::law_register_captures(rows[i], data);
        memory::law_register_holds(rows[i], data);
    }
    lemma_cells_all(rows, data, lines, tick, gate, 16);
    assert(cells_next(rows, data, lines, tick, gate) =~= next) by {
        assert forall|i: int| 0 <= i < 16 implies cells_next(rows, data, lines, tick, gate)[i]
            == next[i] by {
            assert(rows[i].len() == 8);
        }
    }
}

/// Skipping an idle chip is lossless: with driven data, a propagation
/// through all its registers would end well, float the outputs and keep
/// every stored byte. It would change at most what a Low clock preloads,
/// and a chip that is written preloads anew.
pub proof fn law_chip_skip_lossless(
    rows: Seq<Seq<FlipFlopState>>,
    bits: Seq<Bit>,
    address: Seq<Signal>,
    clock: Bit,
    outputs: Seq<Signal>,
)
    requires
        rows.len() == 16,
        forall|i: int| 0 <= i < 16 ==> (#[trigger] rows[i]).len() == 8,
        bits.len() == 8,
        address.len() == 4,
    ensures
        ({
            let low = Signal::Driven(Bit::Low);
            let data = hardware::driven(bits);
            let full = cells_response(
                rows,
                data,
                address,
                Signal::Driven(clock),
                low,
                low,
                outputs,
            );
            let skipped = chip_response(
                rows,
                data,
                address,
                Signal::Driven(clock),
                low,
                low,
                outputs,
            );
            &&& full.result == skipped.result
            &&& full.outputs == skipped.outputs
            &&& contents(full.state) == contents(skipped.state)
            &&& clock == Bit::High ==> full.state == skipped.state
        }),
{
    let low = Signal::Driven(Bit::Low);
    let data = hardware::driven(bits);
    let lines = decoder::decoded_lines(address);
    let tick = Signal::Driven(clock);
    let next = cells_next(rows, data, lines, tick, low);
    assert forall|i: int| 0 <= i < 16 implies {
        let row = memory::row_next(rows[i], data, tick, gates::and_signal(lines[i], low));
        &&& memory::row_result(
            #[trigger] rows[i],
            data,
            tick,
            gates::and_signal(lines[i], low),
        ) is Ok
        &&& latches::slaves(row) == latches::slaves(rows[i])
        &&& clock == Bit::High ==> row == rows[i]
    } by {
        assert(gates::and_signal(lines[i], low) == low);
        memory::law_register_preloads(rows[i], bits, low);
        memory::law_register_holds(rows[i], data);
    }
    lemma_cells_all(rows, data, lines, tick, low, 16);
    assert forall|i: int| 0 <= i < 16 implies contents(next)[i] == contents(rows)[i] && (clock
        == Bit::High ==> next[i] == rows[i]) by {
        assert(rows[i].len() == 8);
    }
    assert(contents(next) =~= contents(rows));
    if clock == Bit::High {
        assert(next =~= rows);
    }
}

/// The select line of a bank: the two high address nibbles.
pub open spec fn bank_line(address: Seq<Signal>, bank: int) -> Signal {
    gates::and_signal(
        decoder::decoded_lines(address.subrange(12, 16))[bank / 16],
        decoder::decoded_lines(address.subrange(8, 12))[bank % 16],
    )
}

/// The select line of a chip: the line of its bank and the line of its
/// place in the bank.
pub open spec fn chip_select(address: Seq<Signal>, chip: int) -> Signal {
    gates::and_signal(
        bank_line(address, chip / 16),
        decoder::decoded_lines(address.subrange(4, 8))[chip % 16],
    )
}

/// The rows of one chip.
pub open spec fn chip_rows(rows: Seq<Seq<FlipFlopState>>, chip: int) -> Seq<Seq<FlipFlopState>> {
    rows.subrange(16 * chip, 16 * chip + 16)
}

/// What one chip of the array does: its select line gates `save` and
/// `load`.
#[verifier::opaque]
pub open spec fn selected_response(
    rows: Seq<Seq<FlipFlopState>>,
    data: Seq<Signal>,
    address: Seq<Signal>,
    clock: Signal,
    save: Signal,
    load: Signal,
    chip: int,
) -> Response<Seq<Seq<FlipFlopState>>> {
    let select = chip_select(address, chip);
    chip_response(
        chip_rows(rows, chip),
        data,
        address.subrange(0, 4),
        clock,
        gates::and_signal(select, save),
        gates::and_signal(select, load),
        hardware::floating(8),
    )
}

/// Whether a chip of the array steps and drives exactly `driver`.
spec fn chip_drives(
    rows: Seq<Seq<FlipFlopState>>,
    data: Seq<Signal>,
    address: Seq<Signal>,
    clock: Signal,
    save: Signal,
    load: Signal,
    chip: int,
    driver: Seq<Signal>,
) -> bool {
    let response = selected_response(rows, data, address, clock, save, load, chip);
    response.result is Ok && driver == response.outputs
}

/// How many of the first `count` chips step before one refuses its
/// inputs.
pub open spec fn chips_stepped(
    rows: Seq<Seq<FlipFlopState>>,
    data: Seq<Signal>,
    address: Seq<Signal>,
    clock: Signal,
    save: Signal,
    load: Signal,
    count: nat,
) -> nat
    decreases count,
{
    if count == 0 {
        0
    } else {
        let before = chips_stepped(rows, data, address, clock, save, load, (count - 1) as nat);
        if before == count - 1 && selected_response(
            rows,
            data,
            address,
            clock,
            save,
            load,
            count - 1,
        ).result is Ok {
            count
        } else {
            before
        }
    }
}

/// What the chips of the array remember next: they step in order; the
/// first one that refuses its inputs ends the propagation.
pub open spec fn chips_next(
    rows: Seq<Seq<FlipFlopState>>,
    data: Seq<Signal>,
    address: Seq<Signal>,
    clock: Signal,
    save: Signal,
    load: Signal,
) -> Seq<Seq<FlipFlopState>> {
    Seq::new(
        0x1_0000,
        |i: int|
            if i / 16 <= chips_stepped(rows, data, address, clock, save, load, 4096) {
                selected_response(rows, data, address, clock, save, load, i / 16).state[i % 16]
            } else {
                rows[i]
            },
    )
}

/// What the whole array does. An array that is neither written nor read
/// is skipped.
pub open spec fn array_response(
    rows: Seq<Seq<FlipFlopState>>,
    data: Seq<Signal>,
    address: Seq<Signal>,
    clock: Signal,
    save: Signal,
    load: Signal,
    outputs: Seq<Signal>,
) -> Response<Seq<Seq<FlipFlopState>>> {
    if save == Signal::Driven(Bit::Low) && load == Signal::Driven(Bit::Low) {
        Response { state: rows, outputs: hardware::floating(8), result: Ok(()) }
    } else {
        let next = chips_next(rows, data, address, clock, save, load);
        if chips_stepped(rows, data, address, clock, save, load, 4096) == 4096 {
            Response { state: next, outputs: read_out(next, address, load), result: Ok(()) }
        } else {
            Response { state: next, outputs, result: Err(HardwareError::InvalidBit) }
        }
    }
}

/// A chip that refuses its inputs ends the propagation there.
proof fn lemma_chips_stop(
    rows: Seq<Seq<FlipFlopState>>,
    data: Seq<Signal>,
    address: Seq<Signal>,
    clock: Signal,
    save: Signal,
    load: Signal,
    stop: nat,
    count: nat,
)
    requires
        stop < count,
        chips_stepped(rows, data, address, clock, save, load, stop) == stop,
        selected_response(rows, data, address, clock, save, load, stop as int).result is Err,
    ensures
        chips_stepped(rows, data, address, clock, save, load, count) == stop,
    decreases count,
{
    if count > stop + 1 {
        lemma_chips_stop(rows, data, address, clock, save, load, stop, (count - 1) as nat);
    }
}

/// Chips that all accept their inputs step as a whole.
proof fn lemma_chips_all(
    rows: Seq<Seq<FlipFlopState>>,
    data: Seq<Signal>,
    address: Seq<Signal>,
    clock: Signal,
    save: Signal,
    load: Signal,
    count: nat,
)
    requires
        forall|chip: int|
            0 <= chip < count ==> (#[trigger] selected_response(
                rows,
                data,
                address,
                clock,
                save,
                load,
                chip,
            )).result is Ok,
    ensures
        chips_stepped(rows, data, address, clock, save, load, count) == count,
    decreases count,
{
    if count > 0 {
        lemma_chips_all(rows, data, address, clock, save, load, (count - 1) as nat);
        assert(selected_response(rows, data, address, clock, save, load, count - 1).result is Ok);
    }
}

/// Four low bits below a row of others.
proof fn lemma_nibble_below(low: Seq<Bit>, high: Seq<Bit>)
    requires
        low.len() == 4,
    ensures
        utils::bits_value(low) < 16,
        utils::bits_value(low + high) == utils::bits_value(low) + 16 * utils::bits_value(high),
{
    power2::lemma2_to64();
    utils::lemma_bits_value_bound(low);
    utils::lemma_bits_value_concat(low, high);
    let p = power2::pow2(low.len());
    let h = utils::bits_value(high);
    assert(p * h == 16 * h) by (nonlinear_arith)
        requires
            p == 16,
    ;
}

/// The value of four address nibbles.
proof fn lemma_nibbles(address: Seq<Signal>)
    requires
        address.len() == 16,
    ensures
        ({
            let n0 = address_value(address.subrange(0, 4));
            let n1 = address_value(address.subrange(4, 8));
            let n2 = address_value(address.subrange(8, 12));
            let n3 = address_value(address.subrange(12, 16));
            &&& n0 < 16 && n1 < 16 && n2 < 16 && n3 < 16
            &&& address_value(address) == n0 + 16 * n1 + 256 * n2 + 4096 * n3
        }),
{
    let bits = hardware::levels(address);
    let b0 = hardware::levels(address.subrange(0, 4));
    let b1 = hardware::levels(address.subrange(4, 8));
    let b2 = hardware::levels(address.subrange(8, 12));
    let b3 = hardware::levels(address.subrange(12, 16));
    lemma_nibble_below(b0, b1 + (b2 + b3));
    lemma_nibble_below(b1, b2 + b3);
    lemma_nibble_below(b2, b3);
    lemma_nibble_below(b3, Seq::empty());
    assert(bits =~= b0 + (b1 + (b2 + b3)));
}

/// A nibble of driven lines raises exactly its own decoder line.
proof fn lemma_nibble_line(nibble: Seq<Signal>, index: int)
    requires
        nibble.len() == 4,
        hardware::all_driven(nibble),
        0 <= index < 16,
    ensures
        decoder::decoded_lines(nibble)[index] == Signal::Driven(
            hardware::bit_of(index == address_value(nibble)),
        ),
{
    let bits = hardware::levels(nibble);
    decoder::law_decoder4_one_hot(bits);
    assert(hardware::driven(bits) =~= nibble) by {
        assert forall|i: int| 0 <= i < 4 implies hardware::driven(bits)[i] == nibble[i] by {
            assert(nibble[i] is Driven);
        }
    }
}

/// A stretch of a driven row is driven.
proof fn lemma_stretch_driven(address: Seq<Signal>, start: int)
    requires
        hardware::all_driven(address),
        0 <= start,
        start + 4 <= address.len(),
    ensures
        hardware::all_driven(address.subrange(start, start + 4)),
{
    let nibble = address.subrange(start, start + 4);
    assert forall|i: int| 0 <= i < nibble.len() implies (#[trigger] nibble[i]) is Driven by {
        assert(address[start + i] is Driven);
    }
}

/// A chip number and its three nibbles.
proof fn lemma_chip_number(chip: int, n0: int, n1: int, n2: int, n3: int)
    requires
        0 <= n0 < 16,
        0 <= n1 < 16,
        0 <= n2 < 16,
        0 <= n3 < 16,
        0 <= chip < 4096,
    ensures
        0 <= n0 + 16 * n1 + 256 * n2 + 4096 * n3 < 0x1_0000,
        (n0 + 16 * n1 + 256 * n2 + 4096 * n3) % 16 == n0,
        (n0 + 16 * n1 + 256 * n2 + 4096 * n3) / 16 == n1 + 16 * n2 + 256 * n3,
        (chip % 16 == n1 && (chip / 16) % 16 == n2 && chip / 16 / 16 == n3) == (chip == n1 + 16 * n2
            + 256 * n3),
{
}

/// A driven address selects exactly one chip.
pub proof fn law_one_chip_selected(address: Seq<Signal>, chip: int)
    requires
        address.len() == 16,
        hardware::all_driven(address),
        0 <= chip < 4096,
    ensures
        address_value(address) < 0x1_0000,
        chip_select(address, chip) == Signal::Driven(
            hardware::bit_of(chip == address_value(address) / 16),
        ),
        address_value(address.subrange(0, 4)) == address_value(address) % 16,
{
    let n0 = address.subrange(0, 4);
    let n1 = address.subrange(4, 8);
    let n2 = address.subrange(8, 12);
    let n3 = address.subrange(12, 16);
    lemma_nibbles(address);
    lemma_chip_number(
        chip,
        address_value(n0) as int,
        address_value(n1) as int,
        address_value(n2) as int,
        address_value(n3) as int,
    );
    lemma_stretch_driven(address, 4);
    lemma_stretch_driven(address, 8);
    lemma_stretch_driven(address, 12);
    lemma_nibble_line(n1, chip % 16);
    lemma_nibble_line(n2, (chip / 16) % 16);
    lemma_nibble_line(n3, chip / 16 / 16);
}

/// An access to the array is an access to the chip that holds the address;
/// the other chips stay as they are.
proof fn lemma_chip_share(
    rows: Seq<Seq<FlipFlopState>>,
    bits: Seq<Bit>,
    address: int,
    clock: Bit,
    save: bool,
    chip: int,
)
    requires
        rows.len() == 0x1_0000,
        0 <= address < 0x1_0000,
        0 <= chip < 4096,
    ensures
        chip_rows(accessed(rows, bits, address, clock, save), chip) == if chip == address / 16 {
            accessed(chip_rows(rows, chip), bits, address % 16, clock, save)
        } else {
            chip_rows(rows, chip)
        },
{
    let own = chip_rows(rows, chip);
    let next = accessed(rows, bits, address, clock, save);
    assert forall|i: int| 0 <= i < 16 implies own[i] == rows[16 * chip + i] && (16 * chip + i) / 16
        == chip && i / 16 == 0 && chip_rows(next, chip)[i] == next[16 * chip + i] by {
    }
    if chip == address / 16 {
        assert(address == 16 * chip + address % 16);
        assert((address % 16) / 16 == 0);
        assert(chip_rows(next, chip) =~= accessed(own, bits, address % 16, clock, save));
    } else {
        assert(chip_rows(next, chip) =~= own);
    }
}

/// A driven word as an address.
proof fn lemma_word_address(address: u16)
    ensures
        ({
            let lines = hardware::driven(utils::word_bits(address));
            &&& lines.len() == 16
            &&& hardware::all_driven(lines)
            &&& address_value(lines) == address
            &&& lines.subrange(0, 4).len() == 4
            &&& hardware::all_driven(lines.subrange(0, 4))
            &&& address_value(lines.subrange(0, 4)) == address % 16
        }),
{
    let lines = hardware::driven(utils::word_bits(address));
    utils::law_word_unpacked(address);
    assert(hardware::levels(lines) =~= utils::word_bits(address));
    lemma_stretch_driven(lines, 0);
    law_one_chip_selected(lines, 0);
}

/// One chip of an array that is accessed: only the selected one changes.
proof fn lemma_chip_accessed(
    rows: Seq<Seq<FlipFlopState>>,
    bits: Seq<Bit>,
    address: u16,
    clock: Bit,
    save: bool,
    load: bool,
    chip: int,
)
    requires
        rows.len() == 0x1_0000,
        forall|i: int| 0 <= i < 0x1_0000 ==> (#[trigger] rows[i]).len() == 8,
        bits.len() == 8,
        save || load,
        0 <= chip < 4096,
    ensures
        ({
            let next = accessed(rows, bits, address as int, clock, save);
            let response = selected_response(
                rows,
                hardware::driven(bits),
                hardware::driven(utils::word_bits(address)),
                Signal::Driven(clock),
                Signal::Driven(hardware::bit_of(save)),
                Signal::Driven(hardware::bit_of(load)),
                chip,
            );
            &&& response.result is Ok
            &&& response.state == chip_rows(next, chip)
        }),
{
    let lines = hardware::driven(utils::word_bits(address));
    let low = lines.subrange(0, 4);
    let own = chip_rows(rows, chip);
    let data = hardware::driven(bits);
    let tick = Signal::Driven(clock);
    let gate = Signal::Driven(hardware::bit_of(save));
    let enable = Signal::Driven(hardware::bit_of(load));
    lemma_word_address(address);
    lemma_chip_share(rows, bits, address as int, clock, save, chip);
    let selected = chip == address as int / 16;
    assert(selected_response(rows, data, lines, tick, gate, enable, chip) == chip_response(
        own,
        data,
        low,
        tick,
        if selected {
            gate
        } else {
            Signal::Driven(Bit::Low)
        },
        if selected {
            enable
        } else {
            Signal::Driven(Bit::Low)
        },
        hardware::floating(8),
    )) by {
        reveal(selected_response);
        law_one_chip_selected(lines, chip);
    }
    if selected {
        assert forall|i: int| 0 <= i < 16 implies (#[trigger] own[i]).len() == 8 by {
            assert(rows[16 * chip + i].len() == 8);
        }
        law_chip_access(own, bits, low, clock, save, load, hardware::floating(8));
    }
}

/// The array with driven lines never refuses them. An idle array changes
/// nothing; otherwise a Low clock preloads the registers of the selected
/// chip, a High clock stores into the addressed register when `save` is
/// High, and the addressed byte drives the outputs while `load` is High.
pub proof fn law_ram_access(
    rows: Seq<Seq<FlipFlopState>>,
    bits: Seq<Bit>,
    address: u16,
    clock: Bit,
    save: bool,
    load: bool,
    outputs: Seq<Signal>,
)
    requires
        rows.len() == 0x1_0000,
        forall|i: int| 0 <= i < 0x1_0000 ==> (#[trigger] rows[i]).len() == 8,
        bits.len() == 8,
    ensures
        ({
            let response = array_response(
                rows,
                hardware::driven(bits),
                hardware::driven(utils::word_bits(address)),
                Signal::Driven(clock),
                Signal::Driven(hardware::bit_of(save)),
                Signal::Driven(hardware::bit_of(load)),
                outputs,
            );
            &&& response.result == Ok::<(), HardwareError>(())
            &&& response.state == if save || load {
                accessed(rows, bits, address as int, clock, save)
            } else {
                rows
            }
            &&& response.outputs == if load {
                hardware::driven(latches::slaves(response.state[address as int]))
            } else {
                hardware::floating(8)
            }
        }),
{
    let data = hardware::driven(bits);
    let lines = hardware::driven(utils::word_bits(address));
    let tick = Signal::Driven(clock);
    let gate = Signal::Driven(hardware::bit_of(save));
    let enable = Signal::Driven(hardware::bit_of(load));
    lemma_word_address(address);
    if save || load {
        let next = accessed(rows, bits, address as int, clock, save);
        assert forall|chip: int| 0 <= chip < 4096 implies {
            let response = #[trigger] selected_response(
                rows,
                data,
                lines,
                tick,
                gate,
                enable,
                chip,
            );
            &&& response.result is Ok
            &&& response.state == chip_rows(next, chip)
        } by {
            lemma_chip_accessed(rows, bits, address, clock, save, load, chip);
        }
        lemma_chips_all(rows, data, lines, tick, gate, enable, 4096);
        assert(chips_next(rows, data, lines, tick, gate, enable) =~= next) by {
            assert forall|i: int| 0 <= i < 0x1_0000 implies chips_next(
                rows,
                data,
                lines,
                tick,
                gate,
                enable,
            )[i] == next[i] by {
                let response = selected_response(rows, data, lines, tick, gate, enable, i / 16);
                assert(response.state == chip_rows(next, i / 16));
            }
        }
    }
}

/// The stored bytes of a memory.
pub open spec fn contents(rows: Seq<Seq<FlipFlopState>>) -> Seq<Seq<Bit>> {
    Seq::new(rows.len(), |i: int| latches::slaves(rows[i]))
}

/// A memory gives back what was written: a write cycle, a Low and a High
/// clock with `save` High, changes exactly the addressed byte, to what
/// the data lines carried during the Low clock.
pub proof fn law_ram_write_cycle(
    rows: Seq<Seq<FlipFlopState>>,
    bits: Seq<Bit>,
    later: Seq<Bit>,
    address: int,
)
    requires
        0 <= address < rows.len(),
        forall|i: int| 0 <= i < rows.len() ==> (#[trigger] rows[i]).len() == 8,
        bits.len() == 8,
    ensures
        contents(
            accessed(
                accessed(rows, bits, address, Bit::Low, true),
                later,
                address,
                Bit::High,
                true,
            ),
        ) == contents(rows).update(address, bits),
{
    let low = accessed(rows, bits, address, Bit::Low, true);
    let high = accessed(low, later, address, Bit::High, true);
    assert forall|i: int| 0 <= i < rows.len() implies contents(high)[i] == contents(rows).update(
        address,
        bits,
    )[i] by {
        assert(rows[i].len() == 8);
        if i == address {
            assert(latches::slaves(high[i]) =~= bits);
        } else {
            assert(latches::slaves(low[i]) =~= latches::slaves(rows[i]));
        }
    }
    assert(contents(high) =~= contents(rows).update(address, bits));
}

/// A read cycle, a clock with `save` Low, changes no stored byte.
pub proof fn law_ram_read_cycle(
    rows: Seq<Seq<FlipFlopState>>,
    bits: Seq<Bit>,
    address: int,
    clock: Bit,
)
    requires
        0 <= address < rows.len(),
    ensures
        contents(accessed(rows, bits, address, clock, false)) == contents(rows),
{
    let next = accessed(rows, bits, address, clock, false);
    assert forall|i: int| 0 <= i < rows.len() implies contents(next)[i] == contents(rows)[i] by {
        assert(latches::slaves(next[i]) =~= latches::slaves(rows[i]));
    }
    assert(contents(next) =~= contents(rows));
}

/// The chips of the array put the addressed byte on the bus.
proof fn lemma_chips_bus(
    drivers: Seq<[Signal; 8]>,
    rows: Seq<Seq<FlipFlopState>>,
    data: Seq<Signal>,
    address: Seq<Signal>,
    clock: Signal,
    save: Signal,
    load: Signal,
)
    requires
        drivers.len() == 4096,
        rows.len() == 0x1_0000,
        address.len() == 16,
        !(save == Signal::Driven(Bit::Low) && load == Signal::Driven(Bit::Low)),
        chips_stepped(rows, data, address, clock, save, load, 4096) == 4096,
        forall|chip: int|
            0 <= chip < 4096 ==> chip_drives(
                rows,
                data,
                address,
                clock,
                save,
                load,
                chip,
                #[trigger] drivers[chip]@,
            ),
    ensures
        hardware::bused(drivers) == Ok::<Seq<Signal>, HardwareError>(
            read_out(chips_next(rows, data, address, clock, save, load), address, load),
        ),
{
    let next = chips_next(rows, data, address, clock, save, load);
    reveal(selected_response);
    if hardware::all_driven(address) {
        let value = address_value(address);
        let chosen = value as int / 16;
        law_one_chip_selected(address, 0);
        law_one_chip_selected(address, chosen);
        assert forall|chip: int| 0 <= chip < 4096 && chip != chosen implies (
        #[trigger] drivers[chip])@ == hardware::floating(8) by {
            law_one_chip_selected(address, chip);
        }
        hardware::law_bus_single_driver(drivers, chosen);
        let low = address.subrange(0, 4);
        lemma_stretch_driven(address, 0);
        let response = selected_response(rows, data, address, clock, save, load, chosen);
        assert(gates::and_signal(Signal::Driven(Bit::High), save) == save);
        assert(gates::and_signal(Signal::Driven(Bit::High), load) == load);
        assert(next[value as int] == response.state[value as int % 16]);
    } else {
        assert forall|chip: int| 0 <= chip < 4096 implies #[trigger] drivers[chip]@
            == hardware::floating(8) by {
            let select = chip_select(address, chip);
            let low = address.subrange(0, 4);
            if select == Signal::Driven(Bit::High) && hardware::all_driven(low) {
                lemma_select_needs_all(address, chip);
                assert(false);
            }
        }
        hardware::law_bus_idle(drivers);
    }
}

/// A chip is selected only by driven address lines.
proof fn lemma_select_needs_all(address: Seq<Signal>, chip: int)
    requires
        address.len() == 16,
        0 <= chip < 4096,
        chip_select(address, chip) == Signal::Driven(Bit::High),
        hardware::all_driven(address.subrange(0, 4)),
    ensures
        hardware::all_driven(address),
{
    let n0 = address.subrange(0, 4);
    let n1 = address.subrange(4, 8);
    let n2 = address.subrange(8, 12);
    let n3 = address.subrange(12, 16);
    if !hardware::all_driven(n1) {
        decoder::law_decoder4_floating(n1);
        assert(decoder::decoded_lines(n1)[chip % 16] != Signal::Driven(Bit::High));
    }
    if !hardware::all_driven(n2) {
        decoder::law_decoder4_floating(n2);
        assert(decoder::decoded_lines(n2)[(chip / 16) % 16] != Signal::Driven(Bit::High));
    }
    if !hardware::all_driven(n3) {
        decoder::law_decoder4_floating(n3);
        assert(decoder::decoded_lines(n3)[chip / 16 / 16] != Signal::Driven(Bit::High));
    }
    assert forall|i: int| 0 <= i < 16 implies (#[trigger] address[i]) is Driven by {
        if i < 4 {
            assert(n0[i] is Driven);
        } else if i < 8 {
            assert(n1[i - 4] is Driven);
        } else if i < 12 {
            assert(n2[i - 8] is Driven);
        } else {
            assert(n3[i - 12] is Driven);
        }
    }
}

/// The input lines of a chip: the data and the low address nibble of the
/// array, then the clock and the gated `save` and `load`.
fn chip_lines(inputs: &[Signal], clock: Signal, save: Signal, load: Signal) -> (lines: [Signal; 15])
    requires
        inputs@.len() >= 12,
    ensures
        lines@.subrange(0, 8) == inputs@.subrange(0, 8),
        lines@.subrange(8, 12) == inputs@.subrange(8, 12),
        lines@[12] == clock,
        lines@[13] == save,
        lines@[14] == load,
{
    let lines = [
        inputs[0],
        inputs[1],
        inputs[2],
        inputs[3],
        inputs[4],
        inputs[5],
        inputs[6],
        inputs[7],
        inputs[8],
        inputs[9],
        inputs[10],
        inputs[11],
        clock,
        save,
        load,
    ];
    assert(lines@.subrange(0, 8) =~= inputs@.subrange(0, 8));
    assert(lines@.subrange(8, 12) =~= inputs@.subrange(8, 12));
    lines
}

/// 64 KiB RAM built by cascading 4096 [`Ram256Bits`] chips.
///
/// The 16-bit address (least significant bit first) is split in four
/// nibbles:
///
/// - `address[0..4]` selects one of the 16 registers inside every chip,
///   through each chip's internal decoder;
/// - `address[4..8]` selects one of the 16 chips in a bank;
/// - `address[8..12]` and `address[12..16]` select one of the 256 banks,
///   through two cascaded decoders whose outputs are ANDed pairwise.
///
/// The resulting chip select gates the external `save` and `load` signals,
/// so only the selected chip can be written or can drive the output bus,
/// like on a board where the high address bits drive the chips' enable pins.
/// With [`FAST`], an idle RAM (both `save` and `load` Low) skips the whole
/// select tree, and every unselected chip skips its own propagation.
#[derive(Debug)]
pub struct Ram64KBits {
    /// The 4096 chips.
    chips: Vec<Ram256Bits>,
    /// `bank_ands[bank]` = high_bank[bank / 16] AND low_bank[bank % 16].
    bank_ands: [AndGate; RAM64K_BANKS],
    /// `select_ands[chip]` = bank line AND group line (chip select).
    select_ands: [AndGate; RAM64K_CHIPS],
    /// `save_gates[chip]` = chip select AND external `save`.
    save_gates: [AndGate; RAM64K_CHIPS],
    /// `load_gates[chip]` = chip select AND external `load`.
    load_gates: [AndGate; RAM64K_CHIPS],
    /// Decodes `address[4..8]`: which chip in the bank.
    group_decoder: Decoder4to16,
    /// Decodes `address[8..12]`: low part of the bank number.
    bank_low_decoder: Decoder4to16,
    /// Decodes `address[12..16]`: high part of the bank number.
    bank_high_decoder: Decoder4to16,
}

impl Default for Ram64KBits {
    fn default() -> (ram: Ram64KBits)
        ensures
            ram.wf(),
            ram@ == Seq::new(0x1_0000, |i: int| memory::blank_row(8)),
    {
        let mut chips: Vec<Ram256Bits> = Vec::new();
        for chip in 0..RAM64K_CHIPS
            invariant
                chips@.len() == chip,
                forall|k: int|
                    0 <= k < chip ==> (#[trigger] chips@[k]).wf() && chips@[k]@ == Seq::new(
                        16,
                        |i: int| memory::blank_row(8),
                    ),
        {
            chips.push(Ram256Bits::default());
        }
        let ram = Ram64KBits {
            chips,
            bank_ands: [AndGate::default(); RAM64K_BANKS],
            select_ands: [AndGate::default(); RAM64K_CHIPS],
            save_gates: [AndGate::default(); RAM64K_CHIPS],
            load_gates: [AndGate::default(); RAM64K_CHIPS],
            group_decoder: Decoder4to16::default(),
            bank_low_decoder: Decoder4to16::default(),
            bank_high_decoder: Decoder4to16::default(),
        };
        assert(ram@ =~= Seq::new(0x1_0000, |i: int| memory::blank_row(8)));
        ram
    }
}

impl View for Ram64KBits {
    type V = Seq<Seq<FlipFlopState>>;

    closed spec fn view(&self) -> Seq<Seq<FlipFlopState>> {
        Seq::new(0x1_0000, |i: int| self.chips@[i / 16]@[i % 16])
    }
}

impl Ram64KBits {
    /// The stored byte at `address`.
    pub fn state(&self, address: usize) -> (bits: [Bit; 8])
        requires
            self.wf(),
            address < 0x1_0000,
        ensures
            bits@ == latches::slaves(self@[address as int]),
    {
        let bytes = self.chips[address / 16].state();
        bytes[address % 16]
    }

    /// The array has 65536 registers of eight flip-flops.
    pub proof fn lemma_shape(&self)
        requires
            self.wf(),
        ensures
            self@.len() == 0x1_0000,
            forall|i: int| 0 <= i < 0x1_0000 ==> (#[trigger] self@[i]).len() == 8,
    {
        assert forall|i: int| 0 <= i < 0x1_0000 implies (#[trigger] self@[i]).len() == 8 by {
            self.chips@[i / 16].lemma_shape();
        }
    }

    /// Propagate one chip behind its select line; a chip that receives
    /// neither `save` nor `load` is skipped.
    fn step_chip(&mut self, chip: usize, bank: Signal, group: Signal, inputs: &[Signal]) -> (r:
        Result<[Signal; 8], HardwareError>)
        requires
            old(self).wf(),
            chip < 4096,
            inputs@.len() == 27,
        ensures
            final(self).wf(),
            forall|k: int|
                0 <= k < 4096 && k != chip ==> #[trigger] final(self).chips@[k] == old(
                    self,
                ).chips@[k],
            ({
                let select = gates::and_signal(bank, group);
                let response = chip_response(
                    old(self).chips@[chip as int]@,
                    inputs@.subrange(0, 8),
                    inputs@.subrange(8, 24).subrange(0, 4),
                    inputs@[24],
                    gates::and_signal(select, inputs@[25]),
                    gates::and_signal(select, inputs@[26]),
                    hardware::floating(8),
                );
                &&& final(self).chips@[chip as int]@ == response.state
                &&& match response.result {
                    Ok(_) => r is Ok && r->Ok_0@ == response.outputs,
                    Err(error) => r == Err::<[Signal; 8], HardwareError>(error),
                }
            }),
    {
        let mut single = [Signal::HighImpedance];
        self.select_ands[chip].conduct_into(&[bank, group], &mut single)?;
        let select = single[0];
        self.save_gates[chip].conduct_into(&[select, inputs[25]], &mut single)?;
        let chip_save = single[0];
        self.load_gates[chip].conduct_into(&[select, inputs[26]], &mut single)?;
        let chip_load = single[0];

        let mut row = [
            Signal::HighImpedance,
            Signal::HighImpedance,
            Signal::HighImpedance,
            Signal::HighImpedance,
            Signal::HighImpedance,
            Signal::HighImpedance,
            Signal::HighImpedance,
            Signal::HighImpedance,
        ];
        assert(row@ =~= hardware::floating(8));
        if FAST && chip_save == Signal::Driven(Bit::Low) && chip_load == Signal::Driven(Bit::Low) {
            return Ok(row);
        }
        let chip_inputs = chip_lines(inputs, inputs[24], chip_save, chip_load);
        assert(chip_inputs@.subrange(8, 12) =~= inputs@.subrange(8, 24).subrange(0, 4));
        match self.chips[chip].conduct_into(&chip_inputs, &mut row) {
            Ok(()) => Ok(row),
            Err(error) => Err(error),
        }
    }

    /// Propagate one chip behind the bank and group lines that select it.
    fn step_selected(
        &mut self,
        chip: usize,
        bank_lines: &[Signal; RAM64K_BANKS],
        group_lines: &[Signal; 16],
        inputs: &[Signal],
        Ghost(rows): Ghost<Seq<Seq<FlipFlopState>>>,
    ) -> (r: Result<[Signal; 8], HardwareError>)
        requires
            old(self).wf(),
            chip < 4096,
            inputs@.len() == 27,
            group_lines@ == decoder::decoded_lines(inputs@.subrange(8, 24).subrange(4, 8)),
            bank_lines@[chip as int / 16] == bank_line(inputs@.subrange(8, 24), chip as int / 16),
            old(self).chips@[chip as int]@ == chip_rows(rows, chip as int),
        ensures
            final(self).wf(),
            forall|k: int|
                0 <= k < 4096 && k != chip ==> #[trigger] final(self).chips@[k] == old(
                    self,
                ).chips@[k],
            ({
                let response = selected_response(
                    rows,
                    inputs@.subrange(0, 8),
                    inputs@.subrange(8, 24),
                    inputs@[24],
                    inputs@[25],
                    inputs@[26],
                    chip as int,
                );
                &&& final(self).chips@[chip as int]@ == response.state
                &&& match response.result {
                    Ok(_) => r is Ok && r->Ok_0@ == response.outputs,
                    Err(error) => r == Err::<[Signal; 8], HardwareError>(error) && error
                        == HardwareError::InvalidBit,
                }
            }),
    {
        let bank = bank_lines[chip / 16];
        let group = group_lines[chip % 16];
        proof {
            reveal(selected_response);
        }
        self.step_chip(chip, bank, group, inputs)
    }

    /// Propagate every chip in order and collect what they drive.
    fn step_chips(
        &mut self,
        inputs: &[Signal],
        bank_lines: &[Signal; RAM64K_BANKS],
        group_lines: &[Signal; 16],
    ) -> (r: Result<Vec<[Signal; 8]>, HardwareError>)
        requires
            old(self).wf(),
            inputs@.len() == 27,
            group_lines@ == decoder::decoded_lines(inputs@.subrange(8, 24).subrange(4, 8)),
            forall|k: int|
                0 <= k < 256 ==> #[trigger] bank_lines@[k] == bank_line(inputs@.subrange(8, 24), k),
        ensures
            final(self).wf(),
            ({
                let rows = old(self)@;
                let data = inputs@.subrange(0, 8);
                let address = inputs@.subrange(8, 24);
                let clock = inputs@[24];
                let save = inputs@[25];
                let load = inputs@[26];
                let stepped = chips_stepped(rows, data, address, clock, save, load, 4096);
                &&& final(self)@ == chips_next(rows, data, address, clock, save, load)
                &&& match r {
                    Ok(drivers) => {
                        &&& stepped == 4096
                        &&& drivers@.len() == 4096
                        &&& forall|k: int|
                            0 <= k < 4096 ==> chip_drives(
                                rows,
                                data,
                                address,
                                clock,
                                save,
                                load,
                                k,
                                #[trigger] drivers@[k]@,
                            )
                    },
                    Err(error) => stepped < 4096 && error == HardwareError::InvalidBit,
                }
            }),
    {
        let ghost rows = self@;
        let ghost data = inputs@.subrange(0, 8);
        let ghost address = inputs@.subrange(8, 24);
        let ghost clock = inputs@[24];
        let ghost save = inputs@[25];
        let ghost load = inputs@[26];
        let mut drivers: Vec<[Signal; 8]> = Vec::new();
        proof {
            self.lemma_chips();
        }
        for chip in 0..RAM64K_CHIPS
            invariant
                self.wf(),
                inputs@.len() == 27,
                rows == old(self)@,
                data == inputs@.subrange(0, 8),
                address == inputs@.subrange(8, 24),
                clock == inputs@[24],
                save == inputs@[25],
                load == inputs@[26],
                group_lines@ == decoder::decoded_lines(address.subrange(4, 8)),
                forall|k: int| 0 <= k < 256 ==> #[trigger] bank_lines@[k] == bank_line(address, k),
                chips_stepped(rows, data, address, clock, save, load, chip as nat) == chip,
                drivers@.len() == chip,
                forall|k: int|
                    0 <= k < chip ==> (#[trigger] self.chips@[k])@ == selected_response(
                        rows,
                        data,
                        address,
                        clock,
                        save,
                        load,
                        k,
                    ).state,
                forall|k: int|
                    chip <= k < 4096 ==> (#[trigger] self.chips@[k])@ == chip_rows(rows, k),
                forall|k: int|
                    0 <= k < chip ==> chip_drives(
                        rows,
                        data,
                        address,
                        clock,
                        save,
                        load,
                        k,
                        #[trigger] drivers@[k]@,
                    ),
        {
            let outcome = self.step_selected(chip, bank_lines, group_lines, inputs, Ghost(rows));
            match outcome {
                Ok(row) => {
                    drivers.push(row);
                },
                Err(error) => {
                    proof {
                        lemma_chips_stop(
                            rows,
                            data,
                            address,
                            clock,
                            save,
                            load,
                            chip as nat,
                            4096,
                        );
                        assert(self@ =~= chips_next(rows, data, address, clock, save, load));
                    }
                    return Err(error);
                },
            }
        }
        assert(self@ =~= chips_next(rows, data, address, clock, save, load));
        Ok(drivers)
    }

    /// The rows of a chip are a stretch of the rows of the array.
    proof fn lemma_chips(&self)
        requires
            self.wf(),
        ensures
            forall|k: int| 0 <= k < 4096 ==> (#[trigger] self.chips@[k])@ == chip_rows(self@, k),
    {
        assert forall|k: int| 0 <= k < 4096 implies (#[trigger] self.chips@[k])@ == chip_rows(
            self@,
            k,
        ) by {
            self.chips@[k].lemma_shape();
            assert(self.chips@[k]@ =~= chip_rows(self@, k));
        }
    }

    /// Force-write `data` at `address`, outside any CPU clock cycle.
    ///
    /// This emulates the LOW->HIGH->LOW clock pulse needed by the
    /// register's flip-flops to capture `data`. It is meant for loading a
    /// program before execution starts.
    pub fn write_byte(&mut self, address: usize, data: [Bit; 8]) -> (r: Result<(), HardwareError>)
        requires
            old(self).wf(),
            address < 0x1_0000,
        ensures
            final(self).wf(),
            r == Ok::<(), HardwareError>(()),
            final(self)@ == old(self)@.update(address as int, settled(data@)),
    {
        let chip = address / 16;
        proof {
            self.chips@[chip as int].lemma_shape();
        }
        let outcome = self.chips[chip].write_byte(address % 16, data);
        assert(self@ =~= old(self)@.update(address as int, settled(data@)));
        outcome
    }
}

impl Component for Ram64KBits {
    /// Inputs:
    ///
    /// - 0..8:   data, least significant bit first
    /// - 8..24:  address, least significant bit first
    /// - 24:     clock
    /// - 25:     save
    /// - 26:     load
    ///
    /// Outputs:
    ///
    /// - 0..8: the addressed byte, gated by `load`. Every output floats when
    ///   `load` is Low.
    ///
    /// Write `data` at `address` on the rising edge, or read it.
    const INPUTS: usize = 27;

    const OUTPUTS: usize = 8;

    open spec fn fan_in() -> nat {
        27
    }

    open spec fn fan_out() -> nat {
        8
    }

    proof fn arity() {
    }

    closed spec fn wf(&self) -> bool {
        &&& self.chips@.len() == 4096
        &&& forall|chip: int| 0 <= chip < 4096 ==> (#[trigger] self.chips@[chip]).wf()
    }

    open spec fn admits(state: Seq<Seq<FlipFlopState>>, inputs: Seq<Signal>, slots: nat) -> bool {
        slots == 8
    }

    open spec fn respond(
        state: Seq<Seq<FlipFlopState>>,
        inputs: Seq<Signal>,
        outputs: Seq<Signal>,
    ) -> Response<Seq<Seq<FlipFlopState>>> {
        array_response(
            state,
            inputs.subrange(0, 8),
            inputs.subrange(8, 24),
            inputs[24],
            inputs[25],
            inputs[26],
            outputs,
        )
    }

    open spec fn transistors() -> nat {
        37136328
    }

    fn conduct_into(&mut self, inputs: &[Signal], outputs: &mut [Signal]) -> (r: Result<
        (),
        HardwareError,
    >) {
        if inputs.len() != 27 {
            return Err(
                HardwareError::InvalidInputCount { expected: 27, actual: inputs.len() },
            );
        }
        let clock = inputs[24];
        let save = inputs[25];
        let load = inputs[26];
        let ghost rows = self@;
        let ghost data = inputs@.subrange(0, 8);
        let ghost address = inputs@.subrange(8, 24);

        // A memory receiving neither `save` nor `load` can neither change
        // state nor drive the bus: skip the select tree and every chip.
        if FAST && save == Signal::Driven(Bit::Low) && load == Signal::Driven(Bit::Low) {
            float_byte(outputs);
            return Ok(());
        }

        let mut group_lines = [Signal::HighImpedance; 16];
        self.group_decoder.conduct_into(
            &[inputs[12], inputs[13], inputs[14], inputs[15]],
            &mut group_lines,
        )?;
        assert(seq![inputs@[12], inputs@[13], inputs@[14], inputs@[15]] =~= address.subrange(4, 8));

        let mut bank_low_lines = [Signal::HighImpedance; 16];
        self.bank_low_decoder.conduct_into(
            &[inputs[16], inputs[17], inputs[18], inputs[19]],
            &mut bank_low_lines,
        )?;
        assert(seq![inputs@[16], inputs@[17], inputs@[18], inputs@[19]] =~= address.subrange(
            8,
            12,
        ));

        let mut bank_high_lines = [Signal::HighImpedance; 16];
        self.bank_high_decoder.conduct_into(
            &[inputs[20], inputs[21], inputs[22], inputs[23]],
            &mut bank_high_lines,
        )?;
        assert(seq![inputs@[20], inputs@[21], inputs@[22], inputs@[23]] =~= address.subrange(
            12,
            16,
        ));

        // bank = low + 16 * high, matching the chip index
        // `group + 16 * low + 256 * high`.
        let mut bank_lines = [Signal::HighImpedance; RAM64K_BANKS];
        for bank in 0..RAM64K_BANKS
            invariant
                self.wf(),
                self@ == rows,
                bank_low_lines@ == decoder::decoded_lines(address.subrange(8, 12)),
                bank_high_lines@ == decoder::decoded_lines(address.subrange(12, 16)),
                forall|k: int| 0 <= k < bank ==> #[trigger] bank_lines@[k] == bank_line(address, k),
        {
            let mut single = [Signal::HighImpedance];
            self.bank_ands[bank].conduct_into(
                &[bank_high_lines[bank / 16], bank_low_lines[bank % 16]],
                &mut single,
            )?;
            bank_lines[bank] = single[0];
        }

        let drivers = match self.step_chips(inputs, &bank_lines, &group_lines) {
            Ok(drivers) => drivers,
            Err(error) => return Err(error),
        };
        proof {
            lemma_chips_bus(drivers@, rows, data, address, clock, save, load);
        }
        let resolved = bus8(&drivers)?;
        copy_byte(&resolved, outputs);
        Ok(())
    }

    fn transistor_count(&self) -> (count: usize) {
        let mut banks: usize = 0;
        for bank in 0..RAM64K_BANKS
            invariant
                banks == 6 * bank,
        {
            banks += self.bank_ands[bank].transistor_count();
        }
        let mut chips: usize = 0;
        let mut gates: usize = 0;
        for chip in 0..RAM64K_CHIPS
            invariant
                self.wf(),
                chips == 9048 * chip,
                gates == 18 * chip,
        {
            chips += self.chips[chip].transistor_count();
            gates += self.select_ands[chip].transistor_count();
            gates += self.save_gates[chip].transistor_count();
            gates += self.load_gates[chip].transistor_count();
        }
        chips + self.group_decoder.transistor_count() + self.bank_low_decoder.transistor_count()
            + self.bank_high_decoder.transistor_count() + banks + gates
    }
}

/// Whether some rows of flip-flops are a memory of a given number of bytes.
pub open spec fn is_memory(rows: Seq<Seq<FlipFlopState>>, size: nat) -> bool {
    &&& rows.len() == size
    &&& forall|i: int| 0 <= i < size ==> (#[trigger] rows[i]).len() == 8
}

/// The byte that a memory stores at an address.
pub open spec fn byte_at(rows: Seq<Seq<FlipFlopState>>, address: int) -> u8 {
    utils::byte_of(latches::slaves(rows[address]))
}

/// Whether some lines are driven to a byte.
pub open spec fn carries_byte(lines: Seq<Signal>, byte: u8) -> bool {
    &&& lines.len() == 8
    &&& hardware::all_driven(lines)
    &&& utils::byte_of(hardware::levels(lines)) == byte
}

/// Whether eight lines float.
pub open spec fn carries_nothing(lines: Seq<Signal>) -> bool {
    &&& lines.len() == 8
    &&& forall|i: int| 0 <= i < 8 ==> (#[trigger] lines[i]) is HighImpedance
}

/// A write cycle of the 64 KiB memory, a Low and a High clock with `save`
/// High: the byte on the data lines is stored at the address, and every other
/// byte stays. While `load` is High the stored byte is on the outputs, the
/// old one at the Low and the new one at the High clock.
pub proof fn law_ram_writes(
    rows: Seq<Seq<FlipFlopState>>,
    data: u8,
    address: u16,
    inputs: Seq<Signal>,
    outputs: Seq<Signal>,
    other: int,
)
    requires
        is_memory(rows, 0x1_0000),
        inputs.len() == 27,
        inputs.subrange(0, 8) == hardware::driven(utils::byte_bits(data)),
        inputs.subrange(8, 24) == hardware::driven(utils::word_bits(address)),
        inputs[25] == Signal::Driven(Bit::High),
        inputs[26] is Driven,
        0 <= other < 0x1_0000,
    ensures
        ({
            let low = Ram64KBits::respond(
                rows,
                inputs.update(24, Signal::Driven(Bit::Low)),
                outputs,
            );
            let high = Ram64KBits::respond(
                low.state,
                inputs.update(24, Signal::Driven(Bit::High)),
                outputs,
            );
            &&& low.result is Ok && is_memory(low.state, 0x1_0000)
            &&& byte_at(low.state, other) == byte_at(rows, other)
            &&& if inputs[26] == Signal::Driven(Bit::High) {
                carries_byte(low.outputs, byte_at(rows, address as int))
            } else {
                carries_nothing(low.outputs)
            }
            &&& high.result is Ok && is_memory(high.state, 0x1_0000)
            &&& byte_at(high.state, other) == if other == address {
                data
            } else {
                byte_at(rows, other)
            }
            &&& if inputs[26] == Signal::Driven(Bit::High) {
                carries_byte(high.outputs, data)
            } else {
                carries_nothing(high.outputs)
            }
        }),
{
    let bits = utils::byte_bits(data);
    let low_inputs = inputs.update(24, Signal::Driven(Bit::Low));
    let high_inputs = inputs.update(24, Signal::Driven(Bit::High));
    utils::law_byte_unpacked(data);
    assert(low_inputs.subrange(0, 8) =~= inputs.subrange(0, 8));
    assert(low_inputs.subrange(8, 24) =~= inputs.subrange(8, 24));
    assert(high_inputs.subrange(0, 8) =~= inputs.subrange(0, 8));
    assert(high_inputs.subrange(8, 24) =~= inputs.subrange(8, 24));
    let load = inputs[26] == Signal::Driven(Bit::High);
    law_ram_access(rows, bits, address, Bit::Low, true, load, outputs);
    let low = accessed(rows, bits, address as int, Bit::Low, true);
    lemma_accessed_shape(rows, bits, address as int, Bit::Low, true);
    law_ram_access(low, bits, address, Bit::High, true, load, outputs);
    let high = accessed(low, bits, address as int, Bit::High, true);
    lemma_accessed_shape(low, bits, address as int, Bit::High, true);
    law_ram_write_cycle(rows, bits, bits, address as int);
    assert(contents(high)[other] == contents(rows).update(address as int, bits)[other]);
    assert(latches::slaves(low[other]) =~= latches::slaves(rows[other])) by {
        assert(rows[other].len() == 8);
    }
    if load {
        let first = Ram64KBits::respond(rows, low_inputs, outputs);
        let second = Ram64KBits::respond(low, high_inputs, outputs);
        assert(rows[address as int].len() == 8);
        assert(low[address as int].len() == 8);
        assert(high[address as int].len() == 8);
        assert(latches::slaves(low[address as int]) =~= latches::slaves(rows[address as int]));
        assert(hardware::levels(first.outputs) =~= latches::slaves(low[address as int]));
        assert(contents(high)[address as int] == bits);
        assert(hardware::levels(second.outputs) =~= bits);
    }
}

/// An access keeps the shape of a memory.
proof fn lemma_accessed_shape(
    rows: Seq<Seq<FlipFlopState>>,
    bits: Seq<Bit>,
    address: int,
    clock: Bit,
    save: bool,
)
    requires
        is_memory(rows, rows.len()),
        bits.len() == 8,
        0 <= address < rows.len(),
    ensures
        is_memory(accessed(rows, bits, address, clock, save), rows.len()),
{
    let next = accessed(rows, bits, address, clock, save);
    assert forall|i: int| 0 <= i < rows.len() implies (#[trigger] next[i]).len() == 8 by {
        assert(rows[i].len() == 8);
        assert(rows[address].len() == 8);
    }
}

/// A read of the 64 KiB memory, with `load` High and `save` Low, at either
/// level of the clock: the byte at the address is on the outputs, and no
/// stored byte changes. With both lines Low nothing happens at all.
pub proof fn law_ram_reads(
    rows: Seq<Seq<FlipFlopState>>,
    data: u8,
    address: u16,
    clock: Bit,
    inputs: Seq<Signal>,
    outputs: Seq<Signal>,
    other: int,
)
    requires
        is_memory(rows, 0x1_0000),
        inputs.len() == 27,
        inputs.subrange(0, 8) == hardware::driven(utils::byte_bits(data)),
        inputs.subrange(8, 24) == hardware::driven(utils::word_bits(address)),
        inputs[24] == Signal::Driven(clock),
        inputs[25] == Signal::Driven(Bit::Low),
        inputs[26] is Driven,
        0 <= other < 0x1_0000,
    ensures
        ({
            let response = Ram64KBits::respond(rows, inputs, outputs);
            &&& response.result is Ok && is_memory(response.state, 0x1_0000)
            &&& byte_at(response.state, other) == byte_at(rows, other)
            &&& inputs[26] == Signal::Driven(Bit::High) ==> carries_byte(
                response.outputs,
                byte_at(rows, address as int),
            )
            &&& inputs[26] == Signal::Driven(Bit::Low) ==> response.state == rows
                && carries_nothing(response.outputs)
        }),
{
    let bits = utils::byte_bits(data);
    let load = inputs[26] == Signal::Driven(Bit::High);
    utils::law_byte_unpacked(data);
    law_ram_access(rows, bits, address, clock, false, load, outputs);
    if load {
        let next = accessed(rows, bits, address as int, clock, false);
        lemma_accessed_shape(rows, bits, address as int, clock, false);
        law_ram_read_cycle(rows, bits, address as int, clock);
        assert(contents(next)[other] == contents(rows)[other]);
        assert(contents(next)[address as int] == contents(rows)[address as int]);
        let response = Ram64KBits::respond(rows, inputs, outputs);
        assert(next[address as int].len() == 8);
        assert(hardware::levels(response.outputs) =~= latches::slaves(next[address as int]));
    }
}

/// A write cycle of the chip, as that of the memory: its four address lines
/// are a number, the first one the lowest bit.
pub proof fn law_chip_writes(
    rows: Seq<Seq<FlipFlopState>>,
    data: u8,
    address: Seq<Bit>,
    inputs: Seq<Signal>,
    outputs: Seq<Signal>,
    other: int,
)
    requires
        is_memory(rows, 16),
        address.len() == 4,
        inputs.len() == 15,
        inputs.subrange(0, 8) == hardware::driven(utils::byte_bits(data)),
        inputs.subrange(8, 12) == hardware::driven(address),
        inputs[13] == Signal::Driven(Bit::High),
        inputs[14] is Driven,
        0 <= other < 16,
    ensures
        ({
            let low = Ram256Bits::respond(
                rows,
                inputs.update(12, Signal::Driven(Bit::Low)),
                outputs,
            );
            let high = Ram256Bits::respond(
                low.state,
                inputs.update(12, Signal::Driven(Bit::High)),
                outputs,
            );
            &&& low.result is Ok && is_memory(low.state, 16)
            &&& byte_at(low.state, other) == byte_at(rows, other)
            &&& if inputs[14] == Signal::Driven(Bit::High) {
                carries_byte(low.outputs, byte_at(rows, utils::bits_value(address) as int))
            } else {
                carries_nothing(low.outputs)
            }
            &&& high.result is Ok && is_memory(high.state, 16)
            &&& byte_at(high.state, other) == if other == utils::bits_value(address) {
                data
            } else {
                byte_at(rows, other)
            }
            &&& if inputs[14] == Signal::Driven(Bit::High) {
                carries_byte(high.outputs, data)
            } else {
                carries_nothing(high.outputs)
            }
        }),
{
    let bits = utils::byte_bits(data);
    let lines = hardware::driven(address);
    let index = utils::bits_value(address) as int;
    let low_inputs = inputs.update(12, Signal::Driven(Bit::Low));
    let high_inputs = inputs.update(12, Signal::Driven(Bit::High));
    utils::law_byte_unpacked(data);
    assert(hardware::levels(lines) =~= address);
    assert(low_inputs.subrange(0, 8) =~= inputs.subrange(0, 8));
    assert(low_inputs.subrange(8, 12) =~= inputs.subrange(8, 12));
    assert(high_inputs.subrange(0, 8) =~= inputs.subrange(0, 8));
    assert(high_inputs.subrange(8, 12) =~= inputs.subrange(8, 12));
    let load = inputs[14] == Signal::Driven(Bit::High);
    law_chip_access(rows, bits, lines, Bit::Low, true, load, outputs);
    let low = accessed(rows, bits, index, Bit::Low, true);
    lemma_accessed_shape(rows, bits, index, Bit::Low, true);
    law_chip_access(low, bits, lines, Bit::High, true, load, outputs);
    let high = accessed(low, bits, index, Bit::High, true);
    lemma_accessed_shape(low, bits, index, Bit::High, true);
    law_ram_write_cycle(rows, bits, bits, index);
    assert(contents(high)[other] == contents(rows).update(index, bits)[other]);
    assert(latches::slaves(low[other]) =~= latches::slaves(rows[other])) by {
        assert(rows[other].len() == 8);
    }
    if load {
        let first = Ram256Bits::respond(rows, low_inputs, outputs);
        let second = Ram256Bits::respond(low, high_inputs, outputs);
        assert(rows[index].len() == 8 && low[index].len() == 8 && high[index].len() == 8);
        assert(latches::slaves(low[index]) =~= latches::slaves(rows[index]));
        assert(hardware::levels(first.outputs) =~= latches::slaves(low[index]));
        assert(contents(high)[index] == bits);
        assert(hardware::levels(second.outputs) =~= bits);
    }
}

/// A read of the chip, as that of the memory.
pub proof fn law_chip_reads(
    rows: Seq<Seq<FlipFlopState>>,
    data: u8,
    address: Seq<Bit>,
    clock: Bit,
    inputs: Seq<Signal>,
    outputs: Seq<Signal>,
    other: int,
)
    requires
        is_memory(rows, 16),
        address.len() == 4,
        inputs.len() == 15,
        inputs.subrange(0, 8) == hardware::driven(utils::byte_bits(data)),
        inputs.subrange(8, 12) == hardware::driven(address),
        inputs[12] == Signal::Driven(clock),
        inputs[13] == Signal::Driven(Bit::Low),
        inputs[14] is Driven,
        0 <= other < 16,
    ensures
        ({
            let response = Ram256Bits::respond(rows, inputs, outputs);
            &&& response.result is Ok && is_memory(response.state, 16)
            &&& byte_at(response.state, other) == byte_at(rows, other)
            &&& inputs[14] == Signal::Driven(Bit::High) ==> carries_byte(
                response.outputs,
                byte_at(rows, utils::bits_value(address) as int),
            )
            &&& inputs[14] == Signal::Driven(Bit::Low) ==> response.state == rows
                && carries_nothing(response.outputs)
        }),
{
    let bits = utils::byte_bits(data);
    let lines = hardware::driven(address);
    let index = utils::bits_value(address) as int;
    utils::law_byte_unpacked(data);
    assert(hardware::levels(lines) =~= address);
    if inputs[14] == Signal::Driven(Bit::High) {
        law_chip_access(rows, bits, lines, clock, false, true, outputs);
        let next = accessed(rows, bits, index, clock, false);
        lemma_accessed_shape(rows, bits, index, clock, false);
        law_ram_read_cycle(rows, bits, index, clock);
        assert(contents(next)[other] == contents(rows)[other]);
        assert(contents(next)[index] == contents(rows)[index]);
        let response = Ram256Bits::respond(rows, inputs, outputs);
        assert(next[index].len() == 8);
        assert(hardware::levels(response.outputs) =~= latches::slaves(next[index]));
    }
}

/// A forced write changes one byte of a memory, and what a memory shows of
/// itself is what it stores.
pub proof fn law_forced_write(
    memory: &mut Ram64KBits,
    address: usize,
    data: [Bit; 8],
    written: Result<(), HardwareError>,
    shown: &Ram64KBits,
    other: usize,
    bits: [Bit; 8],
)
    requires
        old(memory).wf(),
        address < 0x1_0000,
        other < 0x1_0000,
        Ram64KBits::write_byte.ensures((memory, address, data), written),
        *shown == *final(memory),
        Ram64KBits::state.ensures((shown, other), bits),
    ensures
        written is Ok,
        other == address ==> bits@ == data@,
        other != address ==> bits@ == latches::slaves(old(memory)@[other as int]),
{
    old(memory).lemma_shape();
    assert(latches::slaves(settled(data@)) =~= data@);
}

/// A forced write changes one byte of a chip, and what a chip shows of
/// itself is what it stores.
pub proof fn law_forced_chip_write(
    chip: &mut Ram256Bits,
    address: usize,
    data: [Bit; 8],
    written: Result<(), HardwareError>,
    shown: &Ram256Bits,
    bytes: [[Bit; 8]; RAM_REGISTERS],
    other: int,
)
    requires
        old(chip).wf(),
        address < 16,
        0 <= other < 16,
        Ram256Bits::write_byte.ensures((chip, address, data), written),
        *shown == *final(chip),
        Ram256Bits::state.ensures((shown,), bytes),
    ensures
        written is Ok,
        other == address ==> bytes@[other]@ == data@,
        other != address ==> bytes@[other]@ == latches::slaves(old(chip)@[other]),
{
    old(chip).lemma_shape();
    assert(latches::slaves(settled(data@)) =~= data@);
}

/// What a memory has on its outputs after a propagation that was not refused,
/// on any wires: the byte that is now stored at the address where the address
/// lines are all driven and `load` is High, and nothing otherwise. With
/// `save` and `load` Low nothing else matters, and nothing changes.
pub proof fn law_ram_outputs(
    rows: Seq<Seq<FlipFlopState>>,
    inputs: Seq<Signal>,
    outputs: Seq<Signal>,
)
    requires
        is_memory(rows, 0x1_0000),
        inputs.len() == 27,
        Ram64KBits::respond(rows, inputs, outputs).result is Ok,
    ensures
        ({
            let response = Ram64KBits::respond(rows, inputs, outputs);
            let lines = inputs.subrange(8, 24);
            let address = utils::bits_value(hardware::levels(lines)) as int;
            let low = Signal::Driven(Bit::Low);
            &&& hardware::all_driven(lines) && inputs[26] == Signal::Driven(Bit::High)
                ==> response.outputs == hardware::driven(latches::slaves(response.state[address]))
            &&& !hardware::all_driven(lines) || inputs[26] != Signal::Driven(Bit::High)
                ==> carries_nothing(response.outputs)
            &&& inputs[25] == low && inputs[26] == low ==> response.state == rows
        }),
{
}

/// What a chip has on its outputs after a propagation that was not refused,
/// as for the memory.
pub proof fn law_chip_outputs(
    rows: Seq<Seq<FlipFlopState>>,
    inputs: Seq<Signal>,
    outputs: Seq<Signal>,
)
    requires
        is_memory(rows, 16),
        inputs.len() == 15,
        Ram256Bits::respond(rows, inputs, outputs).result is Ok,
    ensures
        ({
            let response = Ram256Bits::respond(rows, inputs, outputs);
            let lines = inputs.subrange(8, 12);
            let address = utils::bits_value(hardware::levels(lines)) as int;
            let low = Signal::Driven(Bit::Low);
            &&& hardware::all_driven(lines) && inputs[14] == Signal::Driven(Bit::High)
                ==> response.outputs == hardware::driven(latches::slaves(response.state[address]))
            &&& !hardware::all_driven(lines) || inputs[14] != Signal::Driven(Bit::High)
                ==> carries_nothing(response.outputs)
            &&& inputs[13] == low && inputs[14] == low ==> response.state == rows
        }),
{
}

/// A new memory and a new chip hold zeros.
pub proof fn law_memories_start_blank(
    memory: Ram64KBits,
    address: int,
    chip: Ram256Bits,
    register: int,
)
    requires
        Ram64KBits::default.ensures((), memory),
        Ram256Bits::default.ensures((), chip),
        0 <= address < 0x1_0000,
        0 <= register < 16,
    ensures
        memory.wf(),
        chip.wf(),
        byte_at(memory@, address) == 0,
        byte_at(chip@, register) == 0,
{
    let blank = Seq::new(8, |i: int| Bit::Low);
    memory.lemma_shape();
    chip.lemma_shape();
    assert(latches::slaves(memory@[address]) =~= blank);
    assert(latches::slaves(chip@[register]) =~= blank);
    crate::arithmetic::lemma_uniform_value(8);
}

} // verus!
