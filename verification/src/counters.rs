//! Counters and address registers built from 8-bit registers.
//!
//! * [`ProgramCounter4Bits`]: increments itself on each rising clock
//!   edge, or loads `data` instead when `save` is High. Only the four low
//!   bits are exposed; the value wraps back to zero on overflow.
//! * [`ProgramCounter16Bits`]: 16-bit counter built from two 8-bit
//!   registers and a half-adder incrementer. Counts when `count` is High,
//!   loads from the address bus or, one half at a time, from the data bus.
//! * [`StackPointer16Bits`]: 16-bit up/down counter built from two 8-bit
//!   registers and a full-adder chain: one adder input per bit is the
//!   direction line (Low = increment, High = decrement) and the initial
//!   carry is its complement.
//! * [`MemoryAddressRegister16Bits`]: two 8-bit registers loaded at once
//!   from the address bus or in two halves from the data bus.
//!
//! The view of a 16-bit component is one row of sixteen flip-flops, the
//! low register first.

use vstd::prelude::*;

use crate::arithmetic::{self, operand_lines, Adder8Bits, FullAdder, HalfAdder};
use crate::gates::{self, NotGate, OrGate};
use crate::hardware::{self, bus8, Bit, Component, HardwareError, Nmos, Response, Signal};
use crate::latches::{self, FlipFlopState};
use crate::memory::{self, clocked_lines, Register8Bits};
use crate::mux::{self, Mux8bits2x1};
use crate::ram::ADDRESS_BITS;
use crate::utils;
use crate::FAST;

verus! {

/// A row of `count` wires that are all Low.
pub open spec fn grounded(count: nat) -> Seq<Signal> {
    Seq::new(count, |i: int| Signal::Driven(Bit::Low))
}

/// What a counter or an address register of 16 bits does: the row takes
/// in `data` as a register that writes at every rising edge, and the
/// stored word drives the outputs while `enable` is High. A propagation
/// that stops leaves the outputs alone.
pub open spec fn word_response(
    row: Seq<FlipFlopState>,
    data: Seq<Signal>,
    clock: Signal,
    enable: Signal,
    outputs: Seq<Signal>,
) -> Response<Seq<FlipFlopState>> {
    let next = memory::row_next(row, data, clock, clock);
    let result = memory::row_result(row, data, clock, clock);
    Response {
        state: next,
        outputs: if result is Ok {
            hardware::gated_row(enable, hardware::driven(latches::slaves(next)))
        } else {
            outputs
        },
        result,
    }
}

/// The data lines twice, once per half of a word, each half chosen over
/// `base` by its own save line.
pub open spec fn half_loaded(
    base: Seq<Signal>,
    data: Seq<Signal>,
    save_low: Signal,
    save_high: Signal,
) -> Seq<Signal> {
    mux::mux_row(base.subrange(0, 8), data, save_low) + mux::mux_row(
        base.subrange(8, 16),
        data,
        save_high,
    )
}

/// A word of which each half may be replaced by a byte.
pub open spec fn word_mixed(base: u16, data: u8, save_low: bool, save_high: bool) -> u16 {
    utils::word_from(
        if save_low {
            data
        } else {
            utils::low_byte(base)
        },
        if save_high {
            data
        } else {
            utils::high_byte(base)
        },
    )
}

/// A multiplexer with a driven select line picks one of its rows.
proof fn lemma_mux_picks(a: Seq<Signal>, b: Seq<Signal>, select: bool)
    requires
        a.len() == b.len(),
    ensures
        mux::mux_row(a, b, Signal::Driven(hardware::bit_of(select))) == if select {
            b
        } else {
            a
        },
{
    assert(mux::mux_row(a, b, Signal::Driven(hardware::bit_of(select))) =~= if select {
        b
    } else {
        a
    });
}

/// Loading halves of a driven word with a driven byte.
proof fn lemma_half_loaded(base: u16, data: u8, save_low: bool, save_high: bool)
    ensures
        half_loaded(
            hardware::driven(utils::word_bits(base)),
            hardware::driven(utils::byte_bits(data)),
            Signal::Driven(hardware::bit_of(save_low)),
            Signal::Driven(hardware::bit_of(save_high)),
        ) == hardware::driven(utils::word_bits(word_mixed(base, data, save_low, save_high))),
{
    let low = if save_low {
        data
    } else {
        utils::low_byte(base)
    };
    let high = if save_high {
        data
    } else {
        utils::high_byte(base)
    };
    let word = hardware::driven(utils::word_bits(base));
    let byte = hardware::driven(utils::byte_bits(data));
    utils::law_word_split(base);
    utils::law_word_halves(low, high);
    assert(utils::byte_bits(data).len() == 8) by {
        utils::law_byte_unpacked(data);
    }
    assert(utils::byte_bits(utils::low_byte(base)).len() == 8) by {
        utils::law_byte_unpacked(utils::low_byte(base));
    }
    assert(utils::byte_bits(utils::high_byte(base)).len() == 8) by {
        utils::law_byte_unpacked(utils::high_byte(base));
    }
    assert(word.subrange(0, 8) =~= hardware::driven(utils::byte_bits(utils::low_byte(base))));
    assert(word.subrange(8, 16) =~= hardware::driven(utils::byte_bits(utils::high_byte(base))));
    lemma_mux_picks(word.subrange(0, 8), byte, save_low);
    lemma_mux_picks(word.subrange(8, 16), byte, save_high);
    assert(hardware::driven(utils::byte_bits(low) + utils::byte_bits(high)) =~= hardware::driven(
        utils::byte_bits(low),
    ) + hardware::driven(utils::byte_bits(high)));
}

/// Eight lines held Low.
fn low_lines() -> (lines: [Signal; 8])
    ensures
        lines@ == grounded(8),
{
    let lines = [
        Signal::Driven(Bit::Low),
        Signal::Driven(Bit::Low),
        Signal::Driven(Bit::Low),
        Signal::Driven(Bit::Low),
        Signal::Driven(Bit::Low),
        Signal::Driven(Bit::Low),
        Signal::Driven(Bit::Low),
        Signal::Driven(Bit::Low),
    ];
    assert(lines@ =~= grounded(8));
    lines
}

/// Sixteen lines held Low.
fn low_word() -> (lines: [Signal; 16])
    ensures
        lines@ == grounded(16),
{
    let lines = [
        Signal::Driven(Bit::Low),
        Signal::Driven(Bit::Low),
        Signal::Driven(Bit::Low),
        Signal::Driven(Bit::Low),
        Signal::Driven(Bit::Low),
        Signal::Driven(Bit::Low),
        Signal::Driven(Bit::Low),
        Signal::Driven(Bit::Low),
        Signal::Driven(Bit::Low),
        Signal::Driven(Bit::Low),
        Signal::Driven(Bit::Low),
        Signal::Driven(Bit::Low),
        Signal::Driven(Bit::Low),
        Signal::Driven(Bit::Low),
        Signal::Driven(Bit::Low),
        Signal::Driven(Bit::Low),
    ];
    assert(lines@ =~= grounded(16));
    lines
}

/// Eight multiplexers on two bytes.
fn select_byte(mux: &mut Mux8bits2x1, a: &[Signal; 8], b: &[Signal; 8], select: Signal) -> (r:
    Result<[Signal; 8], HardwareError>)
    ensures
        r is Ok,
        r->Ok_0@ == mux::mux_row(a@, b@, select),
{
    let mut selected = [Signal::HighImpedance; 8];
    let lines = operand_lines(a, b, select);
    assert(lines@.subrange(0, 8) =~= a@);
    mux.conduct_into(&lines, &mut selected)?;
    Ok(selected)
}

/// Eight consecutive lines of a longer row.
fn byte_lines(lines: &[Signal], start: usize) -> (byte: [Signal; 8])
    requires
        start + 8 <= lines.len(),
    ensures
        byte@ == lines@.subrange(start as int, start + 8),
{
    let mut byte = [Signal::HighImpedance; 8];
    for index in 0..8
        invariant
            start + 8 <= lines.len(),
            forall|k: int| 0 <= k < index ==> #[trigger] byte@[k] == lines@[start + k],
    {
        byte[index] = lines[start + index];
    }
    assert(byte@ =~= lines@.subrange(start as int, start + 8));
    byte
}

/// The flip-flops of two registers in one row.
spec fn pair_row(registers: Seq<Register8Bits>) -> Seq<FlipFlopState> {
    registers[0]@ + registers[1]@
}

/// The word that two registers store.
fn pair_state(registers: &[Register8Bits; 2]) -> (bits: [Bit; 16])
    requires
        registers@[0].wf(),
        registers@[1].wf(),
    ensures
        bits@ == latches::slaves(pair_row(registers@)),
{
    proof {
        registers@[0].lemma_width();
        registers@[1].lemma_width();
    }
    let low = registers[0].state();
    let high = registers[1].state();
    let mut bits = [Bit::Low; 16];
    for index in 0..8
        invariant
            forall|k: int| 0 <= k < index ==> #[trigger] bits@[k] == low@[k],
    {
        bits[index] = low[index];
    }
    for index in 0..8
        invariant
            forall|k: int| 0 <= k < 8 ==> #[trigger] bits@[k] == low@[k],
            forall|k: int| 8 <= k < 8 + index ==> #[trigger] bits@[k] == high@[k - 8],
    {
        bits[8 + index] = high[index];
    }
    assert(bits@ =~= latches::slaves(pair_row(registers@)));
    bits
}

/// The word that two registers store, on driven wires.
fn pair_lines(registers: &[Register8Bits; 2]) -> (lines: [Signal; 16])
    requires
        registers@[0].wf(),
        registers@[1].wf(),
    ensures
        lines@ == hardware::driven(latches::slaves(pair_row(registers@))),
{
    let bits = pair_state(registers);
    let mut lines = [Signal::HighImpedance; 16];
    for index in 0..16
        invariant
            forall|k: int| 0 <= k < index ==> #[trigger] lines@[k] == Signal::Driven(bits@[k]),
    {
        lines[index] = Signal::Driven(bits[index]);
    }
    assert(lines@ =~= hardware::driven(bits@));
    lines
}

/// Clock a word into two registers, the low one first.
fn pair_step(registers: &mut [Register8Bits; 2], data: &[Signal; 16], clock: Signal) -> (r: Result<
    (),
    HardwareError,
>)
    requires
        old(registers)@[0].wf(),
        old(registers)@[1].wf(),
    ensures
        final(registers)@[0].wf(),
        final(registers)@[1].wf(),
        r == memory::row_result(pair_row(old(registers)@), data@, clock, clock),
        pair_row(final(registers)@) == memory::row_next(
            pair_row(old(registers)@),
            data@,
            clock,
            clock,
        ),
{
    let low = byte_lines(data, 0);
    let high = byte_lines(data, 8);
    proof {
        registers@[0].lemma_width();
        registers@[1].lemma_width();
        assert(low@ + high@ =~= data@);
        memory::lemma_row_concat(registers@[0]@, registers@[1]@, low@, high@, clock, clock);
    }
    let mut stored = [Signal::HighImpedance; 8];
    match registers[0].conduct_into(&clocked_lines(&low, clock), &mut stored) {
        Ok(()) => {},
        Err(error) => return Err(error),
    }
    registers[1].conduct_into(&clocked_lines(&high, clock), &mut stored)
}

/// Put a stored word on the first sixteen outputs through a row of
/// tri-state drivers.
fn gate_word(
    nmos: &mut [Nmos; 16],
    enable: Signal,
    stored: &[Bit; 16],
    outputs: &mut [Signal],
) -> (r: Result<(), HardwareError>)
    requires
        old(outputs)@.len() >= 16,
    ensures
        r is Ok,
        final(outputs)@ == hardware::gated_row(enable, hardware::driven(stored@)) + old(
            outputs,
        )@.skip(16),
{
    for index in 0..16
        invariant
            outputs@.len() == old(outputs)@.len(),
            outputs@.len() >= 16,
            forall|k: int|
                0 <= k < index ==> #[trigger] outputs@[k] == hardware::gated(
                    enable,
                    Signal::Driven(stored@[k]),
                ),
            forall|k: int|
                16 <= k < outputs@.len() ==> #[trigger] outputs@[k] == old(outputs)@[k],
    {
        let mut single = [Signal::HighImpedance];
        nmos[index].conduct_into(&[enable, Signal::Driven(stored[index])], &mut single)?;
        outputs[index] = single[0];
    }
    assert(outputs@ =~= hardware::gated_row(enable, hardware::driven(stored@)) + old(
        outputs,
    )@.skip(16));
    Ok(())
}

/// Two bytes side by side.
fn joined_bytes(low: &[Signal; 8], high: &[Signal; 8]) -> (lines: [Signal; 16])
    ensures
        lines@ == low@ + high@,
{
    let mut lines = [Signal::HighImpedance; 16];
    for index in 0..8
        invariant
            forall|k: int| 0 <= k < index ==> #[trigger] lines@[k] == low@[k],
    {
        lines[index] = low[index];
    }
    for index in 0..8
        invariant
            forall|k: int| 0 <= k < 8 ==> #[trigger] lines@[k] == low@[k],
            forall|k: int| 8 <= k < 8 + index ==> #[trigger] lines@[k] == high@[k - 8],
    {
        lines[8 + index] = high[index];
    }
    assert(lines@ =~= low@ + high@);
    lines
}

/// Two rows of multiplexers on the halves of two words.
fn select_word(
    muxes: &mut [Mux8bits2x1; 2],
    a: &[Signal; 16],
    b: &[Signal; 16],
    select: Signal,
) -> (r: Result<[Signal; 16], HardwareError>)
    ensures
        r is Ok,
        r->Ok_0@ == mux::mux_row(a@, b@, select),
{
    let low = select_byte(&mut muxes[0], &byte_lines(a, 0), &byte_lines(b, 0), select)?;
    let high = select_byte(&mut muxes[1], &byte_lines(a, 8), &byte_lines(b, 8), select)?;
    let word = joined_bytes(&low, &high);
    assert(word@ =~= mux::mux_row(a@, b@, select));
    Ok(word)
}

/// Two rows of multiplexers that put one byte on either half of a word.
fn select_halves(
    muxes: &mut [Mux8bits2x1; 2],
    base: &[Signal; 16],
    data: &[Signal; 8],
    save_low: Signal,
    save_high: Signal,
) -> (r: Result<[Signal; 16], HardwareError>)
    ensures
        r is Ok,
        r->Ok_0@ == half_loaded(base@, data@, save_low, save_high),
{
    let low = select_byte(&mut muxes[0], &byte_lines(base, 0), data, save_low)?;
    let high = select_byte(&mut muxes[1], &byte_lines(base, 8), data, save_high)?;
    Ok(joined_bytes(&low, &high))
}

/// Sixteen consecutive lines of a longer row.
fn word_lines(lines: &[Signal], start: usize) -> (word: [Signal; 16])
    requires
        start + 16 <= lines.len(),
    ensures
        word@ == lines@.subrange(start as int, start + 16),
{
    let mut word = [Signal::HighImpedance; 16];
    for index in 0..16
        invariant
            start + 16 <= lines.len(),
            forall|k: int| 0 <= k < index ==> #[trigger] word@[k] == lines@[start + k],
    {
        word[index] = lines[start + index];
    }
    assert(word@ =~= lines@.subrange(start as int, start + 16));
    word
}

/// What a 4-bit program counter that stores `stored` preloads: the
/// incremented value, or the zero-extended `data` when `save` is High;
/// a value whose fifth bit is set is replaced by zero.
pub open spec fn pc4_next(stored: Seq<Bit>, data: Seq<Signal>, save: Signal) -> Seq<Signal> {
    let counted = hardware::driven(utils::byte_bits(utils::wrapped(utils::byte_of(stored) + 1)));
    let selected = mux::mux_row(counted, data + grounded(4), save);
    mux::mux_row(selected, grounded(8), selected[4])
}

/// A 4-bit program counter counts modulo 16, or takes over its data.
pub proof fn law_pc4_next(value: u8, data: Seq<Signal>, jump: Option<Seq<Bit>>)
    requires
        value < 16,
        jump is Some ==> jump->0.len() == 4 && data == hardware::driven(jump->0),
        jump is None ==> data.len() == 4,
    ensures
        ({
            let next = match jump {
                Some(bits) => utils::bits_value(bits) as u8,
                None => ((value + 1) % 16) as u8,
            };
            &&& next < 16
            &&& pc4_next(
                utils::byte_bits(value),
                data,
                Signal::Driven(hardware::bit_of(jump is Some)),
            ) == hardware::driven(utils::byte_bits(next))
        }),
{
    let counted = utils::wrapped(value + 1);
    let stored = utils::byte_bits(value);
    let save = Signal::Driven(hardware::bit_of(jump is Some));
    let selected = mux::mux_row(
        hardware::driven(utils::byte_bits(counted)),
        data + grounded(4),
        save,
    );
    utils::law_byte_unpacked(value);
    utils::law_byte_unpacked(counted);
    utils::lemma_constant_bytes();
    assert(grounded(8) =~= hardware::driven(utils::byte_bits(0)));
    lemma_mux_picks(
        hardware::driven(utils::byte_bits(counted)),
        data + grounded(4),
        jump is Some,
    );
    match jump {
        Some(bits) => {
            let wide = bits + Seq::new(4, |i: int| Bit::Low);
            let byte = utils::bits_value(bits) as u8;
            vstd::arithmetic::power2::lemma2_to64();
            utils::lemma_bits_value_bound(bits);
            utils::lemma_bits_value_concat(bits, Seq::new(4, |i: int| Bit::Low));
            arithmetic::lemma_uniform_value(4);
            utils::law_byte_packed(wide);
            assert(utils::byte_of(wide) == byte);
            assert(selected =~= hardware::driven(utils::byte_bits(byte)));
            assert(selected[4] == Signal::Driven(Bit::Low));
            lemma_mux_picks(selected, grounded(8), false);
        },
        None => {
            let over = counted == 16;
            utils::lemma_byte_bit(counted, 4);
            assert(((counted >> 4u8) & 1 == 1) == (counted == 16)) by (bit_vector)
                requires
                    counted <= 16,
            ;
            assert(selected[4] == Signal::Driven(hardware::bit_of(over)));
            lemma_mux_picks(selected, grounded(8), over);
        },
    }
}

/// Four-bit program counter: increments, or loads on the rising edge.
#[derive(Debug)]
pub struct ProgramCounter4Bits {
    register: Register8Bits,
    adder: Adder8Bits,
    load_mux: Mux8bits2x1,
    overflow_mux: Mux8bits2x1,
    output_nmos: [Nmos; ADDRESS_BITS],
}

impl Default for ProgramCounter4Bits {
    fn default() -> (counter: ProgramCounter4Bits)
        ensures
            counter.wf(),
            counter@ == memory::blank_row(8),
    {
        ProgramCounter4Bits {
            register: Register8Bits::default(),
            adder: Adder8Bits::default(),
            load_mux: Mux8bits2x1::default(),
            overflow_mux: Mux8bits2x1::default(),
            output_nmos: [Nmos::default(); ADDRESS_BITS],
        }
    }
}

impl View for ProgramCounter4Bits {
    type V = Seq<FlipFlopState>;

    closed spec fn view(&self) -> Seq<FlipFlopState> {
        self.register@
    }
}

impl ProgramCounter4Bits {
    /// The full byte stored by the inner register.
    pub fn state(&self) -> (bits: [Bit; 8])
        requires
            self.wf(),
        ensures
            bits@ == latches::slaves(self@),
    {
        self.register.state()
    }

    /// The counter is kept in eight flip-flops.
    pub proof fn lemma_width(&self)
        ensures
            self@.len() == 8,
    {
        self.register.lemma_width();
    }

    /// Gate the four low bits of `stored` through the output NMOS row.
    fn gate_output(&mut self, load: Signal, stored: &[Signal; 8], outputs: &mut [Signal]) -> (r:
        Result<(), HardwareError>)
        requires
            old(self).wf(),
            old(outputs)@.len() == 4,
        ensures
            final(self).wf(),
            final(self)@ == old(self)@,
            r == Ok::<(), HardwareError>(()),
            final(outputs)@ == hardware::gated_row(load, stored@.take(4)),
    {
        for index in 0..ADDRESS_BITS
            invariant
                self.wf(),
                self@ == old(self)@,
                outputs@.len() == 4,
                forall|k: int|
                    0 <= k < index ==> #[trigger] outputs@[k] == hardware::gated(load, stored@[k]),
        {
            let mut single = [Signal::HighImpedance];
            self.output_nmos[index].conduct_into(&[load, stored[index]], &mut single)?;
            outputs[index] = single[0];
        }
        assert(outputs@ =~= hardware::gated_row(load, stored@.take(4)));
        Ok(())
    }
}

impl Component for ProgramCounter4Bits {
    /// Inputs:
    ///
    /// - 0..4: data, least significant bit first
    /// - 4:    clock
    /// - 5:    save
    /// - 6:    load
    ///
    /// Outputs:
    ///
    /// - 0..4: the four low bits, gated by `load`.
    ///
    /// Increment, or load `data` when `save` is High.
    ///
    /// The next value is computed combinationally from the stored one:
    /// `state + 1` is selected against `data` by `save`, and the result wraps to
    /// zero when the fifth bit overflows. The value is written on the rising
    /// edge, then the four low bits are gated by `load`. The internal register
    /// receives `save = clock`, so the counter advances exactly on its rising
    /// clock edges.
    const INPUTS: usize = 7;

    const OUTPUTS: usize = 4;

    open spec fn fan_in() -> nat {
        7
    }

    open spec fn fan_out() -> nat {
        4
    }

    proof fn arity() {
    }

    closed spec fn wf(&self) -> bool {
        self.register.wf()
    }

    open spec fn admits(state: Seq<FlipFlopState>, inputs: Seq<Signal>, slots: nat) -> bool {
        slots == 4
    }

    open spec fn respond(
        state: Seq<FlipFlopState>,
        inputs: Seq<Signal>,
        outputs: Seq<Signal>,
    ) -> Response<Seq<FlipFlopState>> {
        {
            let data = pc4_next(latches::slaves(state), inputs.subrange(0, 4), inputs[5]);
            let next = memory::row_next(state, data, inputs[4], inputs[4]);
            let result = memory::row_result(state, data, inputs[4], inputs[4]);
            Response {
                state: next,
                outputs: if result is Ok {
                    hardware::gated_row(
                        inputs[6],
                        hardware::driven(latches::slaves(next)).take(4),
                    )
                } else {
                    outputs
                },
                result,
            }
        }
    }

    open spec fn transistors() -> nat {
        1268
    }

    fn conduct_into(&mut self, inputs: &[Signal], outputs: &mut [Signal]) -> (r: Result<
        (),
        HardwareError,
    >) {
        if inputs.len() != 7 {
            return Err(
                HardwareError::InvalidInputCount { expected: 7, actual: inputs.len() },
            );
        }
        let clock = inputs[4];
        let save = inputs[5];
        let load = inputs[6];
        let ghost row = self@;
        let ghost data = pc4_next(latches::slaves(row), inputs@.subrange(0, 4), save);
        proof {
            self.register.lemma_width();
        }

        // A High clock disables the register's master latches: the slaves
        // capture the value preloaded during the Low tick, so the adder
        // and both multiplexers are skipped and the register receives
        // dummy driven data.
        if FAST && clock == Signal::Driven(Bit::High) {
            let low = low_lines();
            proof {
                memory::law_register_captures(row, low@);
                memory::law_register_captures(row, data);
            }
            let mut stored = [Signal::HighImpedance; 8];
            self.register.conduct_into(&clocked_lines(&low, clock), &mut stored)?;
            assert(stored@ =~= hardware::driven(latches::slaves(self@)));
            return self.gate_output(load, &stored, outputs);
        }

        // state + 1; the carry of the adder is not needed.
        let state = self.register.state();
        let mut current = [Signal::HighImpedance; 8];
        for index in 0..8
            invariant
                forall|k: int|
                    0 <= k < index ==> #[trigger] current@[k] == Signal::Driven(state@[k]),
        {
            current[index] = Signal::Driven(state[index]);
        }
        let one = [
            Signal::Driven(Bit::High),
            Signal::Driven(Bit::Low),
            Signal::Driven(Bit::Low),
            Signal::Driven(Bit::Low),
            Signal::Driven(Bit::Low),
            Signal::Driven(Bit::Low),
            Signal::Driven(Bit::Low),
            Signal::Driven(Bit::Low),
        ];
        let adder_inputs = operand_lines(&current, &one, Signal::Driven(Bit::Low));
        let mut adder_output = [Signal::HighImpedance; 9];
        self.adder.conduct_into(&adder_inputs, &mut adder_output)?;
        let incremented = byte_lines(&adder_output, 0);
        proof {
            let value = utils::byte_of(state@);
            utils::law_byte_packed(state@);
            utils::lemma_constant_bytes();
            utils::law_byte_unpacked(1);
            assert(adder_inputs@.subrange(0, 8) =~= hardware::driven(utils::byte_bits(value)));
            assert(one@ =~= hardware::driven(utils::byte_bits(1)));
            arithmetic::lemma_byte_sum(value, utils::byte_bits(1), Bit::Low);
            assert(incremented@ =~= hardware::driven(
                utils::byte_bits(utils::wrapped(value + 1)),
            ));
        }

        // The data, zero-extended to eight bits, when `save` is High.
        let extended = [
            inputs[0],
            inputs[1],
            inputs[2],
            inputs[3],
            Signal::Driven(Bit::Low),
            Signal::Driven(Bit::Low),
            Signal::Driven(Bit::Low),
            Signal::Driven(Bit::Low),
        ];
        assert(extended@ =~= inputs@.subrange(0, 4) + grounded(4));
        let selected = select_byte(&mut self.load_mux, &incremented, &extended, save)?;

        // Counting past 15 sets the fifth bit, which resets the value.
        let zero = low_lines();
        assert(zero@ =~= grounded(8));
        let wrapped = select_byte(&mut self.overflow_mux, &selected, &zero, selected[4])?;
        assert(wrapped@ == data);

        // Store on the rising edge; `load` gates the outputs afterwards.
        let mut stored = [Signal::HighImpedance; 8];
        match self.register.conduct_into(&clocked_lines(&wrapped, clock), &mut stored) {
            Ok(()) => {},
            Err(error) => return Err(error),
        }
        assert(stored@ =~= hardware::driven(latches::slaves(self@)));
        self.gate_output(load, &stored, outputs)
    }

    fn transistor_count(&self) -> (count: usize) {
        let mut buffers: usize = 0;
        for index in 0..ADDRESS_BITS
            invariant
                buffers == index,
        {
            buffers += self.output_nmos[index].transistor_count();
        }
        self.register.transistor_count() + self.adder.transistor_count()
            + self.load_mux.transistor_count() + self.overflow_mux.transistor_count() + buffers
    }
}

/// What an address register that stores `stored` preloads: per half, the
/// data byte on its `save` line, else the address bus on `load16`, else
/// the stored value.
pub open spec fn mar16_next(
    stored: Seq<Bit>,
    data: Seq<Signal>,
    address: Seq<Signal>,
    save_low: Signal,
    save_high: Signal,
    load16: Signal,
) -> Seq<Signal> {
    half_loaded(
        mux::mux_row(hardware::driven(stored), address, load16),
        data,
        save_low,
        save_high,
    )
}

/// The next value of an address register as a word.
pub open spec fn mar16_word(
    word: u16,
    data: u8,
    address: u16,
    save_low: bool,
    save_high: bool,
    load16: bool,
) -> u16 {
    word_mixed(
        if load16 {
            address
        } else {
            word
        },
        data,
        save_low,
        save_high,
    )
}

/// With driven inputs, the address register works on words.
pub proof fn law_mar16_next(
    word: u16,
    data: u8,
    address: u16,
    save_low: bool,
    save_high: bool,
    load16: bool,
)
    ensures
        mar16_next(
            utils::word_bits(word),
            hardware::driven(utils::byte_bits(data)),
            hardware::driven(utils::word_bits(address)),
            Signal::Driven(hardware::bit_of(save_low)),
            Signal::Driven(hardware::bit_of(save_high)),
            Signal::Driven(hardware::bit_of(load16)),
        ) == hardware::driven(
            utils::word_bits(mar16_word(word, data, address, save_low, save_high, load16)),
        ),
{
    utils::law_word_unpacked(word);
    utils::law_word_unpacked(address);
    lemma_mux_picks(
        hardware::driven(utils::word_bits(word)),
        hardware::driven(utils::word_bits(address)),
        load16,
    );
    lemma_half_loaded(
        if load16 {
            address
        } else {
            word
        },
        data,
        save_low,
        save_high,
    );
}

/// 16-bit memory address register feeding the tri-state address bus.
///
/// Three load paths per half, in decreasing priority:
///
/// - `save_low` / `save_high`: capture the 8-bit data bus into one half
///   (operand address bytes);
/// - `load16`: capture the full 16-bit address bus at once (fetch, when the
///   PC drives it; stack access, when the SP drives it);
/// - otherwise hold.
///
/// The stored address drives the address bus through 16 tri-state drivers
/// gated by `enable`: the PC and the SP share the bus, so the control unit
/// never asserts two address-bus drivers at once.
#[derive(Debug)]
pub struct MemoryAddressRegister16Bits {
    registers: [Register8Bits; 2],
    /// Per half: hold or address-bus half, on `load16`.
    addr_muxes: [Mux8bits2x1; 2],
    /// Per half: that value or the data-bus byte, on the half's `save` line.
    bus_muxes: [Mux8bits2x1; 2],
    output_nmos: [Nmos; 16],
}

impl Default for MemoryAddressRegister16Bits {
    fn default() -> (register: MemoryAddressRegister16Bits)
        ensures
            register.wf(),
            register@ == memory::blank_row(16),
    {
        let register = MemoryAddressRegister16Bits {
            registers: [Register8Bits::default(), Register8Bits::default()],
            addr_muxes: [Mux8bits2x1::default(); 2],
            bus_muxes: [Mux8bits2x1::default(); 2],
            output_nmos: [Nmos::default(); 16],
        };
        assert(register@ =~= memory::blank_row(16));
        register
    }
}

impl View for MemoryAddressRegister16Bits {
    type V = Seq<FlipFlopState>;

    closed spec fn view(&self) -> Seq<FlipFlopState> {
        pair_row(self.registers@)
    }
}

impl MemoryAddressRegister16Bits {
    /// The stored 16-bit value, least significant bit first.
    pub fn state(&self) -> (bits: [Bit; 16])
        requires
            self.wf(),
        ensures
            bits@ == latches::slaves(self@),
    {
        pair_state(&self.registers)
    }

    /// The value is kept in sixteen flip-flops.
    pub proof fn lemma_width(&self)
        ensures
            self@.len() == 16,
    {
        self.registers@[0].lemma_width();
        self.registers@[1].lemma_width();
    }
}

impl Component for MemoryAddressRegister16Bits {
    /// Inputs:
    ///
    /// - 0..8:  data, least significant bit first (the shared data bus)
    /// - 8..24: address, least significant bit first (the shared address bus)
    /// - 24:    clock
    /// - 25:    save_low, capture `data` into the low byte
    /// - 26:    save_high, capture `data` into the high byte
    /// - 27:    load16, capture the full address bus
    /// - 28:    enable, gate the stored address onto the address bus
    ///
    /// Outputs:
    ///
    /// - 0..16: the stored address, gated by `enable`.
    const INPUTS: usize = 29;

    const OUTPUTS: usize = 16;

    open spec fn fan_in() -> nat {
        29
    }

    open spec fn fan_out() -> nat {
        16
    }

    proof fn arity() {
    }

    closed spec fn wf(&self) -> bool {
        self.registers@[0].wf() && self.registers@[1].wf()
    }

    open spec fn admits(state: Seq<FlipFlopState>, inputs: Seq<Signal>, slots: nat) -> bool {
        slots == 16
    }

    open spec fn respond(
        state: Seq<FlipFlopState>,
        inputs: Seq<Signal>,
        outputs: Seq<Signal>,
    ) -> Response<Seq<FlipFlopState>> {
        word_response(
            state,
            mar16_next(
                latches::slaves(state),
                inputs.subrange(0, 8),
                inputs.subrange(8, 24),
                inputs[25],
                inputs[26],
                inputs[27],
            ),
            inputs[24],
            inputs[28],
            outputs,
        )
    }

    open spec fn transistors() -> nat {
        1744
    }

    fn conduct_into(&mut self, inputs: &[Signal], outputs: &mut [Signal]) -> (r: Result<
        (),
        HardwareError,
    >) {
        if inputs.len() != 29 {
            return Err(
                HardwareError::InvalidInputCount { expected: 29, actual: inputs.len() },
            );
        }
        let clock = inputs[24];
        let enable = inputs[28];
        let ghost row = self@;
        let ghost data = mar16_next(
            latches::slaves(row),
            inputs@.subrange(0, 8),
            inputs@.subrange(8, 24),
            inputs@[25],
            inputs@[26],
            inputs@[27],
        );
        proof {
            self.lemma_width();
        }

        // A High clock disables the registers' master latches: the next
        // value was preloaded during the Low tick, so the combinational
        // path is skipped.
        if FAST && clock == Signal::Driven(Bit::High) {
            let low = low_word();
            proof {
                memory::law_register_captures(row, low@);
                memory::law_register_captures(row, data);
            }
            pair_step(&mut self.registers, &low, clock)?;
            let stored = self.state();
            gate_word(&mut self.output_nmos, enable, &stored, outputs)?;
            assert(outputs@ =~= hardware::gated_row(enable, hardware::driven(stored@)));
            return Ok(());
        }

        let held = pair_lines(&self.registers);
        let addressed = select_word(
            &mut self.addr_muxes,
            &held,
            &word_lines(inputs, 8),
            inputs[27],
        )?;
        let next = select_halves(
            &mut self.bus_muxes,
            &addressed,
            &byte_lines(inputs, 0),
            inputs[25],
            inputs[26],
        )?;
        match pair_step(&mut self.registers, &next, clock) {
            Ok(()) => {},
            Err(error) => return Err(error),
        }
        let stored = self.state();
        gate_word(&mut self.output_nmos, enable, &stored, outputs)?;
        assert(outputs@ =~= hardware::gated_row(enable, hardware::driven(stored@)));
        Ok(())
    }

    fn transistor_count(&self) -> (count: usize) {
        let registers = self.registers[0].transistor_count() + self.registers[1].transistor_count();
        let addr_muxes = self.addr_muxes[0].transistor_count()
            + self.addr_muxes[1].transistor_count();
        let bus_muxes = self.bus_muxes[0].transistor_count()
            + self.bus_muxes[1].transistor_count();
        let mut output_nmos: usize = 0;
        for index in 0..16
            invariant
                output_nmos == 1 * index,
        {
            output_nmos += self.output_nmos[index].transistor_count();
        }
        registers + addr_muxes + bus_muxes + output_nmos
    }
}

/// What a 16-bit program counter that stores `stored` preloads: per half,
/// the data byte on its `save` line, else the address bus on `load_addr`,
/// else the incremented value on `count`, else the stored value.
pub open spec fn pc16_next(
    stored: Seq<Bit>,
    data: Seq<Signal>,
    address: Seq<Signal>,
    count: Signal,
    load_addr: Signal,
    save_low: Signal,
    save_high: Signal,
) -> Seq<Signal> {
    let incremented = hardware::driven(
        utils::word_bits(utils::wrapped_word(utils::word_of(stored) + 1)),
    );
    half_loaded(
        mux::mux_row(
            mux::mux_row(hardware::driven(stored), incremented, count),
            address,
            load_addr,
        ),
        data,
        save_low,
        save_high,
    )
}

/// The byte that the counter puts on the data bus.
pub open spec fn pc16_byte(stored: Seq<Bit>, out_lo: Signal, out_hi: Signal) -> Seq<Signal> {
    if out_lo == Signal::Driven(Bit::High) {
        hardware::driven(stored.subrange(0, 8))
    } else if out_hi == Signal::Driven(Bit::High) {
        hardware::driven(stored.subrange(8, 16))
    } else {
        hardware::floating(8)
    }
}

/// The next value of a 16-bit program counter as a word.
pub open spec fn pc16_word(
    word: u16,
    data: u8,
    address: u16,
    count: bool,
    load_addr: bool,
    save_low: bool,
    save_high: bool,
) -> u16 {
    word_mixed(
        if load_addr {
            address
        } else if count {
            utils::wrapped_word(word + 1)
        } else {
            word
        },
        data,
        save_low,
        save_high,
    )
}

/// With driven inputs, the program counter works on words.
pub proof fn law_pc16_next(
    word: u16,
    data: u8,
    address: u16,
    count: bool,
    load_addr: bool,
    save_low: bool,
    save_high: bool,
)
    ensures
        pc16_next(
            utils::word_bits(word),
            hardware::driven(utils::byte_bits(data)),
            hardware::driven(utils::word_bits(address)),
            Signal::Driven(hardware::bit_of(count)),
            Signal::Driven(hardware::bit_of(load_addr)),
            Signal::Driven(hardware::bit_of(save_low)),
            Signal::Driven(hardware::bit_of(save_high)),
        ) == hardware::driven(
            utils::word_bits(
                pc16_word(word, data, address, count, load_addr, save_low, save_high),
            ),
        ),
{
    let incremented = utils::wrapped_word(word + 1);
    let counted = if count {
        incremented
    } else {
        word
    };
    utils::law_word_unpacked(word);
    utils::law_word_unpacked(incremented);
    utils::law_word_unpacked(address);
    lemma_mux_picks(
        hardware::driven(utils::word_bits(word)),
        hardware::driven(utils::word_bits(incremented)),
        count,
    );
    lemma_mux_picks(
        hardware::driven(utils::word_bits(counted)),
        hardware::driven(utils::word_bits(address)),
        load_addr,
    );
    lemma_half_loaded(
        if load_addr {
            address
        } else {
            counted
        },
        data,
        save_low,
        save_high,
    );
}

/// What a 16-bit program counter does with its thirty-two input lines.
pub open spec fn pc16_response(
    state: Seq<FlipFlopState>,
    inputs: Seq<Signal>,
    outputs: Seq<Signal>,
) -> Response<Seq<FlipFlopState>> {
    let data = pc16_next(
        latches::slaves(state),
        inputs.subrange(0, 8),
        inputs.subrange(8, 24),
        inputs[25],
        inputs[26],
        inputs[27],
        inputs[28],
    );
    let next = memory::row_next(state, data, inputs[24], inputs[24]);
    let result = memory::row_result(state, data, inputs[24], inputs[24]);
    Response {
        state: next,
        outputs: if result is Ok {
            hardware::gated_row(inputs[29], hardware::driven(latches::slaves(next))) + pc16_byte(
                latches::slaves(next),
                inputs[30],
                inputs[31],
            )
        } else {
            outputs
        },
        result,
    }
}

/// Whether the two data-bus drivers of the counter agree: both are
/// enabled at once only while the two stored bytes are the same.
pub open spec fn pc16_undisputed(state: Seq<FlipFlopState>, inputs: Seq<Signal>) -> bool {
    let stored = latches::slaves(pc16_response(state, inputs, Seq::empty()).state);
    inputs[30] == Signal::Driven(Bit::High) && inputs[31] == Signal::Driven(Bit::High)
        ==> stored.subrange(0, 8) == stored.subrange(8, 16)
}

/// 16-bit program counter with three load paths and three output paths,
/// sharing the tri-state address and data buses.
///
/// Loads (decreasing priority, per half):
///
/// - `save_low` / `save_high`: capture the 8-bit data bus (RET pops the
///   return address byte by byte);
/// - `load_addr`: capture the 16-bit address bus (jumps and calls: the MAR
///   is driving it with the target);
/// - `count`: increment by one (instruction fetch).
///
/// Outputs:
///
/// - the full 16-bit value onto the address bus, gated by `enable`;
/// - the low byte or the high byte onto the data bus, gated by `out_lo` /
///   `out_hi`, which may be High together only when the two bytes agree.
#[derive(Debug)]
pub struct ProgramCounter16Bits {
    registers: [Register8Bits; 2],
    /// Half-adder chain computing `state + 1` over the 16 bits.
    half_adders: [HalfAdder; 16],
    /// Per half: state when `count` is Low, incremented when High.
    count_muxes: [Mux8bits2x1; 2],
    /// Per half: counter value or address-bus half.
    addr_muxes: [Mux8bits2x1; 2],
    /// Per half: that value or the data-bus byte.
    data_muxes: [Mux8bits2x1; 2],
    /// Address-bus drivers, one bit each, gated by `enable`.
    address_nmos: [Nmos; 16],
    /// Data-bus drivers: the two bytes, gated by `out_lo` / `out_hi`.
    data_nmos: [Nmos; 16],
}

impl Default for ProgramCounter16Bits {
    fn default() -> (counter: ProgramCounter16Bits)
        ensures
            counter.wf(),
            counter@ == memory::blank_row(16),
    {
        let counter = ProgramCounter16Bits {
            registers: [Register8Bits::default(), Register8Bits::default()],
            half_adders: [HalfAdder::default(); 16],
            count_muxes: [Mux8bits2x1::default(); 2],
            addr_muxes: [Mux8bits2x1::default(); 2],
            data_muxes: [Mux8bits2x1::default(); 2],
            address_nmos: [Nmos::default(); 16],
            data_nmos: [Nmos::default(); 16],
        };
        assert(counter@ =~= memory::blank_row(16));
        counter
    }
}

impl View for ProgramCounter16Bits {
    type V = Seq<FlipFlopState>;

    closed spec fn view(&self) -> Seq<FlipFlopState> {
        pair_row(self.registers@)
    }
}

impl ProgramCounter16Bits {
    /// The stored 16-bit value, least significant bit first.
    pub fn state(&self) -> (bits: [Bit; 16])
        requires
            self.wf(),
        ensures
            bits@ == latches::slaves(self@),
    {
        pair_state(&self.registers)
    }

    /// The value is kept in sixteen flip-flops.
    pub proof fn lemma_width(&self)
        ensures
            self@.len() == 16,
    {
        self.registers@[0].lemma_width();
        self.registers@[1].lemma_width();
    }

    /// The stored word plus one: a ripple of half adders that starts with
    /// a High carry.
    fn increment(&mut self, held: &[Signal; 16]) -> (r: Result<[Signal; 16], HardwareError>)
        requires
            old(self).wf(),
            held@ == hardware::driven(latches::slaves(old(self)@)),
        ensures
            final(self).wf(),
            final(self)@ == old(self)@,
            r is Ok,
            r->Ok_0@ == hardware::driven(
                utils::word_bits(
                    utils::wrapped_word(utils::word_of(latches::slaves(old(self)@)) + 1),
                ),
            ),
    {
        let ghost zero = Seq::new(16, |i: int| Signal::Driven(hardware::bit_of(false)));
        let ghost one = Signal::Driven(hardware::bit_of(true));
        let mut incremented = [Signal::HighImpedance; 16];
        let mut carry = Signal::Driven(Bit::High);
        for index in 0..16
            invariant
                self.wf(),
                self@ == old(self)@,
                zero == Seq::new(16, |i: int| Signal::Driven(hardware::bit_of(false))),
                one == Signal::Driven(Bit::High),
                carry == arithmetic::ripple_carry(held@, zero, one, index as nat),
                forall|k: int|
                    0 <= k < index ==> #[trigger] incremented@[k] == arithmetic::ripple_sum(
                        held@,
                        zero,
                        one,
                    )[k],
        {
            let mut both = [Signal::HighImpedance; 2];
            self.half_adders[index].conduct_into(&[held[index], carry], &mut both)?;
            incremented[index] = both[0];
            carry = both[1];
        }
        proof {
            let bits = latches::slaves(self@);
            self.lemma_width();
            utils::law_word_packed(bits);
            arithmetic::law_ripple_counts(utils::word_of(bits), false);
            assert(incremented@ =~= arithmetic::ripple_sum(held@, zero, one));
        }
        Ok(incremented)
    }

    /// Drive the data-bus byte: `out_lo` selects the low byte, `out_hi`
    /// the high byte.
    fn gate_data(
        &mut self,
        stored: &[Bit; 16],
        out_lo: Signal,
        out_hi: Signal,
        outputs: &mut [Signal],
    ) -> (r: Result<(), HardwareError>)
        requires
            old(self).wf(),
            old(outputs)@.len() == 24,
            out_lo == Signal::Driven(Bit::High) && out_hi == Signal::Driven(Bit::High)
                ==> stored@.subrange(0, 8) == stored@.subrange(8, 16),
        ensures
            final(self).wf(),
            final(self)@ == old(self)@,
            r is Ok,
            final(outputs)@ == old(outputs)@.take(16) + pc16_byte(stored@, out_lo, out_hi),
    {
        let mut low = [Signal::HighImpedance; 8];
        let mut high = [Signal::HighImpedance; 8];
        for index in 0..8
            invariant
                self.wf(),
                self@ == old(self)@,
                forall|k: int|
                    0 <= k < index ==> #[trigger] low@[k] == hardware::gated(
                        out_lo,
                        Signal::Driven(stored@[k]),
                    ),
                forall|k: int|
                    0 <= k < index ==> #[trigger] high@[k] == hardware::gated(
                        out_hi,
                        Signal::Driven(stored@[8 + k]),
                    ),
        {
            let mut single = [Signal::HighImpedance];
            self.data_nmos[index].conduct_into(
                &[out_lo, Signal::Driven(stored[index])],
                &mut single,
            )?;
            low[index] = single[0];
            self.data_nmos[8 + index].conduct_into(
                &[out_hi, Signal::Driven(stored[8 + index])],
                &mut single,
            )?;
            high[index] = single[0];
        }
        let drivers = [low, high];
        proof {
            let both = out_lo == Signal::Driven(Bit::High) && out_hi == Signal::Driven(Bit::High);
            assert(low@ =~= hardware::gated_row(
                out_lo,
                hardware::driven(stored@.subrange(0, 8)),
            ));
            assert(high@ =~= hardware::gated_row(
                out_hi,
                hardware::driven(stored@.subrange(8, 16)),
            ));
            reveal_with_fuel(hardware::bused, 3);
            assert(drivers@.drop_last().drop_last() =~= Seq::empty());
            assert(drivers@.drop_last() =~= seq![low]);
            hardware::lemma_joined_lines(hardware::floating(8), low@, 8);
            assert(Seq::new(
                8,
                |i: int| hardware::joined(hardware::floating(8)[i], low@[i])->Ok_0,
            ) =~= low@);
            assert forall|i: int| 0 <= i < 8 implies (#[trigger] hardware::joined(
                low@[i],
                high@[i],
            )) is Ok by {
                if both {
                    assert(stored@.subrange(0, 8)[i] == stored@.subrange(8, 16)[i]);
                }
            }
            hardware::lemma_joined_lines(low@, high@, 8);
            assert(Seq::new(8, |i: int| hardware::joined(low@[i], high@[i])->Ok_0) =~= pc16_byte(
                stored@,
                out_lo,
                out_hi,
            ));
        }
        let resolved = bus8(&drivers)?;
        for index in 0..8
            invariant
                outputs@.len() == 24,
                forall|k: int| 0 <= k < 16 ==> #[trigger] outputs@[k] == old(outputs)@[k],
                forall|k: int| 16 <= k < 16 + index ==> #[trigger] outputs@[k] == resolved@[k - 16],
        {
            outputs[16 + index] = resolved[index];
        }
        assert(outputs@ =~= old(outputs)@.take(16) + pc16_byte(stored@, out_lo, out_hi));
        Ok(())
    }
}

impl Component for ProgramCounter16Bits {
    /// Inputs:
    ///
    /// - 0..8:  data, least significant bit first (the shared data bus)
    /// - 8..24: address, least significant bit first (the shared address bus)
    /// - 24:    clock
    /// - 25:    count, increment on the rising edge when High
    /// - 26:    load_addr, capture the full address bus
    /// - 27:    save_low, capture `data` into the low byte
    /// - 28:    save_high, capture `data` into the high byte
    /// - 29:    enable, gate the 16-bit value onto the address bus
    /// - 30:    out_lo, gate the low byte onto the data bus
    /// - 31:    out_hi, gate the high byte onto the data bus
    ///
    /// Outputs:
    ///
    /// - 0..16:  the counter value, gated by `enable` (address bus)
    /// - 16..24: the selected byte, gated by `out_lo` / `out_hi`
    const INPUTS: usize = 32;

    const OUTPUTS: usize = 24;

    open spec fn fan_in() -> nat {
        32
    }

    open spec fn fan_out() -> nat {
        24
    }

    proof fn arity() {
    }

    closed spec fn wf(&self) -> bool {
        self.registers@[0].wf() && self.registers@[1].wf()
    }

    open spec fn admits(state: Seq<FlipFlopState>, inputs: Seq<Signal>, slots: nat) -> bool {
        slots == 24 && pc16_undisputed(state, inputs)
    }

    open spec fn respond(
        state: Seq<FlipFlopState>,
        inputs: Seq<Signal>,
        outputs: Seq<Signal>,
    ) -> Response<Seq<FlipFlopState>> {
        pc16_response(state, inputs, outputs)
    }

    open spec fn transistors() -> nat {
        2432
    }

    fn conduct_into(&mut self, inputs: &[Signal], outputs: &mut [Signal]) -> (r: Result<
        (),
        HardwareError,
    >) {
        if inputs.len() != 32 {
            return Err(
                HardwareError::InvalidInputCount { expected: 32, actual: inputs.len() },
            );
        }
        let clock = inputs[24];
        let enable = inputs[29];
        let out_lo = inputs[30];
        let out_hi = inputs[31];
        let ghost row = self@;
        let ghost data = pc16_next(
            latches::slaves(row),
            inputs@.subrange(0, 8),
            inputs@.subrange(8, 24),
            inputs@[25],
            inputs@[26],
            inputs@[27],
            inputs@[28],
        );
        proof {
            self.lemma_width();
        }

        // A High clock disables the registers' master latches: the next
        // value was preloaded during the Low tick, so the combinational
        // path is skipped.
        if FAST && clock == Signal::Driven(Bit::High) {
            let low = low_word();
            proof {
                memory::law_register_captures(row, low@);
                memory::law_register_captures(row, data);
            }
            pair_step(&mut self.registers, &low, clock)?;
            let stored = self.state();
            gate_word(&mut self.address_nmos, enable, &stored, outputs)?;
            self.gate_data(&stored, out_lo, out_hi, outputs)?;
            assert(outputs@ =~= hardware::gated_row(enable, hardware::driven(stored@))
                + pc16_byte(stored@, out_lo, out_hi));
            return Ok(());
        }

        let held = pair_lines(&self.registers);
        let incremented = self.increment(&held)?;
        let counted = select_word(&mut self.count_muxes, &held, &incremented, inputs[25])?;
        let addressed = select_word(
            &mut self.addr_muxes,
            &counted,
            &word_lines(inputs, 8),
            inputs[26],
        )?;
        let next = select_halves(
            &mut self.data_muxes,
            &addressed,
            &byte_lines(inputs, 0),
            inputs[27],
            inputs[28],
        )?;
        match pair_step(&mut self.registers, &next, clock) {
            Ok(()) => {},
            Err(error) => return Err(error),
        }
        let stored = self.state();
        gate_word(&mut self.address_nmos, enable, &stored, outputs)?;
        self.gate_data(&stored, out_lo, out_hi, outputs)?;
        assert(outputs@ =~= hardware::gated_row(enable, hardware::driven(stored@)) + pc16_byte(
            stored@,
            out_lo,
            out_hi,
        ));
        Ok(())
    }

    fn transistor_count(&self) -> (count: usize) {
        let registers = self.registers[0].transistor_count() + self.registers[1].transistor_count();
        let mut half_adders: usize = 0;
        for index in 0..16
            invariant
                half_adders == 22 * index,
        {
            half_adders += self.half_adders[index].transistor_count();
        }
        let count_muxes = self.count_muxes[0].transistor_count()
            + self.count_muxes[1].transistor_count();
        let addr_muxes = self.addr_muxes[0].transistor_count()
            + self.addr_muxes[1].transistor_count();
        let data_muxes = self.data_muxes[0].transistor_count()
            + self.data_muxes[1].transistor_count();
        let mut address_nmos: usize = 0;
        for index in 0..16
            invariant
                address_nmos == 1 * index,
        {
            address_nmos += self.address_nmos[index].transistor_count();
        }
        let mut data_nmos: usize = 0;
        for index in 0..16
            invariant
                data_nmos == 1 * index,
        {
            data_nmos += self.data_nmos[index].transistor_count();
        }
        registers + half_adders + count_muxes + addr_muxes + data_muxes + address_nmos + data_nmos
    }
}

/// What a stack pointer that stores `stored` preloads: per half, the data
/// byte on its `save` line, else the counted value when `count_up` or
/// `count_down` is High, else the stored value.
pub open spec fn sp16_next(
    stored: Seq<Bit>,
    data: Seq<Signal>,
    count_up: Signal,
    count_down: Signal,
    save_low: Signal,
    save_high: Signal,
) -> Seq<Signal> {
    let counted = arithmetic::ripple_sum(
        hardware::driven(stored),
        Seq::new(16, |i: int| count_down),
        gates::not_signal(count_down),
    );
    half_loaded(
        mux::mux_row(hardware::driven(stored), counted, gates::or_signal(count_up, count_down)),
        data,
        save_low,
        save_high,
    )
}

/// The next value of a stack pointer as a word.
pub open spec fn sp16_word(
    word: u16,
    data: u8,
    count_up: bool,
    count_down: bool,
    save_low: bool,
    save_high: bool,
) -> u16 {
    word_mixed(
        if count_down {
            utils::wrapped_word(word - 1)
        } else if count_up {
            utils::wrapped_word(word + 1)
        } else {
            word
        },
        data,
        save_low,
        save_high,
    )
}

/// With driven inputs, the stack pointer works on words.
pub proof fn law_sp16_next(
    word: u16,
    data: u8,
    count_up: bool,
    count_down: bool,
    save_low: bool,
    save_high: bool,
)
    ensures
        sp16_next(
            utils::word_bits(word),
            hardware::driven(utils::byte_bits(data)),
            Signal::Driven(hardware::bit_of(count_up)),
            Signal::Driven(hardware::bit_of(count_down)),
            Signal::Driven(hardware::bit_of(save_low)),
            Signal::Driven(hardware::bit_of(save_high)),
        ) == hardware::driven(
            utils::word_bits(
                sp16_word(word, data, count_up, count_down, save_low, save_high),
            ),
        ),
{
    let stepped = utils::wrapped_word(
        if count_down {
            word - 1
        } else {
            word + 1
        },
    );
    let counting = count_up || count_down;
    utils::law_word_unpacked(word);
    utils::law_word_unpacked(stepped);
    arithmetic::law_ripple_counts(word, count_down);
    lemma_mux_picks(
        hardware::driven(utils::word_bits(word)),
        hardware::driven(utils::word_bits(stepped)),
        counting,
    );
    lemma_half_loaded(
        if counting {
            stepped
        } else {
            word
        },
        data,
        save_low,
        save_high,
    );
}

/// A word of which no half is replaced stays as it is.
pub proof fn lemma_unmixed(word: u16, data: u8)
    ensures
        word_mixed(word, data, false, false) == word,
{
    utils::law_word_split(word);
}

/// A push and a pop of the stack pointer undo each other.
pub proof fn law_sp16_push_pop(word: u16, data: u8)
    ensures
        sp16_word(sp16_word(word, data, false, true, false, false), data, true, false, false, false)
            == word,
        sp16_word(sp16_word(word, data, true, false, false, false), data, false, true, false, false)
            == word,
{
    let down = utils::wrapped_word(word - 1);
    let up = utils::wrapped_word(word + 1);
    lemma_unmixed(down, data);
    lemma_unmixed(up, data);
    lemma_unmixed(word, data);
    assert(utils::wrapped_word(down + 1) == word);
    assert(utils::wrapped_word(up - 1) == word);
}

/// 16-bit stack pointer: an up/down counter with parallel load.
///
/// The same 16 full adders serve both directions. The per-bit adder input
/// `direction` is Low for a pop (adds `0000...0` with carry-in High, i.e.
/// increments by one) and High for a push (adds `1111...1` with carry-in
/// Low, i.e. decrements by one).
#[derive(Debug)]
pub struct StackPointer16Bits {
    registers: [Register8Bits; 2],
    /// Full-adder chain computing `state + direction_pattern + carry_in`.
    full_adders: [FullAdder; 16],
    /// Inverts the direction line into the initial carry.
    not_direction: NotGate,
    /// OR of count_up and count_down: the counter is counting.
    counting_or: OrGate,
    /// Per half: state when idle, computed next value when counting.
    count_muxes: [Mux8bits2x1; 2],
    /// Per half: counter value or bus data.
    load_muxes: [Mux8bits2x1; 2],
    output_nmos: [Nmos; 16],
}

impl Default for StackPointer16Bits {
    fn default() -> (pointer: StackPointer16Bits)
        ensures
            pointer.wf(),
            pointer@ == memory::blank_row(16),
    {
        let pointer = StackPointer16Bits {
            registers: [Register8Bits::default(), Register8Bits::default()],
            full_adders: [FullAdder::default(); 16],
            not_direction: NotGate::default(),
            counting_or: OrGate::default(),
            count_muxes: [Mux8bits2x1::default(); 2],
            load_muxes: [Mux8bits2x1::default(); 2],
            output_nmos: [Nmos::default(); 16],
        };
        assert(pointer@ =~= memory::blank_row(16));
        pointer
    }
}

impl View for StackPointer16Bits {
    type V = Seq<FlipFlopState>;

    closed spec fn view(&self) -> Seq<FlipFlopState> {
        pair_row(self.registers@)
    }
}

impl StackPointer16Bits {
    /// The stored 16-bit value, least significant bit first.
    pub fn state(&self) -> (bits: [Bit; 16])
        requires
            self.wf(),
        ensures
            bits@ == latches::slaves(self@),
    {
        pair_state(&self.registers)
    }

    /// The value is kept in sixteen flip-flops.
    pub proof fn lemma_width(&self)
        ensures
            self@.len() == 16,
    {
        self.registers@[0].lemma_width();
        self.registers@[1].lemma_width();
    }

    /// The stored word stepped in the given direction.
    fn step(&mut self, held: &[Signal; 16], direction: Signal) -> (r: Result<
        [Signal; 16],
        HardwareError,
    >)
        requires
            old(self).wf(),
        ensures
            final(self).wf(),
            final(self)@ == old(self)@,
            r is Ok,
            r->Ok_0@ == arithmetic::ripple_sum(
                held@,
                Seq::new(16, |i: int| direction),
                gates::not_signal(direction),
            ),
    {
        let mut not_direction = [Signal::HighImpedance];
        self.not_direction.conduct_into(&[direction], &mut not_direction)?;
        let ghost pattern = Seq::new(16, |i: int| direction);
        let ghost initial = gates::not_signal(direction);
        let mut stepped = [Signal::HighImpedance; 16];
        let mut carry = not_direction[0];
        for index in 0..16
            invariant
                self.wf(),
                self@ == old(self)@,
                pattern == Seq::new(16, |i: int| direction),
                carry == arithmetic::ripple_carry(held@, pattern, initial, index as nat),
                forall|k: int|
                    0 <= k < index ==> #[trigger] stepped@[k] == arithmetic::ripple_sum(
                        held@,
                        pattern,
                        initial,
                    )[k],
        {
            let mut both = [Signal::HighImpedance; 2];
            self.full_adders[index].conduct_into(&[held[index], direction, carry], &mut both)?;
            stepped[index] = both[0];
            carry = both[1];
        }
        assert(stepped@ =~= arithmetic::ripple_sum(held@, pattern, initial));
        Ok(stepped)
    }
}

impl Component for StackPointer16Bits {
    /// Inputs:
    ///
    /// - 0..8:  data, least significant bit first (the bus, for loads)
    /// - 8:     clock
    /// - 9:     count_up, increment on the rising edge when High (pop)
    /// - 10:    count_down, decrement on the rising edge when High (push)
    /// - 11:    save_low, capture `data` into the low byte
    /// - 12:    save_high, capture `data` into the high byte
    /// - 13:    load, gate the 16-bit output onto the address bus
    ///
    /// Outputs:
    ///
    /// - 0..16: the counter value, gated by `load`.
    const INPUTS: usize = 14;

    const OUTPUTS: usize = 16;

    open spec fn fan_in() -> nat {
        14
    }

    open spec fn fan_out() -> nat {
        16
    }

    proof fn arity() {
    }

    closed spec fn wf(&self) -> bool {
        self.registers@[0].wf() && self.registers@[1].wf()
    }

    open spec fn admits(state: Seq<FlipFlopState>, inputs: Seq<Signal>, slots: nat) -> bool {
        slots == 16
    }

    open spec fn respond(
        state: Seq<FlipFlopState>,
        inputs: Seq<Signal>,
        outputs: Seq<Signal>,
    ) -> Response<Seq<FlipFlopState>> {
        word_response(
            state,
            sp16_next(
                latches::slaves(state),
                inputs.subrange(0, 8),
                inputs[9],
                inputs[10],
                inputs[11],
                inputs[12],
            ),
            inputs[8],
            inputs[13],
            outputs,
        )
    }

    open spec fn transistors() -> nat {
        2552
    }

    fn conduct_into(&mut self, inputs: &[Signal], outputs: &mut [Signal]) -> (r: Result<
        (),
        HardwareError,
    >) {
        if inputs.len() != 14 {
            return Err(
                HardwareError::InvalidInputCount { expected: 14, actual: inputs.len() },
            );
        }
        let clock = inputs[8];
        let load = inputs[13];
        let ghost row = self@;
        let ghost data = sp16_next(
            latches::slaves(row),
            inputs@.subrange(0, 8),
            inputs@[9],
            inputs@[10],
            inputs@[11],
            inputs@[12],
        );
        proof {
            self.lemma_width();
        }

        // A High clock disables the registers' master latches: the next
        // value was preloaded during the Low tick, so the combinational
        // path is skipped.
        if FAST && clock == Signal::Driven(Bit::High) {
            let low = low_word();
            proof {
                memory::law_register_captures(row, low@);
                memory::law_register_captures(row, data);
            }
            pair_step(&mut self.registers, &low, clock)?;
            let stored = self.state();
            gate_word(&mut self.output_nmos, load, &stored, outputs)?;
            assert(outputs@ =~= hardware::gated_row(load, hardware::driven(stored@)));
            return Ok(());
        }

        let mut counting = [Signal::HighImpedance];
        self.counting_or.conduct_into(&[inputs[9], inputs[10]], &mut counting)?;
        let held = pair_lines(&self.registers);
        let stepped = self.step(&held, inputs[10])?;
        let counted = select_word(&mut self.count_muxes, &held, &stepped, counting[0])?;
        let next = select_halves(
            &mut self.load_muxes,
            &counted,
            &byte_lines(inputs, 0),
            inputs[11],
            inputs[12],
        )?;
        match pair_step(&mut self.registers, &next, clock) {
            Ok(()) => {},
            Err(error) => return Err(error),
        }
        let stored = self.state();
        gate_word(&mut self.output_nmos, load, &stored, outputs)?;
        assert(outputs@ =~= hardware::gated_row(load, hardware::driven(stored@)));
        Ok(())
    }

    fn transistor_count(&self) -> (count: usize) {
        let registers = self.registers[0].transistor_count() + self.registers[1].transistor_count();
        let mut full_adders: usize = 0;
        for index in 0..16
            invariant
                full_adders == 50 * index,
        {
            full_adders += self.full_adders[index].transistor_count();
        }
        let count_muxes = self.count_muxes[0].transistor_count()
            + self.count_muxes[1].transistor_count();
        let load_muxes = self.load_muxes[0].transistor_count()
            + self.load_muxes[1].transistor_count();
        let mut output_nmos: usize = 0;
        for index in 0..16
            invariant
                output_nmos == 1 * index,
        {
            output_nmos += self.output_nmos[index].transistor_count();
        }
        registers + full_adders + count_muxes + load_muxes + output_nmos
            + self.not_direction.transistor_count()
            + self.counting_or.transistor_count()
    }
}

/// Whether a 16-bit component stores a word, and puts it on its first sixteen
/// outputs while `enable` is High and nothing otherwise.
pub open spec fn shows_word(
    response: Response<Seq<FlipFlopState>>,
    word: u16,
    enable: Signal,
) -> bool {
    let address = response.outputs.take(16);
    &&& response.result is Ok
    &&& response.state.len() == 16
    &&& utils::word_of(latches::slaves(response.state)) == word
    &&& response.outputs.len() >= 16
    &&& enable == Signal::Driven(Bit::High) ==> hardware::all_driven(address) && utils::word_of(
        hardware::levels(address),
    ) == word
    &&& enable != Signal::Driven(Bit::High) ==> forall|i: int|
        0 <= i < 16 ==> (#[trigger] response.outputs[i]) is HighImpedance
}

/// Whether a word is made of the halves of another one, but for those that a
/// byte replaces.
pub open spec fn replaced(
    word: u16,
    base: int,
    data: u8,
    save_low: bool,
    save_high: bool,
) -> bool {
    &&& save_low ==> word % 256 == data
    &&& !save_low ==> word % 256 == base % 256
    &&& save_high ==> word / 256 == data
    &&& !save_high ==> word / 256 == base / 256
}

/// A full clock cycle of a row of sixteen flip-flops that writes at every
/// rising edge.
proof fn lemma_word_cycle(row: Seq<FlipFlopState>, next: u16, later: Seq<Signal>)
    requires
        row.len() == 16,
    ensures
        ({
            let data = hardware::driven(utils::word_bits(next));
            let tick = Signal::Driven(Bit::Low);
            let rise = Signal::Driven(Bit::High);
            let low = memory::row_next(row, data, tick, tick);
            let high = memory::row_next(low, later, rise, rise);
            &&& memory::row_result(row, data, tick, tick) is Ok
            &&& low.len() == 16
            &&& latches::slaves(low) == latches::slaves(row)
            &&& memory::row_result(low, later, rise, rise) is Ok
            &&& high.len() == 16
            &&& utils::word_of(latches::slaves(high)) == next
        }),
{
    let bits = utils::word_bits(next);
    utils::law_word_unpacked(next);
    memory::law_register_preloads(row, bits, Signal::Driven(Bit::Low));
    memory::law_register_captures(memory::preloaded(row, bits), later);
}

/// Gated levels show the word that is stored.
proof fn lemma_word_shown(response: Response<Seq<FlipFlopState>>, enable: Signal)
    requires
        response.result is Ok,
        response.state.len() == 16,
        response.outputs.len() >= 16,
        forall|i: int|
            0 <= i < 16 ==> #[trigger] response.outputs[i] == hardware::gated(
                enable,
                Signal::Driven(response.state[i].slave),
            ),
    ensures
        shows_word(response, utils::word_of(latches::slaves(response.state)), enable),
{
    if enable == Signal::Driven(Bit::High) {
        let address = response.outputs.take(16);
        assert forall|i: int| 0 <= i < 16 implies (#[trigger] address[i]) is Driven by {
            assert(address[i] == response.outputs[i]);
        }
        assert(hardware::levels(address) =~= latches::slaves(response.state));
    }
}

/// A full clock cycle of the program counter. The Low clock moves nothing
/// that is stored. The High clock stores the address bus when `load_addr` is
/// High, else the next number modulo 65536 when `count` is High, else what
/// was stored; on top of that `save_low` and `save_high` put the data byte
/// into one half each. The stored word is on the address bus while `enable`
/// is High.
pub proof fn law_pc16_cycle(
    row: Seq<FlipFlopState>,
    data: u8,
    address: u16,
    count: bool,
    load_addr: bool,
    save_low: bool,
    save_high: bool,
    inputs: Seq<Signal>,
    outputs: Seq<Signal>,
)
    requires
        row.len() == 16,
        inputs.len() == 32,
        inputs.subrange(0, 8) == hardware::driven(utils::byte_bits(data)),
        inputs.subrange(8, 24) == hardware::driven(utils::word_bits(address)),
        inputs[25] == Signal::Driven(hardware::bit_of(count)),
        inputs[26] == Signal::Driven(hardware::bit_of(load_addr)),
        inputs[27] == Signal::Driven(hardware::bit_of(save_low)),
        inputs[28] == Signal::Driven(hardware::bit_of(save_high)),
    ensures
        ({
            let before = utils::word_of(latches::slaves(row));
            let low = ProgramCounter16Bits::respond(
                row,
                inputs.update(24, Signal::Driven(Bit::Low)),
                outputs,
            );
            let high = ProgramCounter16Bits::respond(
                low.state,
                inputs.update(24, Signal::Driven(Bit::High)),
                outputs,
            );
            let after = utils::word_of(latches::slaves(high.state));
            let base: int = if load_addr {
                address as int
            } else if count {
                (before + 1) % 65536
            } else {
                before as int
            };
            &&& shows_word(low, before, inputs[29])
            &&& shows_word(high, after, inputs[29])
            &&& replaced(after, base, data, save_low, save_high)
        }),
{
    let before = utils::word_of(latches::slaves(row));
    let low_inputs = inputs.update(24, Signal::Driven(Bit::Low));
    let high_inputs = inputs.update(24, Signal::Driven(Bit::High));
    assert(low_inputs.subrange(0, 8) =~= inputs.subrange(0, 8));
    assert(low_inputs.subrange(8, 24) =~= inputs.subrange(8, 24));
    utils::law_word_packed(latches::slaves(row));
    law_pc16_next(before, data, address, count, load_addr, save_low, save_high);
    let next = pc16_word(before, data, address, count, load_addr, save_low, save_high);
    let low = ProgramCounter16Bits::respond(row, low_inputs, outputs);
    let high = ProgramCounter16Bits::respond(low.state, high_inputs, outputs);
    let later = pc16_next(
        latches::slaves(low.state),
        high_inputs.subrange(0, 8),
        high_inputs.subrange(8, 24),
        high_inputs[25],
        high_inputs[26],
        high_inputs[27],
        high_inputs[28],
    );
    lemma_word_cycle(row, next, later);
    lemma_word_shown(low, inputs[29]);
    lemma_word_shown(high, inputs[29]);
}

/// What the program counter puts on the data bus: with `out_lo` alone the low
/// byte of the stored word, with `out_hi` alone its high byte, and with
/// neither nothing. So the word put together from the two bytes is the stored
/// one.
pub proof fn law_pc16_drives_bytes(
    row: Seq<FlipFlopState>,
    inputs: Seq<Signal>,
    outputs: Seq<Signal>,
)
    requires
        row.len() == 16,
        inputs.len() == 32,
        ProgramCounter16Bits::respond(row, inputs, outputs).result is Ok,
    ensures
        ({
            let response = ProgramCounter16Bits::respond(row, inputs, outputs);
            let word = utils::word_of(latches::slaves(response.state));
            let data = response.outputs.subrange(16, 24);
            let low = inputs[30] == Signal::Driven(Bit::High);
            let high = inputs[31] == Signal::Driven(Bit::High);
            &&& response.outputs.len() == 24
            &&& low && !high ==> hardware::all_driven(data) && utils::byte_of(
                hardware::levels(data),
            ) == word % 256
            &&& high && !low ==> hardware::all_driven(data) && utils::byte_of(
                hardware::levels(data),
            ) == word / 256
            &&& !low && !high ==> forall|i: int|
                16 <= i < 24 ==> (#[trigger] response.outputs[i]) is HighImpedance
        }),
{
    let response = ProgramCounter16Bits::respond(row, inputs, outputs);
    let bits = latches::slaves(response.state);
    let word = utils::word_of(bits);
    let data = response.outputs.subrange(16, 24);
    utils::law_word_packed(bits);
    utils::law_word_split(word);
    utils::law_byte_unpacked(utils::low_byte(word));
    utils::law_byte_unpacked(utils::high_byte(word));
    let low = inputs[30] == Signal::Driven(Bit::High);
    let high = inputs[31] == Signal::Driven(Bit::High);
    if low && !high {
        assert(hardware::levels(data) =~= utils::byte_bits(utils::low_byte(word)));
    }
    if high && !low {
        assert(hardware::levels(data) =~= utils::byte_bits(utils::high_byte(word)));
    }
}

/// A full clock cycle of the stack pointer. The High clock stores the number
/// before modulo 65536 when `count_down` is High, else the next one when
/// `count_up` is High, else what was stored; on top of that `save_low` and
/// `save_high` put the data byte into one half each. The stored word is on
/// the address bus while `enable` is High.
pub proof fn law_sp16_cycle(
    row: Seq<FlipFlopState>,
    data: u8,
    count_up: bool,
    count_down: bool,
    save_low: bool,
    save_high: bool,
    inputs: Seq<Signal>,
    outputs: Seq<Signal>,
)
    requires
        row.len() == 16,
        inputs.len() == 14,
        inputs.subrange(0, 8) == hardware::driven(utils::byte_bits(data)),
        inputs[9] == Signal::Driven(hardware::bit_of(count_up)),
        inputs[10] == Signal::Driven(hardware::bit_of(count_down)),
        inputs[11] == Signal::Driven(hardware::bit_of(save_low)),
        inputs[12] == Signal::Driven(hardware::bit_of(save_high)),
    ensures
        ({
            let before = utils::word_of(latches::slaves(row));
            let low = StackPointer16Bits::respond(
                row,
                inputs.update(8, Signal::Driven(Bit::Low)),
                outputs,
            );
            let high = StackPointer16Bits::respond(
                low.state,
                inputs.update(8, Signal::Driven(Bit::High)),
                outputs,
            );
            let after = utils::word_of(latches::slaves(high.state));
            let base: int = if count_down {
                (before + 65535) % 65536
            } else if count_up {
                (before + 1) % 65536
            } else {
                before as int
            };
            &&& shows_word(low, before, inputs[13]) && low.outputs.len() == 16
            &&& shows_word(high, after, inputs[13]) && high.outputs.len() == 16
            &&& replaced(after, base, data, save_low, save_high)
        }),
{
    let before = utils::word_of(latches::slaves(row));
    let low_inputs = inputs.update(8, Signal::Driven(Bit::Low));
    let high_inputs = inputs.update(8, Signal::Driven(Bit::High));
    assert(low_inputs.subrange(0, 8) =~= inputs.subrange(0, 8));
    utils::law_word_packed(latches::slaves(row));
    law_sp16_next(before, data, count_up, count_down, save_low, save_high);
    let next = sp16_word(before, data, count_up, count_down, save_low, save_high);
    let low = StackPointer16Bits::respond(row, low_inputs, outputs);
    let high = StackPointer16Bits::respond(low.state, high_inputs, outputs);
    let later = sp16_next(
        latches::slaves(low.state),
        high_inputs.subrange(0, 8),
        high_inputs[9],
        high_inputs[10],
        high_inputs[11],
        high_inputs[12],
    );
    lemma_word_cycle(row, next, later);
    lemma_word_shown(low, inputs[13]);
    lemma_word_shown(high, inputs[13]);
    assert((before - 1) % 65536 == (before + 65535) % 65536);
}

/// A full clock cycle of the memory address register. The High clock stores
/// the address bus when `load16` is High and keeps what was stored
/// otherwise; on top of that `save_low` and `save_high` put the data byte
/// into one half each. The stored word is on the address bus while `enable`
/// is High.
pub proof fn law_mar16_cycle(
    row: Seq<FlipFlopState>,
    data: u8,
    address: u16,
    save_low: bool,
    save_high: bool,
    load16: bool,
    inputs: Seq<Signal>,
    outputs: Seq<Signal>,
)
    requires
        row.len() == 16,
        inputs.len() == 29,
        inputs.subrange(0, 8) == hardware::driven(utils::byte_bits(data)),
        inputs.subrange(8, 24) == hardware::driven(utils::word_bits(address)),
        inputs[25] == Signal::Driven(hardware::bit_of(save_low)),
        inputs[26] == Signal::Driven(hardware::bit_of(save_high)),
        inputs[27] == Signal::Driven(hardware::bit_of(load16)),
    ensures
        ({
            let before = utils::word_of(latches::slaves(row));
            let low = MemoryAddressRegister16Bits::respond(
                row,
                inputs.update(24, Signal::Driven(Bit::Low)),
                outputs,
            );
            let high = MemoryAddressRegister16Bits::respond(
                low.state,
                inputs.update(24, Signal::Driven(Bit::High)),
                outputs,
            );
            let after = utils::word_of(latches::slaves(high.state));
            let base: int = if load16 {
                address as int
            } else {
                before as int
            };
            &&& shows_word(low, before, inputs[28]) && low.outputs.len() == 16
            &&& shows_word(high, after, inputs[28]) && high.outputs.len() == 16
            &&& replaced(after, base, data, save_low, save_high)
        }),
{
    let before = utils::word_of(latches::slaves(row));
    let low_inputs = inputs.update(24, Signal::Driven(Bit::Low));
    let high_inputs = inputs.update(24, Signal::Driven(Bit::High));
    assert(low_inputs.subrange(0, 8) =~= inputs.subrange(0, 8));
    assert(low_inputs.subrange(8, 24) =~= inputs.subrange(8, 24));
    utils::law_word_packed(latches::slaves(row));
    law_mar16_next(before, data, address, save_low, save_high, load16);
    let next = mar16_word(before, data, address, save_low, save_high, load16);
    let low = MemoryAddressRegister16Bits::respond(row, low_inputs, outputs);
    let high = MemoryAddressRegister16Bits::respond(low.state, high_inputs, outputs);
    let later = mar16_next(
        latches::slaves(low.state),
        high_inputs.subrange(0, 8),
        high_inputs.subrange(8, 24),
        high_inputs[25],
        high_inputs[26],
        high_inputs[27],
    );
    lemma_word_cycle(row, next, later);
    lemma_word_shown(low, inputs[28]);
    lemma_word_shown(high, inputs[28]);
}

/// A full clock cycle of the 4-bit program counter. The High clock stores the
/// data lines when `save` is High and the next number modulo 16 otherwise.
/// The stored number is on the four outputs while `enable` is High.
pub proof fn law_pc4_cycle(
    row: Seq<FlipFlopState>,
    data: Seq<Bit>,
    save: Bit,
    enable: Signal,
    outputs: Seq<Signal>,
)
    requires
        row.len() == 8,
        utils::byte_of(latches::slaves(row)) < 16,
        data.len() == 4,
    ensures
        ({
            let before = utils::byte_of(latches::slaves(row));
            let lines = hardware::driven(data);
            let low = ProgramCounter4Bits::respond(
                row,
                lines + seq![Signal::Driven(Bit::Low), Signal::Driven(save), enable],
                outputs,
            );
            let high = ProgramCounter4Bits::respond(
                low.state,
                lines + seq![Signal::Driven(Bit::High), Signal::Driven(save), enable],
                outputs,
            );
            let after: int = if save == Bit::High {
                utils::bits_value(data) as int
            } else {
                (before + 1) % 16
            };
            &&& shows_nibble(low, before as int, enable)
            &&& shows_nibble(high, after, enable)
        }),
{
    let before = utils::byte_of(latches::slaves(row));
    let lines = hardware::driven(data);
    let low_inputs = lines + seq![Signal::Driven(Bit::Low), Signal::Driven(save), enable];
    let high_inputs = lines + seq![Signal::Driven(Bit::High), Signal::Driven(save), enable];
    let jump = if save == Bit::High {
        Some(data)
    } else {
        None
    };
    assert(low_inputs.subrange(0, 4) =~= lines);
    assert(high_inputs.subrange(0, 4) =~= lines);
    vstd::arithmetic::power2::lemma2_to64();
    utils::lemma_bits_value_bound(data);
    utils::law_byte_packed(latches::slaves(row));
    law_pc4_next(before, lines, jump);
    let next: u8 = match jump {
        Some(bits) => utils::bits_value(bits) as u8,
        None => ((before + 1) % 16) as u8,
    };
    let bits = utils::byte_bits(next);
    utils::law_byte_unpacked(next);
    memory::law_register_preloads(row, bits, Signal::Driven(Bit::Low));
    let taken = memory::preloaded(row, bits);
    let later = pc4_next(
        latches::slaves(taken),
        high_inputs.subrange(0, 4),
        Signal::Driven(save),
    );
    memory::law_register_captures(taken, later);
    let low = ProgramCounter4Bits::respond(row, low_inputs, outputs);
    let high = ProgramCounter4Bits::respond(low.state, high_inputs, outputs);
    assert(low.state == taken);
    lemma_nibble_shown(low, before, enable);
    lemma_nibble_shown(high, next, enable);
}

/// Whether a 4-bit component stores a number, and puts it on its outputs
/// while `enable` is High and nothing otherwise.
pub open spec fn shows_nibble(
    response: Response<Seq<FlipFlopState>>,
    value: int,
    enable: Signal,
) -> bool {
    &&& response.result is Ok
    &&& response.state.len() == 8
    &&& utils::byte_of(latches::slaves(response.state)) == value
    &&& response.outputs.len() == 4
    &&& enable == Signal::Driven(Bit::High) ==> hardware::all_driven(response.outputs)
        && utils::bits_value(hardware::levels(response.outputs)) == value
    &&& enable != Signal::Driven(Bit::High) ==> forall|i: int|
        0 <= i < 4 ==> (#[trigger] response.outputs[i]) is HighImpedance
}

/// Gated levels show the number that is stored.
proof fn lemma_nibble_shown(response: Response<Seq<FlipFlopState>>, value: u8, enable: Signal)
    requires
        response.result is Ok,
        response.state.len() == 8,
        utils::byte_of(latches::slaves(response.state)) == value,
        value < 16,
        response.outputs.len() == 4,
        forall|i: int|
            0 <= i < 4 ==> #[trigger] response.outputs[i] == hardware::gated(
                enable,
                Signal::Driven(response.state[i].slave),
            ),
    ensures
        shows_nibble(response, value as int, enable),
{
    let bits = latches::slaves(response.state);
    let low = bits.subrange(0, 4);
    let high = bits.subrange(4, 8);
    assert(low + high =~= bits);
    utils::law_byte_packed(bits);
    utils::lemma_bits_value_concat(low, high);
    utils::lemma_bits_value_bound(low);
    vstd::arithmetic::power2::lemma2_to64();
    assert(16 * utils::bits_value(high) <= value);
    if enable == Signal::Driven(Bit::High) {
        assert(hardware::levels(response.outputs) =~= low);
    }
}

/// What the counters show of themselves is what they store.
pub proof fn law_counters_shown(
    pc: &ProgramCounter16Bits,
    pc_bits: [Bit; 16],
    sp: &StackPointer16Bits,
    sp_bits: [Bit; 16],
    mar: &MemoryAddressRegister16Bits,
    mar_bits: [Bit; 16],
    index: int,
)
    requires
        pc.wf(),
        sp.wf(),
        mar.wf(),
        ProgramCounter16Bits::state.ensures((pc,), pc_bits),
        StackPointer16Bits::state.ensures((sp,), sp_bits),
        MemoryAddressRegister16Bits::state.ensures((mar,), mar_bits),
        0 <= index < 16,
    ensures
        pc_bits@[index] == pc@[index].slave,
        sp_bits@[index] == sp@[index].slave,
        mar_bits@[index] == mar@[index].slave,
{
    pc.lemma_width();
    sp.lemma_width();
    mar.lemma_width();
}

/// What a multiplexer passes on.
pub open spec fn picked(a: Signal, b: Signal, select: Signal) -> Signal {
    mux::Mux2x1::respond((), seq![a, b, select], hardware::floating(1)).outputs[0]
}

/// Whether a 16-bit component does with the clock, on any wires, what a row
/// of flip-flops does that takes in the given lines: a Low clock takes them
/// in where they are all driven and refuses them otherwise, a High clock
/// stores what was taken in, and a floating clock is refused. What is refused
/// leaves the stored word and the outputs alone.
pub open spec fn clocked(
    response: Response<Seq<FlipFlopState>>,
    row: Seq<FlipFlopState>,
    taken: Seq<Signal>,
    clock: Signal,
    outputs: Seq<Signal>,
) -> bool {
    &&& response.state.len() == 16
    &&& clock == Signal::Driven(Bit::High) ==> response.result is Ok && latches::slaves(
        response.state,
    ) == memory::masters(row)
    &&& clock == Signal::Driven(Bit::Low) ==> {
        &&& latches::slaves(response.state) == latches::slaves(row)
        &&& response.result is Ok <==> hardware::all_driven(taken)
        &&& response.result is Ok ==> memory::masters(response.state) == hardware::levels(taken)
    }
    &&& clock is HighImpedance ==> response.result is Err && response.state == row
    &&& response.result is Err ==> response.outputs == outputs && response.result == Err::<
        (),
        HardwareError,
    >(HardwareError::InvalidBit)
}

/// The program counter on any wires: bit by bit it takes in the data line of
/// its half where that half is saved, else the address line where
/// `load_addr` is High, else the counted or the stored bit, through three
/// multiplexers in a row.
pub proof fn law_pc16_wires(row: Seq<FlipFlopState>, inputs: Seq<Signal>, outputs: Seq<Signal>)
    requires
        row.len() == 16,
        inputs.len() == 32,
    ensures
        ({
            let word = utils::word_of(latches::slaves(row));
            let up = utils::word_bits(utils::wrapped_word(word + 1));
            let taken = Seq::new(
                16,
                |i: int|
                    picked(
                        picked(
                            picked(
                                Signal::Driven(row[i].slave),
                                Signal::Driven(up[i]),
                                inputs[25],
                            ),
                            inputs[8 + i],
                            inputs[26],
                        ),
                        inputs[i % 8],
                        inputs[27 + i / 8],
                    ),
            );
            clocked(
                ProgramCounter16Bits::respond(row, inputs, outputs),
                row,
                taken,
                inputs[24],
                outputs,
            )
        }),
{
    let word = utils::word_of(latches::slaves(row));
    let up = utils::word_bits(utils::wrapped_word(word + 1));
    utils::law_word_unpacked(utils::wrapped_word(word + 1));
    let taken = Seq::new(
        16,
        |i: int|
            picked(
                picked(
                    picked(Signal::Driven(row[i].slave), Signal::Driven(up[i]), inputs[25]),
                    inputs[8 + i],
                    inputs[26],
                ),
                inputs[i % 8],
                inputs[27 + i / 8],
            ),
    );
    let data = pc16_next(
        latches::slaves(row),
        inputs.subrange(0, 8),
        inputs.subrange(8, 24),
        inputs[25],
        inputs[26],
        inputs[27],
        inputs[28],
    );
    assert(data =~= taken);
    memory::law_row_clocked(row, data, inputs[24]);
}

/// The memory address register on any wires: bit by bit it takes in the data
/// line of its half where that half is saved, else the address line where
/// `load16` is High, else the stored bit, through two multiplexers in a row.
pub proof fn law_mar16_wires(row: Seq<FlipFlopState>, inputs: Seq<Signal>, outputs: Seq<Signal>)
    requires
        row.len() == 16,
        inputs.len() == 29,
    ensures
        ({
            let taken = Seq::new(
                16,
                |i: int|
                    picked(
                        picked(Signal::Driven(row[i].slave), inputs[8 + i], inputs[27]),
                        inputs[i % 8],
                        inputs[25 + i / 8],
                    ),
            );
            clocked(
                MemoryAddressRegister16Bits::respond(row, inputs, outputs),
                row,
                taken,
                inputs[24],
                outputs,
            )
        }),
{
    let taken = Seq::new(
        16,
        |i: int|
            picked(
                picked(Signal::Driven(row[i].slave), inputs[8 + i], inputs[27]),
                inputs[i % 8],
                inputs[25 + i / 8],
            ),
    );
    let data = mar16_next(
        latches::slaves(row),
        inputs.subrange(0, 8),
        inputs.subrange(8, 24),
        inputs[25],
        inputs[26],
        inputs[27],
    );
    assert(data =~= taken);
    memory::law_row_clocked(row, data, inputs[24]);
}

/// The stack pointer with driven counting lines, on any other wires: bit by
/// bit it takes in the data line of its half where that half is saved, else
/// the counted word.
pub proof fn law_sp16_wires(
    row: Seq<FlipFlopState>,
    count_up: bool,
    count_down: bool,
    inputs: Seq<Signal>,
    outputs: Seq<Signal>,
)
    requires
        row.len() == 16,
        inputs.len() == 14,
        inputs[9] == Signal::Driven(hardware::bit_of(count_up)),
        inputs[10] == Signal::Driven(hardware::bit_of(count_down)),
    ensures
        ({
            let word = utils::word_of(latches::slaves(row));
            let counted = utils::word_bits(
                utils::wrapped_word(
                    if count_down {
                        word - 1
                    } else if count_up {
                        word + 1
                    } else {
                        word as int
                    },
                ),
            );
            let taken = Seq::new(
                16,
                |i: int| picked(Signal::Driven(counted[i]), inputs[i % 8], inputs[11 + i / 8]),
            );
            clocked(
                StackPointer16Bits::respond(row, inputs, outputs),
                row,
                taken,
                inputs[8],
                outputs,
            )
        }),
{
    let word = utils::word_of(latches::slaves(row));
    let goal = utils::wrapped_word(
        if count_down {
            word - 1
        } else if count_up {
            word + 1
        } else {
            word as int
        },
    );
    let counted = utils::word_bits(goal);
    utils::law_word_packed(latches::slaves(row));
    utils::law_word_unpacked(goal);
    lemma_sp16_counts(word, count_up, count_down);
    let base = mux::mux_row(
        hardware::driven(latches::slaves(row)),
        arithmetic::ripple_sum(
            hardware::driven(latches::slaves(row)),
            Seq::new(16, |i: int| inputs[10]),
            gates::not_signal(inputs[10]),
        ),
        gates::or_signal(inputs[9], inputs[10]),
    );
    assert(base == hardware::driven(counted));
    let taken = Seq::new(
        16,
        |i: int| picked(Signal::Driven(counted[i]), inputs[i % 8], inputs[11 + i / 8]),
    );
    let data = sp16_next(
        latches::slaves(row),
        inputs.subrange(0, 8),
        inputs[9],
        inputs[10],
        inputs[11],
        inputs[12],
    );
    assert(data == half_loaded(base, inputs.subrange(0, 8), inputs[11], inputs[12]));
    assert(data =~= taken);
    memory::law_row_clocked(row, data, inputs[8]);
}

/// The adder chain of the stack pointer with driven counting lines: it gives
/// the counted word, or the stored one where nothing counts.
proof fn lemma_sp16_counts(word: u16, count_up: bool, count_down: bool)
    ensures
        ({
            let stored = hardware::driven(utils::word_bits(word));
            let up = Signal::Driven(hardware::bit_of(count_up));
            let down = Signal::Driven(hardware::bit_of(count_down));
            mux::mux_row(
                stored,
                arithmetic::ripple_sum(
                    stored,
                    Seq::new(16, |i: int| down),
                    gates::not_signal(down),
                ),
                gates::or_signal(up, down),
            ) == hardware::driven(
                utils::word_bits(
                    utils::wrapped_word(
                        if count_down {
                            word - 1
                        } else if count_up {
                            word + 1
                        } else {
                            word as int
                        },
                    ),
                ),
            )
        }),
{
    let stepped = utils::wrapped_word(
        if count_down {
            word - 1
        } else {
            word + 1
        },
    );
    utils::law_word_unpacked(word);
    utils::law_word_unpacked(stepped);
    utils::law_wrapping(word as int);
    arithmetic::law_ripple_counts(word, count_down);
    lemma_mux_picks(
        hardware::driven(utils::word_bits(word)),
        hardware::driven(utils::word_bits(stepped)),
        count_up || count_down,
    );
}

/// Counters that were never written store zero.
pub proof fn law_counters_start_at_zero(
    small: ProgramCounter4Bits,
    pc: ProgramCounter16Bits,
    sp: StackPointer16Bits,
    mar: MemoryAddressRegister16Bits,
    index: int,
)
    requires
        ProgramCounter4Bits::default.ensures((), small),
        ProgramCounter16Bits::default.ensures((), pc),
        StackPointer16Bits::default.ensures((), sp),
        MemoryAddressRegister16Bits::default.ensures((), mar),
        0 <= index < 16,
    ensures
        small.wf() && pc.wf() && sp.wf() && mar.wf(),
        index < 8 ==> small@[index].slave == Bit::Low,
        pc@[index].slave == Bit::Low,
        sp@[index].slave == Bit::Low,
        mar@[index].slave == Bit::Low,
{
}

/// The next word of the program counter.
pub proof fn law_pc16_words(
    word: u16,
    data: u8,
    address: u16,
    count: bool,
    load_addr: bool,
    save_low: bool,
    save_high: bool,
)
    ensures
        ({
            let base: int = if load_addr {
                address as int
            } else if count {
                (word + 1) % 65536
            } else {
                word as int
            };
            replaced(
                pc16_word(word, data, address, count, load_addr, save_low, save_high),
                base,
                data,
                save_low,
                save_high,
            )
        }),
{
}

/// The next word of the memory address register.
pub proof fn law_mar16_words(
    word: u16,
    data: u8,
    address: u16,
    save_low: bool,
    save_high: bool,
    load16: bool,
)
    ensures
        ({
            let base: int = if load16 {
                address as int
            } else {
                word as int
            };
            replaced(
                mar16_word(word, data, address, save_low, save_high, load16),
                base,
                data,
                save_low,
                save_high,
            )
        }),
{
}

/// The next word of the stack pointer.
pub proof fn law_sp16_words(
    word: u16,
    data: u8,
    count_up: bool,
    count_down: bool,
    save_low: bool,
    save_high: bool,
)
    ensures
        ({
            let base: int = if count_down {
                (word + 65535) % 65536
            } else if count_up {
                (word + 1) % 65536
            } else {
                word as int
            };
            let next = sp16_word(word, data, count_up, count_down, save_low, save_high);
            &&& replaced(next, base, data, save_low, save_high)
            &&& !save_low && !save_high ==> next == base
        }),
{
    utils::law_word_split(utils::wrapped_word(word - 1));
    utils::law_word_split(utils::wrapped_word(word + 1));
    utils::law_word_split(word);
    assert((word - 1) % 65536 == (word + 65535) % 65536);
}

/// The 4-bit program counter shows what it stores.
pub proof fn law_small_counter_shown(pc: &ProgramCounter4Bits, bits: [Bit; 8], index: int)
    requires
        pc.wf(),
        ProgramCounter4Bits::state.ensures((pc,), bits),
        0 <= index < 8,
        pc@.len() == 8,
    ensures
        bits@[index] == pc@[index].slave,
{
}

} // verus!
