//! Storage components: registers, flags and ports.
//!
//! All multi-bit values are least significant bit first. The view of a
//! register is its row of flip-flops: the slaves are the stored value,
//! the masters are what the next rising edge captures.
//!
//! * [`Register8Bits`]: eight D flip-flops with save/load. Writes on the
//!   rising edge of `clock` when `save` is High; outputs float when
//!   `load` is Low.
//! * [`FlagsRegister`]: three flag latches (zero, carry, sign) written
//!   together on a common save pulse; outputs always driven.
//! * [`InputPort`]: eight tri-state switches driving the data bus on
//!   demand.
//! * [`OutputRegister`]: a register whose outputs feed the outside world.
//!
//! The counters and the memories built from registers are exported here
//! too.

use vstd::prelude::*;

pub use crate::counters::{
    MemoryAddressRegister16Bits, ProgramCounter16Bits, ProgramCounter4Bits, StackPointer16Bits,
};
pub use crate::ram::{
    Ram256Bits, Ram64KBits, ADDRESS_BITS, RAM64K_ADDRESS_BITS, RAM64K_CHIPS, RAM_REGISTERS,
};


use crate::hardware::{self, Bit, Component, HardwareError, Nmos, Response, Signal};
use crate::latches::{self, DFlipFlopSaveLoad, FlipFlopState};
use crate::utils;
use crate::FAST;

verus! {

/// What the next rising edge captures, one level per flip-flop.
pub open spec fn masters(row: Seq<FlipFlopState>) -> Seq<Bit> {
    Seq::new(row.len(), |i: int| row[i].master)
}

/// A row of `count` flip-flops that was never written.
pub open spec fn blank_row(count: nat) -> Seq<FlipFlopState> {
    Seq::new(count, |i: int| latches::blank_flip_flop())
}

/// A row whose masters took over the given levels.
pub open spec fn preloaded(row: Seq<FlipFlopState>, bits: Seq<Bit>) -> Seq<FlipFlopState> {
    Seq::new(row.len(), |i: int| FlipFlopState { master: bits[i], slave: row[i].slave })
}

/// A row whose slaves took over the levels of the masters.
pub open spec fn captured(row: Seq<FlipFlopState>) -> Seq<FlipFlopState> {
    Seq::new(row.len(), |i: int| FlipFlopState { master: row[i].master, slave: row[i].master })
}

/// What the flip-flop at `index` does in one propagation.
pub open spec fn step_at(
    row: Seq<FlipFlopState>,
    data: Seq<Signal>,
    clock: Signal,
    save: Signal,
    index: int,
) -> Result<FlipFlopState, HardwareError> {
    latches::save_next(row[index], data[index], clock, save)
}

/// How many of the first `count` flip-flops step before one refuses its
/// inputs.
pub open spec fn steps(
    row: Seq<FlipFlopState>,
    data: Seq<Signal>,
    clock: Signal,
    save: Signal,
    count: nat,
) -> nat
    decreases count,
{
    if count == 0 {
        0
    } else {
        let before = steps(row, data, clock, save, (count - 1) as nat);
        if before == count - 1 && step_at(row, data, clock, save, count - 1) is Ok {
            count
        } else {
            before
        }
    }
}

/// What a row of flip-flops remembers next. The flip-flops step in
/// order; the first one that refuses its inputs ends the propagation.
pub open spec fn row_next(
    row: Seq<FlipFlopState>,
    data: Seq<Signal>,
    clock: Signal,
    save: Signal,
) -> Seq<FlipFlopState> {
    Seq::new(
        row.len(),
        |i: int|
            if i < steps(row, data, clock, save, row.len()) {
                step_at(row, data, clock, save, i)->Ok_0
            } else {
                row[i]
            },
    )
}

/// How the propagation through a row of flip-flops ends.
pub open spec fn row_result(
    row: Seq<FlipFlopState>,
    data: Seq<Signal>,
    clock: Signal,
    save: Signal,
) -> Result<(), HardwareError> {
    if steps(row, data, clock, save, row.len()) == row.len() {
        Ok(())
    } else {
        Err(HardwareError::InvalidBit)
    }
}

/// What a register does: every flip-flop that steps puts its stored
/// level on its output, gated by `load`.
pub open spec fn register_response(
    row: Seq<FlipFlopState>,
    data: Seq<Signal>,
    clock: Signal,
    save: Signal,
    load: Signal,
    outputs: Seq<Signal>,
) -> Response<Seq<FlipFlopState>> {
    let next = row_next(row, data, clock, save);
    Response {
        state: next,
        outputs: Seq::new(
            row.len(),
            |i: int|
                if i < steps(row, data, clock, save, row.len()) {
                    hardware::gated(load, Signal::Driven(next[i].slave))
                } else {
                    outputs[i]
                },
        ),
        result: row_result(row, data, clock, save),
    }
}

/// A row in which no flip-flop refuses its inputs steps as a whole.
pub proof fn lemma_steps_all(
    row: Seq<FlipFlopState>,
    data: Seq<Signal>,
    clock: Signal,
    save: Signal,
    count: nat,
)
    requires
        forall|i: int| 0 <= i < count ==> (#[trigger] step_at(row, data, clock, save, i)) is Ok,
    ensures
        steps(row, data, clock, save, count) == count,
    decreases count,
{
    if count > 0 {
        lemma_steps_all(row, data, clock, save, (count - 1) as nat);
        assert(step_at(row, data, clock, save, count - 1) is Ok);
    }
}

/// A flip-flop that refuses its inputs ends the propagation there.
pub proof fn lemma_steps_stop(
    row: Seq<FlipFlopState>,
    data: Seq<Signal>,
    clock: Signal,
    save: Signal,
    stop: nat,
    count: nat,
)
    requires
        stop < count,
        steps(row, data, clock, save, stop) == stop,
        step_at(row, data, clock, save, stop as int) is Err,
    ensures
        steps(row, data, clock, save, count) == stop,
    decreases count,
{
    if count > stop + 1 {
        lemma_steps_stop(row, data, clock, save, stop, (count - 1) as nat);
    }
}

/// A Low clock preloads the masters with driven data and leaves the
/// stored value alone.
pub proof fn law_register_preloads(row: Seq<FlipFlopState>, bits: Seq<Bit>, save: Signal)
    requires
        bits.len() == row.len(),
    ensures
        ({
            let data = hardware::driven(bits);
            let clock = Signal::Driven(Bit::Low);
            &&& steps(row, data, clock, save, row.len()) == row.len()
            &&& row_result(row, data, clock, save) is Ok
            &&& row_next(row, data, clock, save) == preloaded(row, bits)
            &&& latches::slaves(preloaded(row, bits)) == latches::slaves(row)
            &&& masters(preloaded(row, bits)) == bits
        }),
{
    let data = hardware::driven(bits);
    let clock = Signal::Driven(Bit::Low);
    lemma_steps_all(row, data, clock, save, row.len());
    assert(row_next(row, data, clock, save) =~= preloaded(row, bits));
    assert(latches::slaves(preloaded(row, bits)) =~= latches::slaves(row));
    assert(masters(preloaded(row, bits)) =~= bits);
}

/// A High clock with `save` High stores what the masters hold, whatever
/// is on the data lines.
pub proof fn law_register_captures(row: Seq<FlipFlopState>, data: Seq<Signal>)
    ensures
        ({
            let high = Signal::Driven(Bit::High);
            &&& steps(row, data, high, high, row.len()) == row.len()
            &&& row_result(row, data, high, high) is Ok
            &&& row_next(row, data, high, high) == captured(row)
            &&& latches::slaves(captured(row)) == masters(row)
            &&& masters(captured(row)) == masters(row)
        }),
{
    let high = Signal::Driven(Bit::High);
    lemma_steps_all(row, data, high, high, row.len());
    assert(row_next(row, data, high, high) =~= captured(row));
    assert(latches::slaves(captured(row)) =~= masters(row));
    assert(masters(captured(row)) =~= masters(row));
}

/// A High clock with `save` Low changes nothing.
pub proof fn law_register_holds(row: Seq<FlipFlopState>, data: Seq<Signal>)
    ensures
        ({
            let high = Signal::Driven(Bit::High);
            let low = Signal::Driven(Bit::Low);
            &&& steps(row, data, high, low, row.len()) == row.len()
            &&& row_result(row, data, high, low) is Ok
            &&& row_next(row, data, high, low) == row
        }),
{
    let high = Signal::Driven(Bit::High);
    let low = Signal::Driven(Bit::Low);
    lemma_steps_all(row, data, high, low, row.len());
    assert(row_next(row, data, high, low) =~= row);
}

/// What a register gives back is what was written: after a Low clock
/// with `bits` on the data lines and a High clock with `save` High, the
/// outputs carry `bits` while `load` is High and float while it is Low.
pub proof fn law_register_reads_back(
    row: Seq<FlipFlopState>,
    bits: Seq<Bit>,
    save: Signal,
    data: Seq<Signal>,
    load: Bit,
    outputs: Seq<Signal>,
)
    requires
        bits.len() == row.len(),
    ensures
        ({
            let high = Signal::Driven(Bit::High);
            let low = row_next(row, hardware::driven(bits), Signal::Driven(Bit::Low), save);
            let response = register_response(
                low,
                data,
                high,
                high,
                Signal::Driven(load),
                outputs,
            );
            &&& response.result is Ok
            &&& latches::slaves(response.state) == bits
            &&& response.outputs == if load == Bit::High {
                hardware::driven(bits)
            } else {
                hardware::floating(row.len())
            }
        }),
{
    law_register_preloads(row, bits, save);
    let low = preloaded(row, bits);
    law_register_captures(low, data);
    let high = Signal::Driven(Bit::High);
    let response = register_response(low, data, high, high, Signal::Driven(load), outputs);
    assert(response.outputs =~= if load == Bit::High {
        hardware::driven(bits)
    } else {
        hardware::floating(row.len())
    });
}

/// The first flip-flops of a row step as if they were alone.
proof fn lemma_steps_prefix(
    low: Seq<FlipFlopState>,
    high: Seq<FlipFlopState>,
    low_data: Seq<Signal>,
    high_data: Seq<Signal>,
    clock: Signal,
    save: Signal,
    count: nat,
)
    requires
        low_data.len() == low.len(),
        count <= low.len(),
    ensures
        steps(low + high, low_data + high_data, clock, save, count) == steps(
            low,
            low_data,
            clock,
            save,
            count,
        ),
    decreases count,
{
    if count > 0 {
        lemma_steps_prefix(low, high, low_data, high_data, clock, save, (count - 1) as nat);
    }
}

/// Once the first flip-flops have stepped, the others step as if they
/// were alone.
proof fn lemma_steps_suffix(
    low: Seq<FlipFlopState>,
    high: Seq<FlipFlopState>,
    low_data: Seq<Signal>,
    high_data: Seq<Signal>,
    clock: Signal,
    save: Signal,
    count: nat,
)
    requires
        low_data.len() == low.len(),
        count <= high.len(),
        count <= high_data.len(),
        steps(low, low_data, clock, save, low.len()) == low.len(),
    ensures
        steps(low + high, low_data + high_data, clock, save, low.len() + count) == low.len()
            + steps(high, high_data, clock, save, count),
    decreases count,
{
    if count == 0 {
        lemma_steps_prefix(low, high, low_data, high_data, clock, save, low.len());
    } else {
        lemma_steps_suffix(low, high, low_data, high_data, clock, save, (count - 1) as nat);
        let row = low + high;
        let data = low_data + high_data;
        assert(row[low.len() + count - 1] == high[count - 1]);
        assert(data[low.len() + count - 1] == high_data[count - 1]);
    }
}

/// The number of flip-flops that step is at most the length of the row,
/// and the one that it stops at refuses its inputs.
pub proof fn lemma_steps_bound(
    row: Seq<FlipFlopState>,
    data: Seq<Signal>,
    clock: Signal,
    save: Signal,
    count: nat,
)
    ensures
        steps(row, data, clock, save, count) <= count,
        ({
            let reach = steps(row, data, clock, save, count);
            &&& steps(row, data, clock, save, reach) == reach
            &&& reach < count ==> step_at(row, data, clock, save, reach as int) is Err
        }),
    decreases count,
{
    if count > 0 {
        lemma_steps_bound(row, data, clock, save, (count - 1) as nat);
    }
}

/// Two rows side by side step one after the other; when the first one
/// stops, the second one is not reached.
pub proof fn lemma_row_concat(
    low: Seq<FlipFlopState>,
    high: Seq<FlipFlopState>,
    low_data: Seq<Signal>,
    high_data: Seq<Signal>,
    clock: Signal,
    save: Signal,
)
    requires
        low_data.len() == low.len(),
        high_data.len() == high.len(),
    ensures
        row_next(low + high, low_data + high_data, clock, save) == row_next(
            low,
            low_data,
            clock,
            save,
        ) + if row_result(low, low_data, clock, save) is Ok {
            row_next(high, high_data, clock, save)
        } else {
            high
        },
        row_result(low + high, low_data + high_data, clock, save) == if row_result(
            low,
            low_data,
            clock,
            save,
        ) is Ok {
            row_result(high, high_data, clock, save)
        } else {
            row_result(low, low_data, clock, save)
        },
{
    let row = low + high;
    let data = low_data + high_data;
    let first = steps(low, low_data, clock, save, low.len());
    lemma_steps_bound(low, low_data, clock, save, low.len());
    lemma_steps_bound(high, high_data, clock, save, high.len());
    if first == low.len() {
        lemma_steps_suffix(low, high, low_data, high_data, clock, save, high.len());
        assert(row_next(row, data, clock, save) =~= row_next(low, low_data, clock, save)
            + row_next(high, high_data, clock, save));
    } else {
        lemma_steps_prefix(low, high, low_data, high_data, clock, save, first);
        lemma_steps_stop(row, data, clock, save, first, row.len());
        assert(row_next(row, data, clock, save) =~= row_next(low, low_data, clock, save) + high);
    }
}

/// The input lines of a register that writes at every rising edge and
/// always drives its outputs.
pub(crate) fn clocked_lines(data: &[Signal; 8], clock: Signal) -> (lines: [Signal; 11])
    ensures
        lines@.subrange(0, 8) == data@,
        lines@[8] == clock,
        lines@[9] == clock,
        lines@[10] == Signal::Driven(Bit::High),
{
    let lines = [
        data[0],
        data[1],
        data[2],
        data[3],
        data[4],
        data[5],
        data[6],
        data[7],
        clock,
        clock,
        Signal::Driven(Bit::High),
    ];
    assert(lines@.subrange(0, 8) =~= data@);
    lines
}

/// Eight-bit register: writes on the rising edge when `save` is High.
#[derive(Debug)]
pub struct Register8Bits {
    flip_flops: [DFlipFlopSaveLoad; 8],
}

impl Default for Register8Bits {
    fn default() -> (register: Register8Bits)
        ensures
            register.wf(),
            register@ == blank_row(8),
    {
        let register = Register8Bits {
            flip_flops: [
                DFlipFlopSaveLoad::default(),
                DFlipFlopSaveLoad::default(),
                DFlipFlopSaveLoad::default(),
                DFlipFlopSaveLoad::default(),
                DFlipFlopSaveLoad::default(),
                DFlipFlopSaveLoad::default(),
                DFlipFlopSaveLoad::default(),
                DFlipFlopSaveLoad::default(),
            ],
        };
        assert(register@ =~= blank_row(8));
        register
    }
}

impl View for Register8Bits {
    type V = Seq<FlipFlopState>;

    closed spec fn view(&self) -> Seq<FlipFlopState> {
        Seq::new(8, |i: int| self.flip_flops@[i]@)
    }
}

impl Register8Bits {
    /// The stored byte, least significant bit first.
    pub fn state(&self) -> (bits: [Bit; 8])
        requires
            self.wf(),
        ensures
            bits@ == latches::slaves(self@),
    {
        let mut bits = [Bit::Low; 8];
        for index in 0..8
            invariant
                self.wf(),
                forall|i: int| 0 <= i < index ==> #[trigger] bits@[i] == self@[i].slave,
        {
            bits[index] = self.flip_flops[index].q();
        }
        assert(bits@ =~= latches::slaves(self@));
        bits
    }

    /// A register has eight flip-flops.
    pub proof fn lemma_width(&self)
        ensures
            self@.len() == 8,
    {
    }
}

impl Component for Register8Bits {
    /// Inputs:
    ///
    /// - 0..8:  data, least significant bit first
    /// - 8:     clock
    /// - 9:     save
    /// - 10:    load
    ///
    /// Outputs:
    ///
    /// - 0..8: the stored byte, gated by `load`. Every output floats when
    ///   `load` is Low.
    ///
    /// Store `data` on the rising edge of `clock` when `save` is High.
    const INPUTS: usize = 11;

    const OUTPUTS: usize = 8;

    open spec fn fan_in() -> nat {
        11
    }

    open spec fn fan_out() -> nat {
        8
    }

    proof fn arity() {
    }

    closed spec fn wf(&self) -> bool {
        forall|i: int| 0 <= i < 8 ==> (#[trigger] self.flip_flops@[i]).wf()
    }

    open spec fn admits(state: Seq<FlipFlopState>, inputs: Seq<Signal>, slots: nat) -> bool {
        slots == 8
    }

    open spec fn respond(
        state: Seq<FlipFlopState>,
        inputs: Seq<Signal>,
        outputs: Seq<Signal>,
    ) -> Response<Seq<FlipFlopState>> {
        register_response(
            state,
            inputs.subrange(0, 8),
            inputs[8],
            inputs[9],
            inputs[10],
            outputs,
        )
    }

    open spec fn transistors() -> nat {
        544
    }

    fn conduct_into(&mut self, inputs: &[Signal], outputs: &mut [Signal]) -> (r: Result<
        (),
        HardwareError,
    >) {
        if inputs.len() != 11 {
            return Err(
                HardwareError::InvalidInputCount { expected: 11, actual: inputs.len() },
            );
        }
        let clock = inputs[8];
        let save = inputs[9];
        let load = inputs[10];
        let ghost row = self@;
        let ghost data = inputs@.subrange(0, 8);

        // A High clock disables the master latches and a Low `save` blocks
        // the slave capture: no flip-flop can change, so the stored state
        // is returned as it is. Low-clock calls always propagate, since
        // the masters must preload there.
        if FAST && clock == Signal::Driven(Bit::High) && save == Signal::Driven(Bit::Low) {
            proof {
                law_register_holds(row, data);
            }
            let drive = load == Signal::Driven(Bit::High);
            for index in 0..8
                invariant
                    self.wf(),
                    self@ == row,
                    outputs@.len() == 8,
                    drive == (load == Signal::Driven(Bit::High)),
                    forall|i: int|
                        0 <= i < index ==> #[trigger] outputs@[i] == hardware::gated(
                            load,
                            Signal::Driven(row[i].slave),
                        ),
            {
                outputs[index] = if drive {
                    Signal::Driven(self.flip_flops[index].q())
                } else {
                    Signal::HighImpedance
                };
            }
            assert(outputs@ =~= register_response(
                row,
                data,
                clock,
                save,
                load,
                old(outputs)@,
            ).outputs);
            return Ok(());
        }

        for index in 0..8
            invariant
                forall|i: int| 0 <= i < 8 ==> (#[trigger] self.flip_flops@[i]).wf(),
                inputs@.len() == 11,
                outputs@.len() == 8,
                old(outputs)@.len() == 8,
                row == old(self)@,
                row.len() == 8,
                data == inputs@.subrange(0, 8),
                clock == inputs@[8],
                save == inputs@[9],
                load == inputs@[10],
                steps(row, data, clock, save, index as nat) == index,
                forall|i: int|
                    0 <= i < index ==> Ok::<FlipFlopState, HardwareError>(
                        (#[trigger] self.flip_flops@[i])@,
                    ) == step_at(row, data, clock, save, i),
                forall|i: int|
                    0 <= i < index ==> #[trigger] outputs@[i] == hardware::gated(
                        load,
                        Signal::Driven(step_at(row, data, clock, save, i)->Ok_0.slave),
                    ),
                forall|i: int| index <= i < 8 ==> (#[trigger] self.flip_flops@[i])@ == row[i],
                forall|i: int| index <= i < 8 ==> #[trigger] outputs@[i] == old(outputs)@[i],
        {
            let mut slot = [Signal::HighImpedance; 2];
            assert(data[index as int] == inputs@[index as int]);
            match self.flip_flops[index].conduct_into(
                &[inputs[index], clock, save, load],
                &mut slot,
            ) {
                Ok(()) => {},
                Err(error) => {
                    proof {
                        lemma_steps_stop(row, data, clock, save, index as nat, 8);
                        let response = register_response(
                            row,
                            data,
                            clock,
                            save,
                            load,
                            old(outputs)@,
                        );
                        assert(self@ =~= response.state);
                        assert(outputs@ =~= response.outputs);
                    }
                    return Err(error);
                },
            }
            outputs[index] = slot[0];
        }
        proof {
            let response = register_response(row, data, clock, save, load, old(outputs)@);
            assert(self@ =~= response.state);
            assert(outputs@ =~= response.outputs);
        }
        Ok(())
    }

    fn transistor_count(&self) -> (count: usize) {
        let mut count: usize = 0;
        for index in 0..8
            invariant
                self.wf(),
                count == 68 * index,
        {
            count += self.flip_flops[index].transistor_count();
        }
        count
    }
}

/// How far three flip-flops step.
proof fn lemma_three_steps(
    row: Seq<FlipFlopState>,
    data: Seq<Signal>,
    clock: Signal,
    save: Signal,
)
    ensures
        steps(row, data, clock, save, 3) == if step_at(row, data, clock, save, 0) is Err {
            0nat
        } else if step_at(row, data, clock, save, 1) is Err {
            1
        } else if step_at(row, data, clock, save, 2) is Err {
            2
        } else {
            3
        },
{
    reveal_with_fuel(steps, 4);
}

/// Three flag latches: zero, carry and sign.
///
/// All three capture their input bit on the rising edge of `clock` when
/// `save` is High, typically the control unit's `fi` pulse at the end of an
/// ALU operation. The outputs are always driven: the control unit reads the
/// flags directly, not through the shared bus. The view is the row of the
/// three latches in that order.
#[derive(Debug)]
pub struct FlagsRegister {
    zero: DFlipFlopSaveLoad,
    carry: DFlipFlopSaveLoad,
    sign: DFlipFlopSaveLoad,
}

impl Default for FlagsRegister {
    fn default() -> (flags: FlagsRegister)
        ensures
            flags.wf(),
            flags@ == blank_row(3),
    {
        let flags = FlagsRegister {
            zero: DFlipFlopSaveLoad::default(),
            carry: DFlipFlopSaveLoad::default(),
            sign: DFlipFlopSaveLoad::default(),
        };
        assert(flags@ =~= blank_row(3));
        flags
    }
}

impl View for FlagsRegister {
    type V = Seq<FlipFlopState>;

    closed spec fn view(&self) -> Seq<FlipFlopState> {
        seq![self.zero@, self.carry@, self.sign@]
    }
}

impl FlagsRegister {
    /// The stored flags as `(zero, carry, sign)`.
    pub fn state(&self) -> (flags: (Bit, Bit, Bit))
        requires
            self.wf(),
        ensures
            seq![flags.0, flags.1, flags.2] == latches::slaves(self@),
    {
        let flags = (self.zero.q(), self.carry.q(), self.sign.q());
        assert(seq![flags.0, flags.1, flags.2] =~= latches::slaves(self@));
        flags
    }

    /// There are three flags.
    pub proof fn lemma_width(&self)
        ensures
            self@.len() == 3,
    {
    }
}

impl Component for FlagsRegister {
    /// Inputs:
    ///
    /// - 0: zero flag input
    /// - 1: carry flag input
    /// - 2: sign flag input
    /// - 3: clock
    /// - 4: save
    ///
    /// Outputs:
    ///
    /// - 0: zero flag output
    /// - 1: carry flag output
    /// - 2: sign flag output
    const INPUTS: usize = 5;

    const OUTPUTS: usize = 3;

    open spec fn fan_in() -> nat {
        5
    }

    open spec fn fan_out() -> nat {
        3
    }

    proof fn arity() {
    }

    closed spec fn wf(&self) -> bool {
        self.zero.wf() && self.carry.wf() && self.sign.wf()
    }

    open spec fn admits(state: Seq<FlipFlopState>, inputs: Seq<Signal>, slots: nat) -> bool {
        slots == 3
    }

    open spec fn respond(
        state: Seq<FlipFlopState>,
        inputs: Seq<Signal>,
        outputs: Seq<Signal>,
    ) -> Response<Seq<FlipFlopState>> {
        register_response(
            state,
            inputs.subrange(0, 3),
            inputs[3],
            inputs[4],
            Signal::Driven(Bit::High),
            outputs,
        )
    }

    open spec fn transistors() -> nat {
        204
    }

    fn conduct_into(&mut self, inputs: &[Signal], outputs: &mut [Signal]) -> (r: Result<
        (),
        HardwareError,
    >) {
        if inputs.len() != 5 {
            return Err(
                HardwareError::InvalidInputCount { expected: 5, actual: inputs.len() },
            );
        }
        let clock = inputs[3];
        let save = inputs[4];
        let ghost row = self@;
        let ghost data = inputs@.subrange(0, 3);
        let ghost response = register_response(
            row,
            data,
            clock,
            save,
            Signal::Driven(Bit::High),
            outputs@,
        );
        proof {
            lemma_three_steps(row, data, clock, save);
        }

        // The flag outputs drive internal nets, not the shared bus: each
        // flip-flop's `load` pin is tied HIGH.
        let tied_high = Signal::Driven(Bit::High);
        let mut both = [Signal::HighImpedance; 2];

        match self.zero.conduct_into(&[inputs[0], clock, save, tied_high], &mut both) {
            Ok(()) => {},
            Err(error) => {
                assert(self@ =~= response.state);
                assert(outputs@ =~= response.outputs);
                return Err(error);
            },
        }
        outputs[0] = both[0];

        match self.carry.conduct_into(&[inputs[1], clock, save, tied_high], &mut both) {
            Ok(()) => {},
            Err(error) => {
                assert(self@ =~= response.state);
                assert(outputs@ =~= response.outputs);
                return Err(error);
            },
        }
        outputs[1] = both[0];

        match self.sign.conduct_into(&[inputs[2], clock, save, tied_high], &mut both) {
            Ok(()) => {},
            Err(error) => {
                assert(self@ =~= response.state);
                assert(outputs@ =~= response.outputs);
                return Err(error);
            },
        }
        outputs[2] = both[0];

        assert(self@ =~= response.state);
        assert(outputs@ =~= response.outputs);
        Ok(())
    }

    fn transistor_count(&self) -> (count: usize) {
        self.zero.transistor_count() + self.carry.transistor_count() + self.sign.transistor_count()
    }
}

/// Eight tri-state input switches: the value drives the data bus only while
/// `enable` is High (the IN instruction).
#[derive(Debug, Clone, Copy)]
pub struct InputPort {
    output_nmos: [Nmos; 8],
}

impl Default for InputPort {
    fn default() -> (port: InputPort)
        ensures
            port.wf(),
    {
        InputPort {
            output_nmos: [Nmos::default(); 8],
        }
    }
}

impl View for InputPort {
    type V = ();

    open spec fn view(&self) -> () {
        ()
    }
}

impl Component for InputPort {
    /// Inputs:
    ///
    /// - 0..8: the port value (physical switches or an external device)
    /// - 8:    enable
    ///
    /// Outputs:
    ///
    /// - 0..8: the port value, gated by `enable`.
    const INPUTS: usize = 9;

    const OUTPUTS: usize = 8;

    open spec fn fan_in() -> nat {
        9
    }

    open spec fn fan_out() -> nat {
        8
    }

    proof fn arity() {
    }

    open spec fn wf(&self) -> bool {
        true
    }

    open spec fn admits(state: (), inputs: Seq<Signal>, slots: nat) -> bool {
        slots == 8
    }

    open spec fn respond(state: (), inputs: Seq<Signal>, outputs: Seq<Signal>) -> Response<()> {
        hardware::steady(hardware::gated_row(inputs[8], inputs.subrange(0, 8)))
    }

    open spec fn transistors() -> nat {
        8
    }

    fn conduct_into(&mut self, inputs: &[Signal], outputs: &mut [Signal]) -> (r: Result<
        (),
        HardwareError,
    >) {
        if inputs.len() != 9 {
            return Err(
                HardwareError::InvalidInputCount { expected: 9, actual: inputs.len() },
            );
        }
        let enable = inputs[8];
        for index in 0..8
            invariant
                inputs@.len() == 9,
                outputs@.len() == 8,
                forall|k: int|
                    0 <= k < index ==> #[trigger] outputs@[k] == hardware::gated(
                        enable,
                        inputs@[k],
                    ),
        {
            let mut single = [Signal::HighImpedance];
            self.output_nmos[index].conduct_into(&[enable, inputs[index]], &mut single)?;
            outputs[index] = single[0];
        }
        assert(outputs@ =~= hardware::gated_row(enable, inputs@.subrange(0, 8)));
        Ok(())
    }

    fn transistor_count(&self) -> (count: usize) {
        let mut count: usize = 0;
        for index in 0..8
            invariant
                count == index,
        {
            count += self.output_nmos[index].transistor_count();
        }
        count
    }
}

/// The OUT latch: captures the accumulator value driven on the bus and
/// holds it for display outside the CPU. Its outputs are always driven: they
/// feed the outside world, not the shared bus.
#[derive(Debug)]
pub struct OutputRegister {
    register: Register8Bits,
}

impl Default for OutputRegister {
    fn default() -> (output: OutputRegister)
        ensures
            output.wf(),
            output@ == blank_row(8),
    {
        OutputRegister { register: Register8Bits::default() }
    }
}

impl View for OutputRegister {
    type V = Seq<FlipFlopState>;

    closed spec fn view(&self) -> Seq<FlipFlopState> {
        self.register@
    }
}

impl OutputRegister {
    /// The displayed byte, least significant bit first.
    pub fn state(&self) -> (bits: [Bit; 8])
        requires
            self.wf(),
        ensures
            bits@ == latches::slaves(self@),
    {
        self.register.state()
    }

    /// The latch holds eight bits.
    pub proof fn lemma_width(&self)
        ensures
            self@.len() == 8,
    {
    }
}

impl Component for OutputRegister {
    /// Inputs:
    ///
    /// - 0..8: data, least significant bit first
    /// - 8:    clock
    /// - 9:    save (the OUT instruction's write pulse)
    ///
    /// Outputs:
    ///
    /// - 0..8: the displayed byte, always driven.
    const INPUTS: usize = 10;

    const OUTPUTS: usize = 8;

    open spec fn fan_in() -> nat {
        10
    }

    open spec fn fan_out() -> nat {
        8
    }

    proof fn arity() {
    }

    closed spec fn wf(&self) -> bool {
        self.register.wf()
    }

    open spec fn admits(state: Seq<FlipFlopState>, inputs: Seq<Signal>, slots: nat) -> bool {
        slots == 8
    }

    open spec fn respond(
        state: Seq<FlipFlopState>,
        inputs: Seq<Signal>,
        outputs: Seq<Signal>,
    ) -> Response<Seq<FlipFlopState>> {
        {
            let data = inputs.subrange(0, 8);
            let next = row_next(state, data, inputs[8], inputs[9]);
            let result = row_result(state, data, inputs[8], inputs[9]);
            Response {
                state: next,
                outputs: if result is Ok {
                    hardware::driven(latches::slaves(next))
                } else {
                    outputs
                },
                result,
            }
        }
    }

    open spec fn transistors() -> nat {
        544
    }

    fn conduct_into(&mut self, inputs: &[Signal], outputs: &mut [Signal]) -> (r: Result<
        (),
        HardwareError,
    >) {
        if inputs.len() != 10 {
            return Err(
                HardwareError::InvalidInputCount { expected: 10, actual: inputs.len() },
            );
        }
        let register_inputs = [
            inputs[0],
            inputs[1],
            inputs[2],
            inputs[3],
            inputs[4],
            inputs[5],
            inputs[6],
            inputs[7],
            inputs[8],
            inputs[9],
            Signal::Driven(Bit::High),
        ];
        assert(register_inputs@.subrange(0, 8) =~= inputs@.subrange(0, 8));
        let mut stored = [Signal::HighImpedance; 8];
        match self.register.conduct_into(&register_inputs, &mut stored) {
            Ok(()) => {},
            Err(error) => return Err(error),
        }
        for index in 0..8
            invariant
                outputs@.len() == 8,
                forall|k: int| 0 <= k < index ==> #[trigger] outputs@[k] == stored@[k],
        {
            outputs[index] = stored[index];
        }
        assert(outputs@ =~= hardware::driven(latches::slaves(self@)));
        Ok(())
    }

    fn transistor_count(&self) -> (count: usize) {
        self.register.transistor_count()
    }
}

/// A full clock cycle of a register: the Low clock moves nothing that is
/// stored, and the High clock stores the byte on the data lines when `save`
/// is High and keeps the stored byte when it is Low. The stored byte drives
/// the outputs while `load` is High, and the outputs float otherwise.
pub proof fn law_register_cycle(
    row: Seq<FlipFlopState>,
    data: u8,
    save: Bit,
    inputs: Seq<Signal>,
    outputs: Seq<Signal>,
)
    requires
        row.len() == 8,
        inputs.len() == 11,
        inputs.subrange(0, 8) == hardware::driven(utils::byte_bits(data)),
        inputs[9] == Signal::Driven(save),
    ensures
        ({
            let before = utils::byte_of(latches::slaves(row));
            let after = if save == Bit::High {
                data
            } else {
                before
            };
            let low = Register8Bits::respond(
                row,
                inputs.update(8, Signal::Driven(Bit::Low)),
                outputs,
            );
            let high = Register8Bits::respond(
                low.state,
                inputs.update(8, Signal::Driven(Bit::High)),
                outputs,
            );
            &&& shows_byte(low, before, inputs[10])
            &&& shows_byte(high, after, inputs[10])
        }),
{
    let bits = utils::byte_bits(data);
    let low_inputs = inputs.update(8, Signal::Driven(Bit::Low));
    let high_inputs = inputs.update(8, Signal::Driven(Bit::High));
    utils::law_byte_unpacked(data);
    assert(low_inputs.subrange(0, 8) =~= inputs.subrange(0, 8));
    assert(high_inputs.subrange(0, 8) =~= inputs.subrange(0, 8));
    law_register_preloads(row, bits, Signal::Driven(save));
    let low = preloaded(row, bits);
    law_register_captures(low, hardware::driven(bits));
    law_register_holds(low, hardware::driven(bits));
    lemma_shown(Register8Bits::respond(row, low_inputs, outputs), inputs[10]);
    lemma_shown(Register8Bits::respond(low, high_inputs, outputs), inputs[10]);
}

/// Whether a component stores a byte, and puts it on its outputs while
/// `load` is High and nothing otherwise.
pub open spec fn shows_byte(
    response: Response<Seq<FlipFlopState>>,
    byte: u8,
    load: Signal,
) -> bool {
    &&& response.result is Ok
    &&& response.state.len() == 8
    &&& utils::byte_of(latches::slaves(response.state)) == byte
    &&& response.outputs.len() == 8
    &&& load == Signal::Driven(Bit::High) ==> hardware::all_driven(response.outputs)
        && utils::byte_of(hardware::levels(response.outputs)) == byte
    &&& load != Signal::Driven(Bit::High) ==> forall|i: int|
        0 <= i < 8 ==> (#[trigger] response.outputs[i]) is HighImpedance
}

/// A row of gated levels shows the byte that is stored.
proof fn lemma_shown(response: Response<Seq<FlipFlopState>>, load: Signal)
    requires
        response.result is Ok,
        response.state.len() == 8,
        response.outputs.len() == 8,
        forall|i: int|
            0 <= i < 8 ==> #[trigger] response.outputs[i] == hardware::gated(
                load,
                Signal::Driven(response.state[i].slave),
            ),
    ensures
        shows_byte(response, utils::byte_of(latches::slaves(response.state)), load),
{
    if load == Signal::Driven(Bit::High) {
        assert(hardware::levels(response.outputs) =~= latches::slaves(response.state));
    }
}

/// A register refuses a floating clock, and floating data while the clock is
/// Low, and keeps its stored byte then. While the clock is High the data
/// lines do not matter.
pub proof fn law_register_refuses(
    row: Seq<FlipFlopState>,
    inputs: Seq<Signal>,
    outputs: Seq<Signal>,
    open: int,
)
    requires
        row.len() == 8,
        inputs.len() == 11,
        0 <= open < 8,
    ensures
        ({
            let response = Register8Bits::respond(row, inputs, outputs);
            &&& inputs[8] is HighImpedance || (inputs[8] == Signal::Driven(Bit::Low)
                && inputs[open] is HighImpedance) ==> {
                &&& response.result == Err::<(), HardwareError>(HardwareError::InvalidBit)
                &&& latches::slaves(response.state) == latches::slaves(row)
            }
            &&& inputs[8] == Signal::Driven(Bit::High) && inputs[9] is Driven ==> response.result
                is Ok
        }),
{
    let data = inputs.subrange(0, 8);
    let response = Register8Bits::respond(row, inputs, outputs);
    if inputs[8] is HighImpedance || inputs[8] == Signal::Driven(Bit::Low) {
        assert(latches::slaves(response.state) =~= latches::slaves(row)) by {
            lemma_steps_succeed(row, data, inputs[8], inputs[9], 8);
        }
    }
    if inputs[8] is HighImpedance || (inputs[8] == Signal::Driven(Bit::Low)
        && inputs[open] is HighImpedance) {
        lemma_steps_succeed(row, data, inputs[8], inputs[9], 8);
        assert(step_at(row, data, inputs[8], inputs[9], open) is Err);
    }
    if inputs[8] == Signal::Driven(Bit::High) && inputs[9] is Driven {
        law_register_captures(row, data);
        law_register_holds(row, data);
    }
}

/// The flip-flops that step are those before the first one that refuses.
pub proof fn lemma_steps_succeed(
    row: Seq<FlipFlopState>,
    data: Seq<Signal>,
    clock: Signal,
    save: Signal,
    count: nat,
)
    ensures
        steps(row, data, clock, save, count) <= count,
        forall|i: int|
            0 <= i < steps(row, data, clock, save, count) ==> (#[trigger] step_at(
                row,
                data,
                clock,
                save,
                i,
            )) is Ok,
    decreases count,
{
    if count > 0 {
        lemma_steps_succeed(row, data, clock, save, (count - 1) as nat);
    }
}

/// A full clock cycle of the flags: zero, carry and sign are stored at the
/// High clock when `save` is High, and kept when it is Low. The stored flags
/// are always on the outputs.
pub proof fn law_flags_cycle(
    row: Seq<FlipFlopState>,
    flags: Seq<Bit>,
    save: Bit,
    outputs: Seq<Signal>,
    index: int,
)
    requires
        row.len() == 3,
        flags.len() == 3,
        0 <= index < 3,
    ensures
        ({
            let data = hardware::driven(flags);
            let low = FlagsRegister::respond(
                row,
                data + seq![Signal::Driven(Bit::Low), Signal::Driven(save)],
                outputs,
            );
            let high = FlagsRegister::respond(
                low.state,
                data + seq![Signal::Driven(Bit::High), Signal::Driven(save)],
                outputs,
            );
            let after = if save == Bit::High {
                flags[index]
            } else {
                row[index].slave
            };
            &&& low.result is Ok && low.state.len() == 3 && low.outputs.len() == 3
            &&& low.state[index].slave == row[index].slave
            &&& low.outputs[index] == Signal::Driven(row[index].slave)
            &&& high.result is Ok && high.state.len() == 3 && high.outputs.len() == 3
            &&& high.state[index].slave == after
            &&& high.outputs[index] == Signal::Driven(after)
        }),
{
    let data = hardware::driven(flags);
    let low_inputs = data + seq![Signal::Driven(Bit::Low), Signal::Driven(save)];
    let high_inputs = data + seq![Signal::Driven(Bit::High), Signal::Driven(save)];
    assert(low_inputs.subrange(0, 3) =~= data);
    assert(high_inputs.subrange(0, 3) =~= data);
    law_register_preloads(row, flags, Signal::Driven(save));
    law_register_captures(preloaded(row, flags), data);
    law_register_holds(preloaded(row, flags), data);
}

/// The input port passes its switches on while it is enabled, line by line,
/// and drives nothing otherwise.
pub proof fn law_input_port(inputs: Seq<Signal>, outputs: Seq<Signal>, line: int)
    requires
        inputs.len() == 9,
        0 <= line < 8,
    ensures
        ({
            let response = InputPort::respond((), inputs, outputs);
            &&& response.result is Ok
            &&& response.outputs.len() == 8
            &&& response.outputs[line] == if inputs[8] == Signal::Driven(Bit::High) {
                inputs[line]
            } else {
                Signal::HighImpedance
            }
        }),
{
}

/// A full clock cycle of the output register: as a register, but the stored
/// byte is always on the outputs.
pub proof fn law_output_cycle(
    row: Seq<FlipFlopState>,
    data: u8,
    save: Bit,
    inputs: Seq<Signal>,
    outputs: Seq<Signal>,
)
    requires
        row.len() == 8,
        inputs.len() == 10,
        inputs.subrange(0, 8) == hardware::driven(utils::byte_bits(data)),
        inputs[9] == Signal::Driven(save),
    ensures
        ({
            let before = utils::byte_of(latches::slaves(row));
            let after = if save == Bit::High {
                data
            } else {
                before
            };
            let low = OutputRegister::respond(
                row,
                inputs.update(8, Signal::Driven(Bit::Low)),
                outputs,
            );
            let high = OutputRegister::respond(
                low.state,
                inputs.update(8, Signal::Driven(Bit::High)),
                outputs,
            );
            &&& shows_byte(low, before, Signal::Driven(Bit::High))
            &&& shows_byte(high, after, Signal::Driven(Bit::High))
        }),
{
    let bits = utils::byte_bits(data);
    let low_inputs = inputs.update(8, Signal::Driven(Bit::Low));
    let high_inputs = inputs.update(8, Signal::Driven(Bit::High));
    utils::law_byte_unpacked(data);
    assert(low_inputs.subrange(0, 8) =~= inputs.subrange(0, 8));
    assert(high_inputs.subrange(0, 8) =~= inputs.subrange(0, 8));
    law_register_preloads(row, bits, Signal::Driven(save));
    let low = preloaded(row, bits);
    law_register_captures(low, hardware::driven(bits));
    law_register_holds(low, hardware::driven(bits));
    let enable = Signal::Driven(Bit::High);
    let first = OutputRegister::respond(row, low_inputs, outputs);
    let second = OutputRegister::respond(low, high_inputs, outputs);
    lemma_shown(first, enable);
    lemma_shown(second, enable);
}

/// What the registers show of themselves is what they store.
pub proof fn law_registers_shown(
    register: &Register8Bits,
    byte: [Bit; 8],
    output: &OutputRegister,
    shown: [Bit; 8],
    flags: &FlagsRegister,
    levels: (Bit, Bit, Bit),
    index: int,
)
    requires
        Register8Bits::state.ensures((register,), byte),
        OutputRegister::state.ensures((output,), shown),
        FlagsRegister::state.ensures((flags,), levels),
        0 <= index < 8,
    ensures
        byte@[index] == register@[index].slave,
        shown@[index] == output@[index].slave,
        levels.0 == flags@[0].slave,
        levels.1 == flags@[1].slave,
        levels.2 == flags@[2].slave,
{
    register.lemma_width();
    output.lemma_width();
    flags.lemma_width();
    let seen = seq![levels.0, levels.1, levels.2];
    assert(seen[0] == levels.0 && seen[1] == levels.1 && seen[2] == levels.2);
    assert(latches::slaves(flags@)[0] == flags@[0].slave);
    assert(latches::slaves(flags@)[1] == flags@[1].slave);
    assert(latches::slaves(flags@)[2] == flags@[2].slave);
}

/// A register is eight flip-flops side by side that share their clock, `save`
/// and `load`: where all of them accept their inputs, each of them remembers
/// and shows what such a flip-flop does; where one of them refuses, so does
/// the register.
pub proof fn law_register_bits(
    row: Seq<FlipFlopState>,
    inputs: Seq<Signal>,
    outputs: Seq<Signal>,
    index: int,
)
    requires
        row.len() == 8,
        inputs.len() == 11,
        0 <= index < 8,
    ensures
        ({
            let response = Register8Bits::respond(row, inputs, outputs);
            let bit = flip_flop_at(row, inputs, index);
            &&& response.result is Ok <==> forall|i: int|
                0 <= i < 8 ==> (#[trigger] flip_flop_at(row, inputs, i)).result is Ok
            &&& response.result is Err ==> response.result == Err::<(), HardwareError>(
                HardwareError::InvalidBit,
            )
            &&& response.result is Ok ==> {
                &&& response.state.len() == 8 && response.outputs.len() == 8
                &&& response.state[index] == bit.state
                &&& response.outputs[index] == bit.outputs[0]
            }
        }),
{
    let data = inputs.subrange(0, 8);
    lemma_steps_succeed(row, data, inputs[8], inputs[9], 8);
    assert forall|i: int| 0 <= i < 8 implies (#[trigger] flip_flop_at(row, inputs, i)).result is Ok
        == step_at(row, data, inputs[8], inputs[9], i) is Ok by {
        assert(data[i] == inputs[i]);
    }
    if forall|i: int| 0 <= i < 8 ==> (#[trigger] flip_flop_at(row, inputs, i)).result is Ok {
        assert forall|i: int| 0 <= i < 8 implies (#[trigger] step_at(
            row,
            data,
            inputs[8],
            inputs[9],
            i,
        )) is Ok by {
            assert(flip_flop_at(row, inputs, i).result is Ok);
        }
        lemma_steps_all(row, data, inputs[8], inputs[9], 8);
    } else if steps(row, data, inputs[8], inputs[9], 8) == 8 {
        assert forall|i: int| 0 <= i < 8 implies (#[trigger] flip_flop_at(row, inputs, i)).result
            is Ok by {
            assert(step_at(row, data, inputs[8], inputs[9], i) is Ok);
        }
    }
    assert(data[index] == inputs[index]);
}

/// One flip-flop of a register, with its own data line.
pub open spec fn flip_flop_at(
    row: Seq<FlipFlopState>,
    inputs: Seq<Signal>,
    index: int,
) -> Response<FlipFlopState> {
    DFlipFlopSaveLoad::respond(
        row[index],
        seq![inputs[index], inputs[8], inputs[9], inputs[10]],
        hardware::floating(2),
    )
}

/// A row that writes at every rising edge, on any wires. A Low clock takes in
/// driven data and refuses floating data; a High clock stores what was taken
/// in, whatever the data lines carry; a floating clock is refused. What is
/// refused changes no stored level.
pub proof fn law_row_clocked(row: Seq<FlipFlopState>, data: Seq<Signal>, clock: Signal)
    requires
        row.len() > 0,
        data.len() == row.len(),
    ensures
        ({
            let next = row_next(row, data, clock, clock);
            let result = row_result(row, data, clock, clock);
            &&& next.len() == row.len()
            &&& clock == Signal::Driven(Bit::High) ==> result is Ok && latches::slaves(next)
                == masters(row)
            &&& clock == Signal::Driven(Bit::Low) ==> {
                &&& latches::slaves(next) == latches::slaves(row)
                &&& result is Ok <==> hardware::all_driven(data)
                &&& result is Ok ==> masters(next) == hardware::levels(data)
            }
            &&& clock is HighImpedance ==> result is Err && next == row
            &&& result is Err ==> result == Err::<(), HardwareError>(HardwareError::InvalidBit)
        }),
{
    let next = row_next(row, data, clock, clock);
    lemma_steps_succeed(row, data, clock, clock, row.len());
    if clock == Signal::Driven(Bit::High) {
        law_register_captures(row, data);
    } else if clock == Signal::Driven(Bit::Low) {
        assert(latches::slaves(next) =~= latches::slaves(row));
        if hardware::all_driven(data) {
            let bits = hardware::levels(data);
            assert(hardware::driven(bits) =~= data);
            law_register_preloads(row, bits, clock);
        } else {
            let open = choose|i: int| 0 <= i < data.len() && !((#[trigger] data[i]) is Driven);
            assert(step_at(row, data, clock, clock, open) is Err);
        }
    } else {
        assert(step_at(row, data, clock, clock, 0) is Err);
        assert(steps(row, data, clock, clock, row.len()) == 0) by {
            if steps(row, data, clock, clock, row.len()) > 0 {
                assert(step_at(row, data, clock, clock, 0) is Ok);
            }
        }
        assert(next =~= row);
    }
}

/// Registers that were never written store Low in every place.
pub proof fn law_registers_start_blank(
    register: Register8Bits,
    output: OutputRegister,
    flags: FlagsRegister,
    index: int,
)
    requires
        Register8Bits::default.ensures((), register),
        OutputRegister::default.ensures((), output),
        FlagsRegister::default.ensures((), flags),
        0 <= index < 8,
    ensures
        register.wf() && output.wf() && flags.wf(),
        register@[index].slave == Bit::Low,
        output@[index].slave == Bit::Low,
        index < 3 ==> flags@[index].slave == Bit::Low,
{
}

} // verus!
