//! Sequential circuits built on top of the gates and the multiplexer.
//!
//! These components hold state: a propagation both drives the outputs
//! and updates the stored value. From the simplest to the most
//! elaborate:
//!
//! * [`SRLatch`]: two cross-coupled NOR gates storing one bit. SET and
//!   RESET both HIGH is forbidden.
//! * [`DLatch`]: an SR latch fed by `data` and `NOT data`, gated by
//!   `enable`. Transparent while `enable` is HIGH.
//! * [`DFlipFlop`]: a master-slave pair of D latches. `q` moves only on
//!   the rising edge of `clock`.
//! * [`DFlipFlopSave`]: a D flip-flop whose write is gated by `save`.
//! * [`DFlipFlopSaveLoad`]: a D flip-flop with save, whose outputs float
//!   while `load` is LOW.
//! * [`OneHotCounter6Bits`]: a ring of six D flip-flops with exactly one
//!   HIGH bit, which advances on each rising clock edge.

use vstd::prelude::*;

use crate::decoder;
use crate::gates::{self, AndGate, NorGate, NotGate};
use crate::hardware::{self, stabilize, Bit, Component, HardwareError, Nmos, Response, Signal};
use crate::mux::{self, Mux2x1};

verus! {

/// Number of flip-flops in the ring of [`OneHotCounter6Bits`].
pub const COUNTER_BITS: usize = 6;

/// Number of updates after which a latch counts as unstable.
const MAX_STABILIZATION_ITERATIONS: usize = 3;

/// The two outputs of a latch: the stored level and its complement.
pub open spec fn latch_outputs(q: Bit) -> Seq<Signal> {
    seq![Signal::Driven(q), Signal::Driven(hardware::flipped(q))]
}

/// What an SR latch that stores `q` stores next.
pub open spec fn sr_next(q: Bit, set: Signal, reset: Signal) -> Result<Bit, HardwareError> {
    match (set, reset) {
        (Signal::Driven(s), Signal::Driven(r)) => if s == Bit::High && r == Bit::High {
            Err(HardwareError::SrlatchForbiddenInput)
        } else if s == Bit::High {
            Ok(Bit::High)
        } else if r == Bit::High {
            Ok(Bit::Low)
        } else {
            Ok(q)
        },
        _ => Err(HardwareError::InvalidBit),
    }
}

/// What a D latch that stores `q` stores next: `data` while `enable` is
/// High, `q` while it is Low.
pub open spec fn latch_next(q: Bit, data: Signal, enable: Signal) -> Result<Bit, HardwareError> {
    match (enable, data) {
        (Signal::Driven(Bit::Low), _) => Ok(q),
        (Signal::Driven(Bit::High), Signal::Driven(bit)) => Ok(bit),
        _ => Err(HardwareError::InvalidBit),
    }
}

/// What a master-slave flip-flop remembers. The slave is the stored
/// output, the master is what the next rising edge captures.
#[derive(Debug, Clone, Copy)]
pub struct FlipFlopState {
    pub master: Bit,
    pub slave: Bit,
}

/// A flip-flop that was never written.
pub open spec fn blank_flip_flop() -> FlipFlopState {
    FlipFlopState { master: Bit::Low, slave: Bit::Low }
}

/// What a D flip-flop remembers next: a Low clock preloads the master
/// with `data`, a High clock copies the master to the slave.
pub open spec fn flip_flop_next(state: FlipFlopState, data: Signal, clock: Signal) -> Result<
    FlipFlopState,
    HardwareError,
> {
    match clock {
        Signal::Driven(Bit::Low) => match data {
            Signal::Driven(bit) => Ok(FlipFlopState { master: bit, slave: state.slave }),
            Signal::HighImpedance => Err(HardwareError::InvalidBit),
        },
        Signal::Driven(Bit::High) => Ok(
            FlipFlopState { master: state.master, slave: state.master },
        ),
        Signal::HighImpedance => Err(HardwareError::InvalidBit),
    }
}

/// What a D flip-flop with `save` remembers next: the copy at a High
/// clock takes place only while `save` is High. A floating `save` at a
/// High clock is tolerated only when nothing but Low is stored.
pub open spec fn save_next(
    state: FlipFlopState,
    data: Signal,
    clock: Signal,
    save: Signal,
) -> Result<FlipFlopState, HardwareError> {
    if clock == Signal::Driven(Bit::High) {
        match mux::mux_signal(Signal::Driven(state.slave), Signal::Driven(state.master), save) {
            Signal::Driven(bit) => Ok(FlipFlopState { master: state.master, slave: bit }),
            Signal::HighImpedance => Err(HardwareError::InvalidBit),
        }
    } else {
        flip_flop_next(state, data, clock)
    }
}

/// A flip-flop is edge-triggered: a Low clock does not move the output, a
/// rising edge brings out the level that `data` had at the Low clock, and
/// the clock staying High moves nothing more, whatever `data` does.
pub proof fn law_edge_triggered(state: FlipFlopState, bit: Bit, data: Signal, later: Signal)
    ensures
        ({
            let low = Signal::Driven(Bit::Low);
            let high = Signal::Driven(Bit::High);
            let preloaded = flip_flop_next(state, Signal::Driven(bit), low);
            let edge = flip_flop_next(preloaded->Ok_0, data, high);
            &&& preloaded is Ok && preloaded->Ok_0.slave == state.slave
            &&& edge is Ok && edge->Ok_0.slave == bit
            &&& flip_flop_next(edge->Ok_0, later, high) == edge
        }),
{
}

/// `save` gates the write: with a High `save` the flip-flop is a plain one,
/// with a Low `save` its output never moves.
pub proof fn law_save_gates(state: FlipFlopState, data: Signal, clock: Signal)
    ensures
        save_next(state, data, clock, Signal::Driven(Bit::High)) == flip_flop_next(
            state,
            data,
            clock,
        ),
        save_next(state, data, clock, Signal::Driven(Bit::Low)) matches Ok(next) ==> next.slave
            == state.slave,
{
}

/// The stored levels of a row of flip-flops.
pub open spec fn slaves(row: Seq<FlipFlopState>) -> Seq<Bit> {
    Seq::new(row.len(), |i: int| row[i].slave)
}

/// Both output nets of the cross-coupled pair.
#[derive(Debug, Clone, Copy)]
struct LatchLevels {
    q: Bit,
    q_bar: Bit,
}

impl PartialEq for LatchLevels {
    fn eq(&self, other: &LatchLevels) -> (r: bool) {
        self.q == other.q && self.q_bar == other.q_bar
    }
}

impl vstd::std_specs::cmp::PartialEqSpecImpl for LatchLevels {
    open spec fn obeys_eq_spec() -> bool {
        true
    }

    closed spec fn eq_spec(&self, other: &LatchLevels) -> bool {
        self == other
    }
}

/// One trip around the loop of a cross-coupled NOR pair.
spec fn cross_coupled(levels: LatchLevels, set: Bit, reset: Bit) -> LatchLevels {
    let q_bar = gates::nor_signal(Signal::Driven(set), Signal::Driven(levels.q));
    let q = gates::nor_signal(Signal::Driven(reset), q_bar);
    LatchLevels { q: q->Driven_0, q_bar: q_bar->Driven_0 }
}

/// SR latch made of two cross-coupled NOR gates. The view is the stored
/// level.
#[derive(Debug)]
pub struct SRLatch {
    nor1: NorGate,
    nor2: NorGate,
    q: Bit,
    q_bar: Bit,
}

impl Default for SRLatch {
    fn default() -> (latch: SRLatch)
        ensures
            latch.wf(),
            latch@ == Bit::Low,
    {
        SRLatch {
            nor1: NorGate::default(),
            nor2: NorGate::default(),
            q: Bit::Low,
            q_bar: Bit::High,
        }
    }
}

impl View for SRLatch {
    type V = Bit;

    closed spec fn view(&self) -> Bit {
        self.q
    }
}

impl SRLatch {
    /// The stored output.
    pub fn q(&self) -> (bit: Bit)
        requires
            self.wf(),
        ensures
            bit == self@,
    {
        self.q
    }

    /// The complement of the stored output.
    pub fn q_bar(&self) -> (bit: Bit)
        requires
            self.wf(),
        ensures
            bit == hardware::flipped(self@),
    {
        self.q_bar
    }
}

impl Component for SRLatch {
    /// Inputs:
    ///
    /// - 0: set
    /// - 1: reset
    ///
    /// Outputs:
    ///
    /// - 0: q
    /// - 1: q_bar
    ///
    /// SET High / RESET Low sets the latch, SET Low / RESET High resets
    /// it and SET Low / RESET Low keeps the previous state. Both inputs
    /// HIGH, or a floating input, is refused and changes nothing.
    const INPUTS: usize = 2;

    const OUTPUTS: usize = 2;

    open spec fn fan_in() -> nat {
        2
    }

    open spec fn fan_out() -> nat {
        2
    }

    proof fn arity() {
    }

    closed spec fn wf(&self) -> bool {
        self.q_bar == hardware::flipped(self.q)
    }

    open spec fn admits(state: Bit, inputs: Seq<Signal>, slots: nat) -> bool {
        slots == 2
    }

    open spec fn respond(
        state: Bit,
        inputs: Seq<Signal>,
        outputs: Seq<Signal>,
    ) -> Response<Bit> {
        match sr_next(state, inputs[0], inputs[1]) {
            Ok(q) => Response { state: q, outputs: latch_outputs(q), result: Ok(()) },
            Err(error) => Response { state, outputs, result: Err(error) },
        }
    }

    open spec fn transistors() -> nat {
        8
    }

    fn conduct_into(&mut self, inputs: &[Signal], outputs: &mut [Signal]) -> (r: Result<
        (),
        HardwareError,
    >) {
        if inputs.len() != 2 {
            return Err(
                HardwareError::InvalidInputCount { expected: 2, actual: inputs.len() },
            );
        }
        let set = match inputs[0] {
            Signal::Driven(bit) => bit,
            Signal::HighImpedance => return Err(HardwareError::InvalidBit),
        };
        let reset = match inputs[1] {
            Signal::Driven(bit) => bit,
            Signal::HighImpedance => return Err(HardwareError::InvalidBit),
        };
        if set == Bit::High && reset == Bit::High {
            return Err(HardwareError::SrlatchForbiddenInput);
        }
        let first = self.nor1;
        let second = self.nor2;
        let settle = |levels: LatchLevels| -> (next: LatchLevels)
            ensures
                next == cross_coupled(levels, set, reset),
            {
                let mut nor1 = first;
                let mut nor2 = second;
                let mut new_q_bar = [Signal::HighImpedance];
                let _ = nor1.conduct_into(
                    &[Signal::Driven(set), Signal::Driven(levels.q)],
                    &mut new_q_bar,
                );
                let mut new_q = [Signal::HighImpedance];
                let _ = nor2.conduct_into(&[Signal::Driven(reset), new_q_bar[0]], &mut new_q);
                match (new_q[0], new_q_bar[0]) {
                    (Signal::Driven(q), Signal::Driven(q_bar)) => LatchLevels { q, q_bar },
                    _ => levels,
                }
            };
        let mut levels = LatchLevels { q: self.q, q_bar: self.q_bar };
        let ghost start = levels;
        let outcome = stabilize(&mut levels, settle, MAX_STABILIZATION_ITERATIONS);
        proof {
            let run = choose|run: Seq<LatchLevels>|
                {
                    &&& #[trigger] hardware::is_settling_run(run, start, settle)
                    &&& run.last() == levels
                    &&& run.len() <= MAX_STABILIZATION_ITERATIONS + 1
                    &&& if run[run.len() - 2] == run.last() {
                        outcome == Ok::<(), HardwareError>(())
                    } else {
                        run.len() == MAX_STABILIZATION_ITERATIONS + 1
                    }
                };
            assert(settle.ensures((run[0],), run[0int + 1]));
            assert(run[1] == cross_coupled(start, set, reset));
            if run.len() > 2 {
                assert(settle.ensures((run[1],), run[1int + 1]));
                assert(run[2] == cross_coupled(run[1], set, reset));
                assert(!hardware::settles_at(run, 1) || run.len() == 3);
            }
            if run.len() > 3 {
                assert(settle.ensures((run[2],), run[2int + 1]));
                assert(run[3] == cross_coupled(run[2], set, reset));
            }
        }
        outcome?;
        self.q = levels.q;
        self.q_bar = levels.q_bar;
        outputs[0] = Signal::Driven(self.q);
        outputs[1] = Signal::Driven(self.q_bar);
        assert(outputs@ =~= latch_outputs(self.q));
        Ok(())
    }

    fn transistor_count(&self) -> (count: usize) {
        self.nor1.transistor_count() + self.nor2.transistor_count()
    }
}

/// D latch: transparent while `enable` is HIGH, holds otherwise. The view
/// is the stored level.
#[derive(Debug)]
pub struct DLatch {
    sr_latch: SRLatch,
    not_data: NotGate,
    and_set: AndGate,
    and_reset: AndGate,
}

impl Default for DLatch {
    fn default() -> (latch: DLatch)
        ensures
            latch.wf(),
            latch@ == Bit::Low,
    {
        DLatch {
            sr_latch: SRLatch::default(),
            not_data: NotGate::default(),
            and_set: AndGate::default(),
            and_reset: AndGate::default(),
        }
    }
}

impl View for DLatch {
    type V = Bit;

    closed spec fn view(&self) -> Bit {
        self.sr_latch@
    }
}

impl DLatch {
    /// The stored output.
    pub fn q(&self) -> (bit: Bit)
        requires
            self.wf(),
        ensures
            bit == self@,
    {
        self.sr_latch.q()
    }

    /// The complement of the stored output.
    pub fn q_bar(&self) -> (bit: Bit)
        requires
            self.wf(),
        ensures
            bit == hardware::flipped(self@),
    {
        self.sr_latch.q_bar()
    }
}

impl Component for DLatch {
    /// Inputs:
    ///
    /// - 0: data
    /// - 1: enable
    ///
    /// Outputs:
    ///
    /// - 0: q
    /// - 1: q_bar
    ///
    /// Follow `data` while `enable` is High, hold otherwise.
    const INPUTS: usize = 2;

    const OUTPUTS: usize = 2;

    open spec fn fan_in() -> nat {
        2
    }

    open spec fn fan_out() -> nat {
        2
    }

    proof fn arity() {
    }

    closed spec fn wf(&self) -> bool {
        self.sr_latch.wf()
    }

    open spec fn admits(state: Bit, inputs: Seq<Signal>, slots: nat) -> bool {
        slots == 2
    }

    open spec fn respond(
        state: Bit,
        inputs: Seq<Signal>,
        outputs: Seq<Signal>,
    ) -> Response<Bit> {
        match latch_next(state, inputs[0], inputs[1]) {
            Ok(q) => Response { state: q, outputs: latch_outputs(q), result: Ok(()) },
            Err(error) => Response { state, outputs, result: Err(error) },
        }
    }

    open spec fn transistors() -> nat {
        22
    }

    fn conduct_into(&mut self, inputs: &[Signal], outputs: &mut [Signal]) -> (r: Result<
        (),
        HardwareError,
    >) {
        if inputs.len() != 2 {
            return Err(
                HardwareError::InvalidInputCount { expected: 2, actual: inputs.len() },
            );
        }
        let data = inputs[0];
        let enable = inputs[1];

        let mut not_data = [Signal::HighImpedance];
        self.not_data.conduct_into(&[data], &mut not_data)?;
        let mut set = [Signal::HighImpedance];
        self.and_set.conduct_into(&[data, enable], &mut set)?;
        let mut reset = [Signal::HighImpedance];
        self.and_reset.conduct_into(&[not_data[0], enable], &mut reset)?;

        self.sr_latch.conduct_into(&[set[0], reset[0]], outputs)
    }

    fn transistor_count(&self) -> (count: usize) {
        self.sr_latch.transistor_count() + self.not_data.transistor_count()
            + self.and_set.transistor_count() + self.and_reset.transistor_count()
    }
}

/// Master-slave D flip-flop, updated on the rising edge of `clock`.
#[derive(Debug)]
pub struct DFlipFlop {
    master_latch: DLatch,
    slave_latch: DLatch,
    not_clock: NotGate,
}

impl Default for DFlipFlop {
    fn default() -> (flip_flop: DFlipFlop)
        ensures
            flip_flop.wf(),
            flip_flop@ == blank_flip_flop(),
    {
        DFlipFlop {
            master_latch: DLatch::default(),
            slave_latch: DLatch::default(),
            not_clock: NotGate::default(),
        }
    }
}

impl View for DFlipFlop {
    type V = FlipFlopState;

    closed spec fn view(&self) -> FlipFlopState {
        FlipFlopState { master: self.master_latch@, slave: self.slave_latch@ }
    }
}

impl DFlipFlop {
    /// The stored output.
    pub fn q(&self) -> (bit: Bit)
        requires
            self.wf(),
        ensures
            bit == self@.slave,
    {
        self.slave_latch.q()
    }

    /// The complement of the stored output.
    pub fn q_bar(&self) -> (bit: Bit)
        requires
            self.wf(),
        ensures
            bit == hardware::flipped(self@.slave),
    {
        self.slave_latch.q_bar()
    }
}

impl Component for DFlipFlop {
    /// Inputs:
    ///
    /// - 0: data
    /// - 1: clock
    ///
    /// Outputs:
    ///
    /// - 0: q
    /// - 1: q_bar
    ///
    /// Capture `data` on the rising edge of `clock`.
    const INPUTS: usize = 2;

    const OUTPUTS: usize = 2;

    open spec fn fan_in() -> nat {
        2
    }

    open spec fn fan_out() -> nat {
        2
    }

    proof fn arity() {
    }

    closed spec fn wf(&self) -> bool {
        self.master_latch.wf() && self.slave_latch.wf()
    }

    open spec fn admits(state: FlipFlopState, inputs: Seq<Signal>, slots: nat) -> bool {
        slots == 2
    }

    open spec fn respond(
        state: FlipFlopState,
        inputs: Seq<Signal>,
        outputs: Seq<Signal>,
    ) -> Response<FlipFlopState> {
        match flip_flop_next(state, inputs[0], inputs[1]) {
            Ok(next) => Response {
                state: next,
                outputs: latch_outputs(next.slave),
                result: Ok(()),
            },
            Err(error) => Response { state, outputs, result: Err(error) },
        }
    }

    open spec fn transistors() -> nat {
        46
    }

    fn conduct_into(&mut self, inputs: &[Signal], outputs: &mut [Signal]) -> (r: Result<
        (),
        HardwareError,
    >) {
        if inputs.len() != 2 {
            return Err(
                HardwareError::InvalidInputCount { expected: 2, actual: inputs.len() },
            );
        }
        let data = inputs[0];
        let clock = inputs[1];

        let mut not_clock = [Signal::HighImpedance];
        self.not_clock.conduct_into(&[clock], &mut not_clock)?;
        let mut master_output = [Signal::HighImpedance; 2];
        self.master_latch.conduct_into(&[data, not_clock[0]], &mut master_output)?;

        self.slave_latch.conduct_into(&[master_output[0], clock], outputs)
    }

    fn transistor_count(&self) -> (count: usize) {
        self.master_latch.transistor_count() + self.slave_latch.transistor_count()
            + self.not_clock.transistor_count()
    }
}

/// D flip-flop whose writes are gated by `save`.
#[derive(Debug)]
pub struct DFlipFlopSave {
    master_latch: DLatch,
    slave_latch: DLatch,
    not_clock: NotGate,
    mux: Mux2x1,
}

impl Default for DFlipFlopSave {
    fn default() -> (flip_flop: DFlipFlopSave)
        ensures
            flip_flop.wf(),
            flip_flop@ == blank_flip_flop(),
    {
        DFlipFlopSave {
            master_latch: DLatch::default(),
            slave_latch: DLatch::default(),
            not_clock: NotGate::default(),
            mux: Mux2x1::default(),
        }
    }
}

impl View for DFlipFlopSave {
    type V = FlipFlopState;

    closed spec fn view(&self) -> FlipFlopState {
        FlipFlopState { master: self.master_latch@, slave: self.slave_latch@ }
    }
}

impl DFlipFlopSave {
    /// The stored output.
    pub fn q(&self) -> (bit: Bit)
        requires
            self.wf(),
        ensures
            bit == self@.slave,
    {
        self.slave_latch.q()
    }

    /// The complement of the stored output.
    pub fn q_bar(&self) -> (bit: Bit)
        requires
            self.wf(),
        ensures
            bit == hardware::flipped(self@.slave),
    {
        self.slave_latch.q_bar()
    }
}

impl Component for DFlipFlopSave {
    /// Inputs:
    ///
    /// - 0: data
    /// - 1: clock
    /// - 2: save
    ///
    /// Outputs:
    ///
    /// - 0: q
    /// - 1: q_bar
    ///
    /// Capture `data` on the rising edge only if `save` is High. When
    /// `save` is Low, the slave is fed its own output, so the rising
    /// edge keeps the previous value.
    const INPUTS: usize = 3;

    const OUTPUTS: usize = 2;

    open spec fn fan_in() -> nat {
        3
    }

    open spec fn fan_out() -> nat {
        2
    }

    proof fn arity() {
    }

    closed spec fn wf(&self) -> bool {
        self.master_latch.wf() && self.slave_latch.wf()
    }

    open spec fn admits(state: FlipFlopState, inputs: Seq<Signal>, slots: nat) -> bool {
        slots == 2
    }

    open spec fn respond(
        state: FlipFlopState,
        inputs: Seq<Signal>,
        outputs: Seq<Signal>,
    ) -> Response<FlipFlopState> {
        match save_next(state, inputs[0], inputs[1], inputs[2]) {
            Ok(next) => Response {
                state: next,
                outputs: latch_outputs(next.slave),
                result: Ok(()),
            },
            Err(error) => Response { state, outputs, result: Err(error) },
        }
    }

    open spec fn transistors() -> nat {
        66
    }

    fn conduct_into(&mut self, inputs: &[Signal], outputs: &mut [Signal]) -> (r: Result<
        (),
        HardwareError,
    >) {
        if inputs.len() != 3 {
            return Err(
                HardwareError::InvalidInputCount { expected: 3, actual: inputs.len() },
            );
        }
        let data = inputs[0];
        let clock = inputs[1];
        let save = inputs[2];

        let mut not_clock = [Signal::HighImpedance];
        self.not_clock.conduct_into(&[clock], &mut not_clock)?;
        let mut master_output = [Signal::HighImpedance; 2];
        self.master_latch.conduct_into(&[data, not_clock[0]], &mut master_output)?;
        let mut selected_input = [Signal::HighImpedance];
        self.mux.conduct_into(
            &[Signal::Driven(self.slave_latch.q()), master_output[0], save],
            &mut selected_input,
        )?;

        self.slave_latch.conduct_into(&[selected_input[0], clock], outputs)
    }

    fn transistor_count(&self) -> (count: usize) {
        self.master_latch.transistor_count() + self.slave_latch.transistor_count()
            + self.not_clock.transistor_count() + self.mux.transistor_count()
    }
}

/// D flip-flop with save, whose outputs are gated by `load`.
#[derive(Debug)]
pub struct DFlipFlopSaveLoad {
    flip_flop: DFlipFlopSave,
    nmos_q: Nmos,
    nmos_q_bar: Nmos,
}

impl Default for DFlipFlopSaveLoad {
    fn default() -> (flip_flop: DFlipFlopSaveLoad)
        ensures
            flip_flop.wf(),
            flip_flop@ == blank_flip_flop(),
    {
        DFlipFlopSaveLoad {
            flip_flop: DFlipFlopSave::default(),
            nmos_q: Nmos::default(),
            nmos_q_bar: Nmos::default(),
        }
    }
}

impl View for DFlipFlopSaveLoad {
    type V = FlipFlopState;

    closed spec fn view(&self) -> FlipFlopState {
        self.flip_flop@
    }
}

impl DFlipFlopSaveLoad {
    /// The stored output.
    pub fn q(&self) -> (bit: Bit)
        requires
            self.wf(),
        ensures
            bit == self@.slave,
    {
        self.flip_flop.q()
    }

    /// The complement of the stored output.
    pub fn q_bar(&self) -> (bit: Bit)
        requires
            self.wf(),
        ensures
            bit == hardware::flipped(self@.slave),
    {
        self.flip_flop.q_bar()
    }
}

impl Component for DFlipFlopSaveLoad {
    /// Inputs:
    ///
    /// - 0: data
    /// - 1: clock
    /// - 2: save
    /// - 3: load
    ///
    /// Outputs:
    ///
    /// - 0: q, floating unless `load` is High
    /// - 1: q_bar, floating unless `load` is High
    ///
    /// Behave as [`DFlipFlopSave`]; float the outputs when `load` is Low.
    const INPUTS: usize = 4;

    const OUTPUTS: usize = 2;

    open spec fn fan_in() -> nat {
        4
    }

    open spec fn fan_out() -> nat {
        2
    }

    proof fn arity() {
    }

    closed spec fn wf(&self) -> bool {
        self.flip_flop.wf()
    }

    open spec fn admits(state: FlipFlopState, inputs: Seq<Signal>, slots: nat) -> bool {
        slots == 2
    }

    open spec fn respond(
        state: FlipFlopState,
        inputs: Seq<Signal>,
        outputs: Seq<Signal>,
    ) -> Response<FlipFlopState> {
        match save_next(state, inputs[0], inputs[1], inputs[2]) {
            Ok(next) => Response {
                state: next,
                outputs: seq![
                    hardware::gated(inputs[3], Signal::Driven(next.slave)),
                    hardware::gated(inputs[3], Signal::Driven(hardware::flipped(next.slave))),
                ],
                result: Ok(()),
            },
            Err(error) => Response { state, outputs, result: Err(error) },
        }
    }

    open spec fn transistors() -> nat {
        68
    }

    fn conduct_into(&mut self, inputs: &[Signal], outputs: &mut [Signal]) -> (r: Result<
        (),
        HardwareError,
    >) {
        if inputs.len() != 4 {
            return Err(
                HardwareError::InvalidInputCount { expected: 4, actual: inputs.len() },
            );
        }
        let load = inputs[3];

        let mut stored = [Signal::HighImpedance; 2];
        self.flip_flop.conduct_into(&[inputs[0], inputs[1], inputs[2]], &mut stored)?;
        let mut q = [Signal::HighImpedance];
        self.nmos_q.conduct_into(&[load, stored[0]], &mut q)?;
        let mut q_bar = [Signal::HighImpedance];
        self.nmos_q_bar.conduct_into(&[load, stored[1]], &mut q_bar)?;

        outputs[0] = q[0];
        outputs[1] = q_bar[0];
        Ok(())
    }

    fn transistor_count(&self) -> (count: usize) {
        self.flip_flop.transistor_count() + self.nmos_q.transistor_count()
            + self.nmos_q_bar.transistor_count()
    }
}

/// What a ring of flip-flops remembers next: a Low clock preloads every
/// master with the stored level of its predecessor, a High clock moves
/// the masters to the slaves.
pub open spec fn ring_next(ring: Seq<FlipFlopState>, clock: Bit) -> Seq<FlipFlopState> {
    Seq::new(
        ring.len(),
        |i: int|
            match clock {
                Bit::Low => FlipFlopState {
                    master: ring[if i == 0 {
                        ring.len() - 1
                    } else {
                        i - 1
                    }].slave,
                    slave: ring[i].slave,
                },
                Bit::High => FlipFlopState { master: ring[i].master, slave: ring[i].master },
            },
    )
}

/// A full clock cycle moves the single HIGH bit of a ring to the next
/// position, and from the last one back to the first.
pub proof fn law_ring_rotates(ring: Seq<FlipFlopState>, position: nat)
    requires
        position < ring.len(),
        slaves(ring) == decoder::one_hot(ring.len(), position),
    ensures
        slaves(ring_next(ring, Bit::Low)) == slaves(ring),
        slaves(ring_next(ring_next(ring, Bit::Low), Bit::High)) == decoder::one_hot(
            ring.len(),
            (position + 1) % ring.len(),
        ),
{
    let low = ring_next(ring, Bit::Low);
    let high = ring_next(low, Bit::High);
    assert(slaves(low) =~= slaves(ring));
    let next = if position + 1 == ring.len() {
        0
    } else {
        position + 1
    };
    assert(next == (position + 1) % ring.len()) by {
        if position + 1 == ring.len() {
            vstd::arithmetic::div_mod::lemma_mod_self_0(ring.len() as int);
        } else {
            vstd::arithmetic::div_mod::lemma_small_mod(next, ring.len());
        }
    }
    assert forall|i: int| 0 <= i < ring.len() implies slaves(high)[i] == decoder::one_hot(
        ring.len(),
        (position + 1) % ring.len(),
    )[i] by {
        let before = if i == 0 {
            ring.len() - 1
        } else {
            i - 1
        };
        assert(slaves(ring)[before] == decoder::one_hot(ring.len(), position)[before]);
        assert(high[i].slave == low[i].master);
        assert(low[i].master == ring[before].slave);
        assert(slaves(ring)[before] == ring[before].slave);
        assert(decoder::one_hot(ring.len(), position)[before] == hardware::bit_of(
            before == position,
        ));
        assert((i == next) == (before == position));
    }
    assert(slaves(high) =~= decoder::one_hot(ring.len(), (position + 1) % ring.len()));
}

/// Ring counter shifting a single HIGH bit on each rising clock edge.
#[derive(Debug)]
pub struct OneHotCounter6Bits {
    flip_flops: [DFlipFlop; COUNTER_BITS],
}

impl Default for OneHotCounter6Bits {
    fn default() -> (counter: OneHotCounter6Bits)
        ensures
            counter.wf(),
            slaves(counter@) == decoder::one_hot(6, 5),
    {
        OneHotCounter6Bits::new(COUNTER_BITS - 1)
    }
}

impl View for OneHotCounter6Bits {
    type V = Seq<FlipFlopState>;

    closed spec fn view(&self) -> Seq<FlipFlopState> {
        Seq::new(6, |i: int| self.flip_flops@[i]@)
    }
}

impl OneHotCounter6Bits {
    /// Create a counter whose HIGH bit starts at `initial_position`.
    pub fn new(initial_position: usize) -> (counter: OneHotCounter6Bits)
        requires
            initial_position < COUNTER_BITS,
        ensures
            counter.wf(),
            counter@ == Seq::new(
                6,
                |i: int|
                    FlipFlopState {
                        master: hardware::bit_of(i == initial_position),
                        slave: hardware::bit_of(i == initial_position),
                    },
            ),
            slaves(counter@) == decoder::one_hot(6, initial_position as nat),
    {
        let mut counter = OneHotCounter6Bits {
            flip_flops: [
                DFlipFlop::default(),
                DFlipFlop::default(),
                DFlipFlop::default(),
                DFlipFlop::default(),
                DFlipFlop::default(),
                DFlipFlop::default(),
            ],
        };
        // Force the starting bit HIGH with a LOW->HIGH clock sequence.
        let high = Signal::Driven(Bit::High);
        let mut both = [Signal::HighImpedance; 2];
        let _ = counter.flip_flops[initial_position].conduct_into(
            &[high, Signal::Driven(Bit::Low)],
            &mut both,
        );
        let _ = counter.flip_flops[initial_position].conduct_into(&[high, high], &mut both);
        assert(counter@ =~= Seq::new(
            6,
            |i: int|
                FlipFlopState {
                    master: hardware::bit_of(i == initial_position),
                    slave: hardware::bit_of(i == initial_position),
                },
        ));
        assert(slaves(counter@) =~= decoder::one_hot(6, initial_position as nat));
        counter
    }

    /// The stored levels of the ring.
    pub fn state(&self) -> (bits: [Bit; COUNTER_BITS])
        requires
            self.wf(),
        ensures
            bits@ == slaves(self@),
    {
        let mut bits = [Bit::Low; 6];
        for index in 0..COUNTER_BITS
            invariant
                self.wf(),
                forall|i: int| 0 <= i < index ==> #[trigger] bits@[i] == self@[i].slave,
        {
            bits[index] = self.flip_flops[index].q();
        }
        assert(bits@ =~= slaves(self@));
        bits
    }
}

impl Component for OneHotCounter6Bits {
    /// Inputs:
    ///
    /// - 0: clock
    ///
    /// Outputs:
    ///
    /// - 0..6: the ring state.
    ///
    /// The ring is wired like the real circuit: each flip-flop's data
    /// input is the previous flip-flop's output, and the last output is
    /// fed back to the first one.
    const INPUTS: usize = 1;

    const OUTPUTS: usize = 6;

    open spec fn fan_in() -> nat {
        1
    }

    open spec fn fan_out() -> nat {
        6
    }

    proof fn arity() {
    }

    closed spec fn wf(&self) -> bool {
        forall|i: int| 0 <= i < 6 ==> (#[trigger] self.flip_flops@[i]).wf()
    }

    open spec fn admits(state: Seq<FlipFlopState>, inputs: Seq<Signal>, slots: nat) -> bool {
        slots == 6
    }

    open spec fn respond(
        state: Seq<FlipFlopState>,
        inputs: Seq<Signal>,
        outputs: Seq<Signal>,
    ) -> Response<Seq<FlipFlopState>> {
        match inputs[0] {
            Signal::Driven(clock) => Response {
                state: ring_next(state, clock),
                outputs: hardware::driven(slaves(ring_next(state, clock))),
                result: Ok(()),
            },
            Signal::HighImpedance => Response {
                state,
                outputs,
                result: Err(HardwareError::InvalidBit),
            },
        }
    }

    open spec fn transistors() -> nat {
        276
    }

    fn conduct_into(&mut self, inputs: &[Signal], outputs: &mut [Signal]) -> (r: Result<
        (),
        HardwareError,
    >) {
        if inputs.len() != 1 {
            return Err(
                HardwareError::InvalidInputCount { expected: 1, actual: inputs.len() },
            );
        }
        let clock = inputs[0];

        // The clock edge breaks the feedback loop: the shift reads the
        // last flip-flop before it advances.
        let mut previous_q = Signal::Driven(self.flip_flops[COUNTER_BITS - 1].q());
        let ghost ring = self@;
        for index in 0..COUNTER_BITS
            invariant
                forall|i: int| 0 <= i < 6 ==> (#[trigger] self.flip_flops@[i]).wf(),
                ring.len() == 6,
                ring == old(self)@,
                outputs@ == old(outputs)@,
                clock == inputs@[0],
                inputs@.len() == 1,
                previous_q == Signal::Driven(
                    ring[if index == 0 {
                        5
                    } else {
                        index - 1
                    }].slave,
                ) || clock != Signal::Driven(Bit::Low),
                previous_q is Driven,
                clock is Driven || index == 0,
                forall|i: int|
                    0 <= i < index ==> (#[trigger] self.flip_flops@[i])@ == ring_next(
                        ring,
                        clock->Driven_0,
                    )[i],
                forall|i: int| index <= i < 6 ==> (#[trigger] self.flip_flops@[i])@ == ring[i],
        {
            let mut both = [Signal::HighImpedance; 2];
            match self.flip_flops[index].conduct_into(&[previous_q, clock], &mut both) {
                Ok(()) => {},
                Err(error) => {
                    assert(self@ =~= ring);
                    return Err(error);
                },
            }
            previous_q = both[0];
        }
        assert(self@ =~= ring_next(ring, clock->Driven_0));
        for index in 0..COUNTER_BITS
            invariant
                forall|i: int| 0 <= i < 6 ==> (#[trigger] self.flip_flops@[i]).wf(),
                outputs@.len() == 6,
                forall|i: int|
                    0 <= i < index ==> #[trigger] outputs@[i] == Signal::Driven(self@[i].slave),
        {
            outputs[index] = Signal::Driven(self.flip_flops[index].q());
        }
        assert(outputs@ =~= hardware::driven(slaves(self@)));
        Ok(())
    }

    fn transistor_count(&self) -> (count: usize) {
        let mut count: usize = 0;
        for index in 0..COUNTER_BITS
            invariant
                self.wf(),
                count == 46 * index,
        {
            count += self.flip_flops[index].transistor_count();
        }
        count
    }
}

/// The SR latch: `set` stores High, `reset` stores Low, neither keeps the
/// level. The outputs are the stored level and its complement. Both at once,
/// and a floating line, are refused and change nothing.
pub proof fn law_sr_latch(q: Bit, set: Signal, reset: Signal, outputs: Seq<Signal>)
    ensures
        ({
            let response = SRLatch::respond(q, seq![set, reset], outputs);
            let high = Signal::Driven(Bit::High);
            let low = Signal::Driven(Bit::Low);
            &&& set == high && reset == low ==> holds(response, Bit::High)
            &&& set == low && reset == high ==> holds(response, Bit::Low)
            &&& set == low && reset == low ==> holds(response, q)
            &&& set == high && reset == high ==> response == refused(
                q,
                outputs,
                HardwareError::SrlatchForbiddenInput,
            )
            &&& set is HighImpedance || reset is HighImpedance ==> response == refused(
                q,
                outputs,
                HardwareError::InvalidBit,
            )
        }),
{
}

/// Whether a latch stores a level and shows it next to its complement.
pub open spec fn holds(response: Response<Bit>, q: Bit) -> bool {
    &&& response.result is Ok
    &&& response.state == q
    &&& response.outputs.len() == 2
    &&& response.outputs[0] == Signal::Driven(q)
    &&& response.outputs[1] == Signal::Driven(
        if q == Bit::High {
            Bit::Low
        } else {
            Bit::High
        },
    )
}

/// A propagation that is refused: nothing changes.
pub open spec fn refused<S>(state: S, outputs: Seq<Signal>, error: HardwareError) -> Response<S> {
    Response { state, outputs, result: Err(error) }
}

/// The D latch: transparent while `enable` is High, and holding, whatever is
/// on `data`, while it is Low.
pub proof fn law_d_latch(q: Bit, data: Signal, enable: Signal, outputs: Seq<Signal>)
    ensures
        ({
            let response = DLatch::respond(q, seq![data, enable], outputs);
            &&& enable == Signal::Driven(Bit::Low) ==> holds(response, q)
            &&& enable == Signal::Driven(Bit::High) && data is Driven ==> holds(
                response,
                data->Driven_0,
            )
            &&& enable is HighImpedance || (enable == Signal::Driven(Bit::High)
                && data is HighImpedance) ==> response == refused(
                q,
                outputs,
                HardwareError::InvalidBit,
            )
        }),
{
}

/// Whether a flip-flop remembers two levels and shows the stored one next to
/// its complement.
pub open spec fn remembers(response: Response<FlipFlopState>, master: Bit, slave: Bit) -> bool {
    &&& response.result is Ok
    &&& response.state.master == master
    &&& response.state.slave == slave
    &&& response.outputs.len() == 2
    &&& response.outputs[0] == Signal::Driven(slave)
    &&& response.outputs[1] == Signal::Driven(
        if slave == Bit::High {
            Bit::Low
        } else {
            Bit::High
        },
    )
}

/// The D flip-flop: a Low clock takes `data` in, a High clock brings out
/// what was taken in. A floating clock is refused, and so is floating data
/// while the clock is Low.
pub proof fn law_d_flip_flop(
    state: FlipFlopState,
    data: Signal,
    clock: Signal,
    outputs: Seq<Signal>,
)
    ensures
        ({
            let response = DFlipFlop::respond(state, seq![data, clock], outputs);
            &&& clock == Signal::Driven(Bit::High) ==> remembers(
                response,
                state.master,
                state.master,
            )
            &&& clock == Signal::Driven(Bit::Low) && data is Driven ==> remembers(
                response,
                data->Driven_0,
                state.slave,
            )
            &&& clock is HighImpedance || (clock == Signal::Driven(Bit::Low)
                && data is HighImpedance) ==> response == refused(
                state,
                outputs,
                HardwareError::InvalidBit,
            )
        }),
{
}

/// The D flip-flop with `save`: a High clock brings out what was taken in
/// only while `save` is High, and changes nothing while it is Low. A floating
/// `save` is refused then, unless all that it could choose from is Low.
pub proof fn law_save_flip_flop(
    state: FlipFlopState,
    data: Signal,
    clock: Signal,
    save: Signal,
    outputs: Seq<Signal>,
)
    ensures
        ({
            let response = DFlipFlopSave::respond(state, seq![data, clock, save], outputs);
            let high = clock == Signal::Driven(Bit::High);
            let blank = state.master == Bit::Low && state.slave == Bit::Low;
            &&& high && save == Signal::Driven(Bit::High) ==> remembers(
                response,
                state.master,
                state.master,
            )
            &&& high && save == Signal::Driven(Bit::Low) ==> remembers(
                response,
                state.master,
                state.slave,
            )
            &&& high && save is HighImpedance && blank ==> remembers(
                response,
                Bit::Low,
                Bit::Low,
            )
            &&& high && save is HighImpedance && !blank ==> response == refused(
                state,
                outputs,
                HardwareError::InvalidBit,
            )
            &&& clock == Signal::Driven(Bit::Low) && data is Driven ==> remembers(
                response,
                data->Driven_0,
                state.slave,
            )
            &&& clock is HighImpedance || (clock == Signal::Driven(Bit::Low)
                && data is HighImpedance) ==> response == refused(
                state,
                outputs,
                HardwareError::InvalidBit,
            )
        }),
{
}

/// The D flip-flop with `save` and `load` remembers as the one with `save`
/// does. It shows what that one shows while `load` is High, and floats both
/// outputs otherwise.
pub proof fn law_save_load_flip_flop(
    state: FlipFlopState,
    inputs: Seq<Signal>,
    outputs: Seq<Signal>,
)
    requires
        inputs.len() == 4,
    ensures
        ({
            let response = DFlipFlopSaveLoad::respond(state, inputs, outputs);
            let plain = DFlipFlopSave::respond(state, inputs.take(3), outputs);
            &&& response.result == plain.result
            &&& response.state == plain.state
            &&& plain.result is Err ==> response.outputs == outputs
            &&& plain.result is Ok && inputs[3] == Signal::Driven(Bit::High)
                ==> response.outputs == plain.outputs
            &&& plain.result is Ok && inputs[3] != Signal::Driven(Bit::High) ==> {
                &&& response.outputs.len() == 2
                &&& response.outputs[0] is HighImpedance
                &&& response.outputs[1] is HighImpedance
            }
        }),
{
    let response = DFlipFlopSaveLoad::respond(state, inputs, outputs);
    let plain = DFlipFlopSave::respond(state, inputs.take(3), outputs);
    if plain.result is Ok && inputs[3] == Signal::Driven(Bit::High) {
        assert(response.outputs =~= plain.outputs);
    }
}

/// A full clock cycle of the ring counter moves every level on by one place,
/// the last one to the first place, and shows the ring; a Low clock alone
/// moves nothing. A floating clock is refused.
pub proof fn law_ring_counter(ring: Seq<FlipFlopState>, outputs: Seq<Signal>, place: int)
    requires
        ring.len() == 6,
        0 <= place < 6,
    ensures
        ({
            let low = OneHotCounter6Bits::respond(
                ring,
                seq![Signal::Driven(Bit::Low)],
                outputs,
            );
            let high = OneHotCounter6Bits::respond(
                low.state,
                seq![Signal::Driven(Bit::High)],
                outputs,
            );
            let open = OneHotCounter6Bits::respond(ring, seq![Signal::HighImpedance], outputs);
            let before = if place == 0 {
                5
            } else {
                place - 1
            };
            &&& low.result is Ok && low.state.len() == 6 && low.outputs.len() == 6
            &&& low.state[place].slave == ring[place].slave
            &&& low.outputs[place] == Signal::Driven(ring[place].slave)
            &&& high.result is Ok && high.state.len() == 6 && high.outputs.len() == 6
            &&& high.state[place].slave == ring[before].slave
            &&& high.outputs[place] == Signal::Driven(ring[before].slave)
            &&& open == refused(ring, outputs, HardwareError::InvalidBit)
        }),
{
}

/// What the latches and flip-flops show of themselves: the stored level, and
/// the opposite one.
pub proof fn law_levels_shown(
    sr: &SRLatch,
    d: &DLatch,
    plain: &DFlipFlop,
    save: &DFlipFlopSave,
    load: &DFlipFlopSaveLoad,
    q: (Bit, Bit, Bit, Bit, Bit),
    q_bar: (Bit, Bit, Bit, Bit, Bit),
)
    requires
        SRLatch::q.ensures((sr,), q.0),
        SRLatch::q_bar.ensures((sr,), q_bar.0),
        DLatch::q.ensures((d,), q.1),
        DLatch::q_bar.ensures((d,), q_bar.1),
        DFlipFlop::q.ensures((plain,), q.2),
        DFlipFlop::q_bar.ensures((plain,), q_bar.2),
        DFlipFlopSave::q.ensures((save,), q.3),
        DFlipFlopSave::q_bar.ensures((save,), q_bar.3),
        DFlipFlopSaveLoad::q.ensures((load,), q.4),
        DFlipFlopSaveLoad::q_bar.ensures((load,), q_bar.4),
    ensures
        q.0 == sr@ && q_bar.0 != q.0,
        q.1 == d@ && q_bar.1 != q.1,
        q.2 == plain@.slave && q_bar.2 != q.2,
        q.3 == save@.slave && q_bar.3 != q.3,
        q.4 == load@.slave && q_bar.4 != q.4,
{
}

/// A new ring has its one High level where it was asked for, and shows it.
pub proof fn law_ring_starts(
    position: usize,
    ring: OneHotCounter6Bits,
    bits: [Bit; COUNTER_BITS],
    place: int,
)
    requires
        position < 6,
        OneHotCounter6Bits::new.ensures((position,), ring),
        OneHotCounter6Bits::state.ensures((&ring,), bits),
        0 <= place < 6,
    ensures
        bits@[place] == Bit::High <==> place == position,
        ring@[place].slave == bits@[place],
        ring@[place].master == bits@[place],
{
}

} // verus!
