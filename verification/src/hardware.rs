//! The lowest-level primitives: logic levels, wire states, the two
//! transistors and the [`Component`] interface that everything else is
//! built on.
//!
//! * [`Bit`] is a binary logic level.
//! * [`Signal`] is the state of a wire: driven low, driven high, or
//!   floating.
//! * [`wire`] and [`bus8`] resolve several drivers on the same line and
//!   detect short circuits.
//! * [`stabilize`] runs a feedback loop to its fixed point.

use vstd::prelude::*;
use vstd::std_specs::cmp::PartialEqSpec;

verus! {

/// A binary logic level.
#[derive(Debug, Clone, Copy, PartialEq, Eq, Structural)]
pub enum Bit {
    Low,
    High,
}

/// The electrical state of a wire: driven to a level, or floating when
/// no driver is active.
#[derive(Debug, Clone, Copy, PartialEq, Eq, Structural)]
pub enum Signal {
    Driven(Bit),
    HighImpedance,
}

/// Errors raised while propagating signals through the circuit.
#[derive(Debug, Clone, Copy, PartialEq, Eq, Structural)]
pub enum HardwareError {
    /// Two drivers pulled the same wire to opposite levels.
    ShortCircuit { first: Bit, second: Bit },
    /// A component received the wrong number of inputs.
    InvalidInputCount { expected: usize, actual: usize },
    /// A high-impedance signal was read where a logic level was required.
    InvalidBit,
    /// Both SR latch inputs were HIGH at the same time.
    SrlatchForbiddenInput,
    /// A feedback loop did not converge within the iteration budget.
    UnstableCircuit { iterations: usize },
}

/// The level that stands for a truth value.
pub open spec fn bit_of(value: bool) -> Bit {
    if value {
        Bit::High
    } else {
        Bit::Low
    }
}

/// The opposite level.
pub open spec fn flipped(bit: Bit) -> Bit {
    match bit {
        Bit::Low => Bit::High,
        Bit::High => Bit::Low,
    }
}

/// A row of wires driven to the given levels.
pub open spec fn driven(bits: Seq<Bit>) -> Seq<Signal> {
    Seq::new(bits.len(), |i: int| Signal::Driven(bits[i]))
}

/// A row of `count` floating wires.
pub open spec fn floating(count: nat) -> Seq<Signal> {
    Seq::new(count, |i: int| Signal::HighImpedance)
}

/// Whether every wire of a row is driven.
pub open spec fn all_driven(signals: Seq<Signal>) -> bool {
    forall|i: int| 0 <= i < signals.len() ==> (#[trigger] signals[i]) is Driven
}

/// The levels of a row of driven wires.
pub open spec fn levels(signals: Seq<Signal>) -> Seq<Bit> {
    Seq::new(signals.len(), |i: int| signals[i]->Driven_0)
}

/// What a wire carries when a tri-state driver puts `source` on it: the
/// source while `enable` is High, nothing otherwise.
pub open spec fn gated(enable: Signal, source: Signal) -> Signal {
    if enable == Signal::Driven(Bit::High) {
        source
    } else {
        Signal::HighImpedance
    }
}

/// A whole row behind tri-state drivers that share one enable line.
pub open spec fn gated_row(enable: Signal, sources: Seq<Signal>) -> Seq<Signal> {
    Seq::new(sources.len(), |i: int| gated(enable, sources[i]))
}

impl Default for Bit {
    fn default() -> (bit: Bit)
        ensures
            bit == Bit::Low,
    {
        Bit::Low
    }
}

impl From<Bit> for Signal {
    fn from(bit: Bit) -> (signal: Signal) {
        Signal::Driven(bit)
    }
}

impl vstd::std_specs::convert::FromSpecImpl<Bit> for Signal {
    open spec fn obeys_from_spec() -> bool {
        true
    }

    open spec fn from_spec(bit: Bit) -> Signal {
        Signal::Driven(bit)
    }
}

impl From<Bit> for bool {
    fn from(bit: Bit) -> (value: bool) {
        match bit {
            Bit::Low => false,
            Bit::High => true,
        }
    }
}

impl vstd::std_specs::convert::FromSpecImpl<Bit> for bool {
    open spec fn obeys_from_spec() -> bool {
        true
    }

    open spec fn from_spec(bit: Bit) -> bool {
        bit == Bit::High
    }
}

impl TryFrom<Signal> for Bit {
    type Error = HardwareError;

    fn try_from(signal: Signal) -> (bit: Result<Bit, HardwareError>) {
        match signal {
            Signal::Driven(bit) => Ok(bit),
            Signal::HighImpedance => Err(HardwareError::InvalidBit),
        }
    }
}

impl vstd::std_specs::convert::TryFromSpecImpl<Signal> for Bit {
    open spec fn obeys_try_from_spec() -> bool {
        true
    }

    open spec fn try_from_spec(signal: Signal) -> Result<Bit, HardwareError> {
        match signal {
            Signal::Driven(bit) => Ok(bit),
            Signal::HighImpedance => Err(HardwareError::InvalidBit),
        }
    }
}

/// What a component does with one set of inputs: the state it keeps,
/// the signals it leaves on its outputs, and how the propagation ended.
pub struct Response<S> {
    pub state: S,
    pub outputs: Seq<Signal>,
    pub result: Result<(), HardwareError>,
}

/// The response of a combinational component: it has no state to change
/// and it always succeeds.
pub open spec fn steady(outputs: Seq<Signal>) -> Response<()> {
    Response { state: (), outputs, result: Ok(()) }
}

/// The error for a row of inputs of the wrong length.
pub open spec fn wrong_count(expected: nat, actual: nat) -> HardwareError {
    HardwareError::InvalidInputCount { expected: expected as usize, actual: actual as usize }
}

/// The common interface of every piece of hardware.
///
/// A component propagates input signals to its outputs through its
/// internal transistors. Combinational components are pure functions of
/// their inputs and have the view `()`; the view of a sequential
/// component is what it remembers.
///
/// The propagation core is [`Component::conduct_into`], which writes
/// into a buffer of the caller's. [`Propagate::conduct`] is the
/// allocating wrapper around it, [`Propagate::compute`] the one for
/// plain logic levels.
pub trait Component: View + Sized {
    /// Exact number of input signals expected by [`Component::conduct_into`].
    const INPUTS: usize;

    /// Exact number of output signals written by [`Component::conduct_into`].
    const OUTPUTS: usize;

    /// [`Component::INPUTS`] as a number of lines.
    spec fn fan_in() -> nat;

    /// [`Component::OUTPUTS`] as a number of lines.
    spec fn fan_out() -> nat;

    /// The two constants agree with the two counts that the contracts use.
    proof fn arity()
        ensures
            Self::INPUTS == Self::fan_in(),
            Self::OUTPUTS == Self::fan_out(),
    ;

    /// The invariant that ties the component's storage together.
    spec fn wf(&self) -> bool;

    /// Whether a propagation of `inputs` into `slots` output slots is
    /// defined.
    spec fn admits(state: Self::V, inputs: Seq<Signal>, slots: nat) -> bool;

    /// What a propagation of exactly [`Component::INPUTS`] signals does
    /// in the given state; `outputs` is what the buffer held before.
    spec fn respond(state: Self::V, inputs: Seq<Signal>, outputs: Seq<Signal>) -> Response<Self::V>;

    /// Number of transistors, sub-components included.
    spec fn transistors() -> nat;

    /// Propagate the input signals into `outputs`.
    ///
    /// A row of inputs of the wrong length is refused and changes nothing.
    fn conduct_into(&mut self, inputs: &[Signal], outputs: &mut [Signal]) -> (r: Result<
        (),
        HardwareError,
    >)
        requires
            old(self).wf(),
            inputs@.len() == Self::fan_in() ==> Self::admits(
                old(self)@,
                inputs@,
                old(outputs)@.len(),
            ),
        ensures
            final(self).wf(),
            final(outputs)@.len() == old(outputs)@.len(),
            inputs@.len() != Self::fan_in() ==> {
                &&& r == Err::<(), HardwareError>(wrong_count(Self::fan_in(), inputs@.len()))
                &&& final(self)@ == old(self)@
                &&& final(outputs)@ == old(outputs)@
            },
            inputs@.len() == Self::fan_in() ==> {
                let response = Self::respond(old(self)@, inputs@, old(outputs)@);
                &&& r == response.result
                &&& final(self)@ == response.state
                &&& final(outputs)@ == response.outputs
            },
    ;

    /// Number of transistors this component is built from,
    /// sub-components included.
    fn transistor_count(&self) -> (count: usize)
        requires
            self.wf(),
        ensures
            count == Self::transistors(),
    ;
}

/// Convenience wrappers over [`Component::conduct_into`] that every
/// component has.
pub trait Propagate: Component {
    /// Propagate the input signals and return the output signals.
    fn conduct(&mut self, inputs: &[Signal]) -> (r: Result<Vec<Signal>, HardwareError>)
        requires
            old(self).wf(),
            inputs@.len() == Self::fan_in() ==> Self::admits(
                old(self)@,
                inputs@,
                Self::fan_out(),
            ),
        ensures
            final(self).wf(),
            inputs@.len() != Self::fan_in() ==> {
                &&& r == Err::<Vec<Signal>, HardwareError>(
                    wrong_count(Self::fan_in(), inputs@.len()),
                )
                &&& final(self)@ == old(self)@
            },
            inputs@.len() == Self::fan_in() ==> {
                let response = Self::respond(
                    old(self)@,
                    inputs@,
                    floating(Self::fan_out()),
                );
                &&& final(self)@ == response.state
                &&& match response.result {
                    Ok(_) => r is Ok && r->Ok_0@ == response.outputs,
                    Err(error) => r == Err::<Vec<Signal>, HardwareError>(error),
                }
            },
            r is Ok ==> r->Ok_0@.len() == Self::fan_out(),
    ;

    /// Propagate plain logic levels and require every output to be driven.
    fn compute(&mut self, inputs: &[Bit]) -> (r: Result<Vec<Bit>, HardwareError>)
        requires
            old(self).wf(),
            inputs@.len() == Self::fan_in() ==> Self::admits(
                old(self)@,
                driven(inputs@),
                Self::fan_out(),
            ),
        ensures
            final(self).wf(),
            inputs@.len() != Self::fan_in() ==> {
                &&& r == Err::<Vec<Bit>, HardwareError>(wrong_count(Self::fan_in(), inputs@.len()))
                &&& final(self)@ == old(self)@
            },
            inputs@.len() == Self::fan_in() ==> {
                let response = Self::respond(
                    old(self)@,
                    driven(inputs@),
                    floating(Self::fan_out()),
                );
                &&& final(self)@ == response.state
                &&& match response.result {
                    Ok(_) => if all_driven(response.outputs) {
                        r is Ok && r->Ok_0@ == levels(response.outputs)
                    } else {
                        r == Err::<Vec<Bit>, HardwareError>(HardwareError::InvalidBit)
                    },
                    Err(error) => r == Err::<Vec<Bit>, HardwareError>(error),
                }
            },
            r is Ok ==> r->Ok_0@.len() == Self::fan_out(),
    ;
}

impl<C: Component> Propagate for C {
    fn conduct(&mut self, inputs: &[Signal]) -> (r: Result<Vec<Signal>, HardwareError>)
    {
        proof {
            Self::arity();
        }
        if inputs.len() != Self::INPUTS {
            return Err(
                HardwareError::InvalidInputCount { expected: Self::INPUTS, actual: inputs.len() },
            );
        }
        let mut outputs: Vec<Signal> = vec![Signal::HighImpedance; Self::OUTPUTS];
        assert(outputs@ == floating(Self::fan_out()));
        match self.conduct_into(inputs, &mut outputs) {
            Ok(()) => Ok(outputs),
            Err(error) => Err(error),
        }
    }

    fn compute(&mut self, inputs: &[Bit]) -> (r: Result<Vec<Bit>, HardwareError>)
    {
        let mut signals: Vec<Signal> = Vec::new();
        for index in 0..inputs.len()
            invariant
                signals@ == driven(inputs@.take(index as int)),
        {
            signals.push(Signal::Driven(inputs[index]));
        }
        assert(inputs@.take(inputs@.len() as int) == inputs@);
        let outputs = match self.conduct(&signals) {
            Ok(outputs) => outputs,
            Err(error) => return Err(error),
        };
        let ghost response = Self::respond(
            old(self)@,
            driven(inputs@),
            floating(Self::fan_out()),
        );
        let mut bits: Vec<Bit> = Vec::new();
        for index in 0..outputs.len()
            invariant
                self.wf(),
                inputs@.len() == Self::fan_in(),
                self@ == response.state,
                response.result is Ok,
                response.outputs == outputs@,
                outputs@.len() == Self::fan_out(),
                response == Self::respond(
                    old(self)@,
                    driven(inputs@),
                    floating(Self::fan_out()),
                ),
                all_driven(outputs@.take(index as int)),
                bits@ == levels(outputs@.take(index as int)),
        {
            match outputs[index] {
                Signal::Driven(bit) => bits.push(bit),
                Signal::HighImpedance => {
                    assert(!(outputs@[index as int] is Driven));
                    return Err(HardwareError::InvalidBit);
                },
            }
        }
        assert(outputs@.take(outputs@.len() as int) == outputs@);
        Ok(bits)
    }
}

/// A P-channel MOSFET: conducts when its gate is LOW.
#[derive(Debug, Clone, Copy)]
pub struct Pmos;

/// What a P-channel transistor puts on its drain.
pub open spec fn pmos_drain(gate: Signal, source: Signal) -> Signal {
    if gate == Signal::Driven(Bit::Low) {
        source
    } else {
        Signal::HighImpedance
    }
}

impl Default for Pmos {
    fn default() -> (pmos: Pmos)
        ensures
            pmos.wf(),
    {
        Pmos
    }
}

impl View for Pmos {
    type V = ();

    open spec fn view(&self) -> () {
        ()
    }
}

impl Component for Pmos {
    /// Input 0 controls the switch, input 1 is what it passes on.
    const INPUTS: usize = 2;

    const OUTPUTS: usize = 1;

    open spec fn fan_in() -> nat {
        2
    }

    open spec fn fan_out() -> nat {
        1
    }

    proof fn arity() {
    }

    open spec fn wf(&self) -> bool {
        true
    }

    open spec fn admits(state: (), inputs: Seq<Signal>, slots: nat) -> bool {
        slots == 1
    }

    open spec fn respond(state: (), inputs: Seq<Signal>, outputs: Seq<Signal>) -> Response<()> {
        steady(seq![pmos_drain(inputs[0], inputs[1])])
    }

    open spec fn transistors() -> nat {
        1
    }

    fn conduct_into(&mut self, inputs: &[Signal], outputs: &mut [Signal]) -> (r: Result<
        (),
        HardwareError,
    >) {
        if inputs.len() != 2 {
            return Err(
                HardwareError::InvalidInputCount { expected: 2, actual: inputs.len() },
            );
        }
        outputs[0] = match inputs[0] {
            Signal::Driven(Bit::Low) => inputs[1],
            Signal::Driven(Bit::High) | Signal::HighImpedance => Signal::HighImpedance,
        };
        Ok(())
    }

    fn transistor_count(&self) -> (count: usize) {
        1
    }
}

/// An N-channel MOSFET: conducts when its gate is HIGH.
#[derive(Debug, Clone, Copy)]
pub struct Nmos;

impl Default for Nmos {
    fn default() -> (nmos: Nmos)
        ensures
            nmos.wf(),
    {
        Nmos
    }
}

impl View for Nmos {
    type V = ();

    open spec fn view(&self) -> () {
        ()
    }
}

impl Component for Nmos {
    /// Input 0 controls the switch, input 1 is what it passes on.
    const INPUTS: usize = 2;

    const OUTPUTS: usize = 1;

    open spec fn fan_in() -> nat {
        2
    }

    open spec fn fan_out() -> nat {
        1
    }

    proof fn arity() {
    }

    open spec fn wf(&self) -> bool {
        true
    }

    open spec fn admits(state: (), inputs: Seq<Signal>, slots: nat) -> bool {
        slots == 1
    }

    open spec fn respond(state: (), inputs: Seq<Signal>, outputs: Seq<Signal>) -> Response<()> {
        steady(seq![gated(inputs[0], inputs[1])])
    }

    open spec fn transistors() -> nat {
        1
    }

    fn conduct_into(&mut self, inputs: &[Signal], outputs: &mut [Signal]) -> (r: Result<
        (),
        HardwareError,
    >) {
        if inputs.len() != 2 {
            return Err(
                HardwareError::InvalidInputCount { expected: 2, actual: inputs.len() },
            );
        }
        outputs[0] = match inputs[0] {
            Signal::Driven(Bit::High) => inputs[1],
            Signal::Driven(Bit::Low) | Signal::HighImpedance => Signal::HighImpedance,
        };
        Ok(())
    }

    fn transistor_count(&self) -> (count: usize) {
        1
    }
}

/// Two drivers on one wire: a floating one has no effect, agreeing ones
/// are merged, opposite ones are a short circuit.
pub open spec fn joined(first: Signal, second: Signal) -> Result<Signal, HardwareError> {
    match (first, second) {
        (Signal::HighImpedance, _) => Ok(second),
        (_, Signal::HighImpedance) => Ok(first),
        (Signal::Driven(a), Signal::Driven(b)) => if a == b {
            Ok(first)
        } else {
            Err(HardwareError::ShortCircuit { first: a, second: b })
        },
    }
}

/// The state of a wire with a row of drivers, taken in order.
pub open spec fn wired(signals: Seq<Signal>) -> Result<Signal, HardwareError>
    decreases signals.len(),
{
    if signals.len() == 0 {
        Ok(Signal::HighImpedance)
    } else {
        match wired(signals.drop_last()) {
            Ok(level) => joined(level, signals.last()),
            Err(error) => Err(error),
        }
    }
}

/// A wire carries what drives it: every driver that does not float agrees
/// with the level of the wire, and a wire is driven only by a driver.
pub proof fn law_wire_level(signals: Seq<Signal>)
    requires
        wired(signals) is Ok,
    ensures
        forall|i: int|
            0 <= i < signals.len() ==> (#[trigger] signals[i]) == Signal::HighImpedance
                || signals[i] == wired(signals)->Ok_0,
        wired(signals)->Ok_0 is Driven ==> signals.contains(wired(signals)->Ok_0),
    decreases signals.len(),
{
    if signals.len() > 0 {
        let fewer = signals.drop_last();
        law_wire_level(fewer);
        assert forall|i: int| 0 <= i < signals.len() implies (#[trigger] signals[i])
            == Signal::HighImpedance || signals[i] == wired(signals)->Ok_0 by {
            if i < fewer.len() {
                assert(fewer[i] == signals[i]);
            }
        }
        if wired(signals)->Ok_0 is Driven {
            if signals.last() == wired(signals)->Ok_0 {
                assert(signals[signals.len() - 1] == wired(signals)->Ok_0);
            } else {
                let i = choose|i: int| 0 <= i < fewer.len() && fewer[i] == wired(fewer)->Ok_0;
                assert(signals[i] == wired(signals)->Ok_0);
            }
        }
    }
}

/// A wire is a short circuit exactly when two of its drivers disagree.
pub proof fn law_wire_shorts(signals: Seq<Signal>)
    ensures
        wired(signals) is Err <==> exists|i: int, j: int|
            0 <= i < j < signals.len() && (#[trigger] signals[i]) is Driven
                && (#[trigger] signals[j]) is Driven && signals[i] != signals[j],
        wired(signals) matches Err(error) ==> error is ShortCircuit && error->first
            != error->second,
    decreases signals.len(),
{
    if signals.len() > 0 {
        let fewer = signals.drop_last();
        law_wire_shorts(fewer);
        if wired(fewer) is Err {
            let (i, j) = choose|i: int, j: int|
                0 <= i < j < fewer.len() && (#[trigger] fewer[i]) is Driven && (
                #[trigger] fewer[j]) is Driven && fewer[i] != fewer[j];
            assert(signals[i] == fewer[i] && signals[j] == fewer[j]);
        } else {
            law_wire_level(fewer);
            if wired(signals) is Err {
                let i = choose|i: int| 0 <= i < fewer.len() && fewer[i] == wired(fewer)->Ok_0;
                assert(signals[i] == fewer[i]);
                assert(signals[signals.len() - 1] == signals.last());
            } else {
                law_wire_level(signals);
            }
        }
    }
}

/// The first `count` lines of two buses joined in order.
pub open spec fn joined_lines(first: Seq<Signal>, second: Seq<Signal>, count: nat) -> Result<
    Seq<Signal>,
    HardwareError,
>
    decreases count,
{
    if count == 0 {
        Ok(Seq::empty())
    } else {
        match joined_lines(first, second, (count - 1) as nat) {
            Ok(lines) => match joined(first[count - 1], second[count - 1]) {
                Ok(line) => Ok(lines.push(line)),
                Err(error) => Err(error),
            },
            Err(error) => Err(error),
        }
    }
}

/// An 8-bit bus with several drivers, taken in order.
pub open spec fn bused(buses: Seq<[Signal; 8]>) -> Result<Seq<Signal>, HardwareError>
    decreases buses.len(),
{
    if buses.len() == 0 {
        Ok(floating(8))
    } else {
        match bused(buses.drop_last()) {
            Ok(lines) => joined_lines(lines, buses.last()@, 8),
            Err(error) => Err(error),
        }
    }
}

/// Resolve the state of a wire driven by several transistors.
///
/// Floating drivers have no effect and agreeing drivers are merged; two
/// drivers pulling in opposite directions are a short circuit.
pub fn wire(signals: &[Signal]) -> (r: Result<Signal, HardwareError>)
    ensures
        r == wired(signals@),
{
    let mut result = Signal::HighImpedance;
    for index in 0..signals.len()
        invariant
            wired(signals@.take(index as int)) == Ok::<Signal, HardwareError>(result),
    {
        let ghost seen = signals@.take(index as int + 1);
        assert(seen.drop_last() == signals@.take(index as int));
        match (result, signals[index]) {
            (Signal::HighImpedance, signal) => {
                result = signal;
            },
            (_, Signal::HighImpedance) => {},
            (Signal::Driven(a), Signal::Driven(b)) => if a != b {
                proof {
                    lemma_wired_fails(
                        signals@,
                        index as int + 1,
                        HardwareError::ShortCircuit { first: a, second: b },
                    );
                }
                return Err(HardwareError::ShortCircuit { first: a, second: b });
            },
        }
    }
    assert(signals@.take(signals@.len() as int) == signals@);
    Ok(result)
}

/// A short circuit among the first drivers stays, whatever follows.
proof fn lemma_wired_fails(signals: Seq<Signal>, count: int, error: HardwareError)
    requires
        0 <= count <= signals.len(),
        wired(signals.take(count)) == Err::<Signal, HardwareError>(error),
    ensures
        wired(signals) == Err::<Signal, HardwareError>(error),
    decreases signals.len() - count,
{
    if count == signals.len() {
        assert(signals.take(count) == signals);
    } else {
        assert(signals.take(count + 1).drop_last() == signals.take(count));
        lemma_wired_fails(signals, count + 1, error);
    }
}

/// Resolve an 8-bit bus driven by several tri-state drivers, bit per bit.
pub fn bus8(buses: &[[Signal; 8]]) -> (r: Result<[Signal; 8], HardwareError>)
    ensures
        match bused(buses@) {
            Ok(lines) => r is Ok && r->Ok_0@ == lines,
            Err(error) => r == Err::<[Signal; 8], HardwareError>(error),
        },
{
    let mut result = [
        Signal::HighImpedance,
        Signal::HighImpedance,
        Signal::HighImpedance,
        Signal::HighImpedance,
        Signal::HighImpedance,
        Signal::HighImpedance,
        Signal::HighImpedance,
        Signal::HighImpedance,
    ];
    assert(result@ =~= floating(8));
    for number in 0..buses.len()
        invariant
            bused(buses@.take(number as int)) == Ok::<Seq<Signal>, HardwareError>(result@),
    {
        let bus = buses[number];
        let ghost seen = buses@.take(number as int + 1);
        let ghost before = result@;
        assert(seen.drop_last() == buses@.take(number as int));
        assert(result@.take(0) == Seq::<Signal>::empty());
        for index in 0..8
            invariant
                bused(buses@.take(number as int)) == Ok::<Seq<Signal>, HardwareError>(before),
                number < buses@.len(),
                bus == buses@[number as int],
                seen == buses@.take(number as int + 1),
                seen.drop_last() == buses@.take(number as int),
                before.len() == 8,
                joined_lines(before, bus@, index as nat) == Ok::<Seq<Signal>, HardwareError>(
                    result@.take(index as int),
                ),
                result@.skip(index as int) == before.skip(index as int),
        {
            assert(result@[index as int] == result@.skip(index as int)[0]);
            assert(before[index as int] == before.skip(index as int)[0]);
            let pair = [result[index], bus[index]];
            assert(wired(pair@) == joined(pair@[0], pair@[1])) by {
                reveal_with_fuel(wired, 3);
                assert(pair@.drop_last().drop_last() == Seq::<Signal>::empty());
            }
            match wire(&pair) {
                Ok(level) => {
                    let ghost partial = result@;
                    result[index] = level;
                    assert(result@.take(index as int + 1) == partial.take(index as int).push(
                        level,
                    ));
                    assert(result@.skip(index as int + 1) == before.skip(index as int + 1)) by {
                        assert forall|k: int| 0 <= k < 7 - index implies #[trigger] result@.skip(
                            index as int + 1,
                        )[k] == before.skip(index as int + 1)[k] by {
                            assert(partial.skip(index as int)[k + 1] == before.skip(index as int)[k
                                + 1]);
                        }
                    }
                },
                Err(error) => {
                    proof {
                        lemma_joined_lines_fails(before, bus@, index as nat + 1, 8, error);
                        lemma_bused_fails(buses@, number as int + 1, error);
                    }
                    return Err(error);
                },
            }
        }
        assert(result@.take(8) == result@);
    }
    assert(buses@.take(buses@.len() as int) == buses@);
    Ok(result)
}

/// A conflict on one of the first lines stays, however many follow.
proof fn lemma_joined_lines_fails(
    first: Seq<Signal>,
    second: Seq<Signal>,
    count: nat,
    total: nat,
    error: HardwareError,
)
    requires
        count <= total,
        joined_lines(first, second, count) == Err::<Seq<Signal>, HardwareError>(error),
    ensures
        joined_lines(first, second, total) == Err::<Seq<Signal>, HardwareError>(error),
    decreases total,
{
    if count < total {
        lemma_joined_lines_fails(first, second, count, (total - 1) as nat, error);
    }
}

/// A conflict among the first buses stays, whatever follows.
proof fn lemma_bused_fails(buses: Seq<[Signal; 8]>, count: int, error: HardwareError)
    requires
        0 <= count <= buses.len(),
        bused(buses.take(count)) == Err::<Seq<Signal>, HardwareError>(error),
    ensures
        bused(buses) == Err::<Seq<Signal>, HardwareError>(error),
    decreases buses.len() - count,
{
    if count == buses.len() {
        assert(buses.take(count) == buses);
    } else {
        assert(buses.take(count + 1).drop_last() == buses.take(count));
        lemma_bused_fails(buses, count + 1, error);
    }
}

/// Two lines that do not fight are joined without an error; the lines of
/// the outcome are the joined lines.
pub proof fn lemma_joined_lines(first: Seq<Signal>, second: Seq<Signal>, count: nat)
    requires
        forall|i: int| 0 <= i < count ==> (#[trigger] joined(first[i], second[i])) is Ok,
    ensures
        joined_lines(first, second, count) == Ok::<Seq<Signal>, HardwareError>(
            Seq::new(count, |i: int| joined(first[i], second[i])->Ok_0),
        ),
    decreases count,
{
    if count > 0 {
        lemma_joined_lines(first, second, (count - 1) as nat);
        let shorter = Seq::new((count - 1) as nat, |i: int| joined(first[i], second[i])->Ok_0);
        assert(joined(first[count - 1], second[count - 1]) is Ok);
        assert(shorter.push(joined(first[count - 1], second[count - 1])->Ok_0) =~= Seq::new(
            count,
            |i: int| joined(first[i], second[i])->Ok_0,
        ));
    } else {
        assert(Seq::new(count, |i: int| joined(first[i], second[i])->Ok_0) =~= Seq::<
            Signal,
        >::empty());
    }
}

/// A bus whose drivers are all off floats.
pub proof fn law_bus_idle(buses: Seq<[Signal; 8]>)
    requires
        forall|k: int| 0 <= k < buses.len() ==> (#[trigger] buses[k])@ == floating(8),
    ensures
        bused(buses) == Ok::<Seq<Signal>, HardwareError>(floating(8)),
    decreases buses.len(),
{
    if buses.len() > 0 {
        let fewer = buses.drop_last();
        assert forall|k: int| 0 <= k < fewer.len() implies (#[trigger] fewer[k])@ == floating(
            8,
        ) by {
            assert(fewer[k] == buses[k]);
        }
        law_bus_idle(fewer);
        let last = buses.last()@;
        assert(buses[buses.len() - 1]@ == floating(8));
        lemma_joined_lines(floating(8), last, 8);
        assert(Seq::new(8, |i: int| joined(floating(8)[i], last[i])->Ok_0) =~= floating(8));
    }
}

/// A bus with a single active driver carries what that driver puts on it.
pub proof fn law_bus_single_driver(buses: Seq<[Signal; 8]>, driver: int)
    requires
        0 <= driver < buses.len(),
        forall|k: int|
            0 <= k < buses.len() && k != driver ==> (#[trigger] buses[k])@ == floating(8),
    ensures
        bused(buses) == Ok::<Seq<Signal>, HardwareError>(buses[driver]@),
    decreases buses.len(),
{
    let fewer = buses.drop_last();
    let last = buses.last()@;
    assert forall|k: int| 0 <= k < fewer.len() && k != driver implies (#[trigger] fewer[k])@
        == floating(8) by {
        assert(fewer[k] == buses[k]);
    }
    if driver == buses.len() - 1 {
        law_bus_idle(fewer);
        lemma_joined_lines(floating(8), last, 8);
        assert(Seq::new(8, |i: int| joined(floating(8)[i], last[i])->Ok_0) =~= last);
    } else {
        law_bus_single_driver(fewer, driver);
        let lines = fewer[driver]@;
        assert(fewer[driver] == buses[driver]);
        assert(buses[buses.len() - 1]@ == floating(8));
        lemma_joined_lines(lines, last, 8);
        assert(Seq::new(8, |i: int| joined(lines[i], last[i])->Ok_0) =~= lines);
    }
}

/// Whether an update gave a state that compares equal to the one before.
pub open spec fn settles_at<State: PartialEq>(run: Seq<State>, update: int) -> bool {
    run[update + 1].eq_spec(&run[update])
}

/// The states that a feedback loop went through: it starts in `start`,
/// every state comes from the one before by one update, and no update
/// before the last one settled it.
pub open spec fn is_settling_run<State: PartialEq, UpdateState: Fn(State) -> State>(
    run: Seq<State>,
    start: State,
    update_state: UpdateState,
) -> bool {
    &&& run.len() >= 2
    &&& run[0] == start
    &&& forall|i: int|
        0 <= i < run.len() - 1 ==> #[trigger] update_state.ensures((run[i],), run[i + 1])
    &&& forall|i: int| 0 <= i < run.len() - 2 ==> !#[trigger] settles_at(run, i)
}

/// Run a feedback loop until its state stops changing.
///
/// Models the settling of a feedback circuit: the update is applied
/// until two consecutive states match. A loop that keeps changing for
/// `max_iterations` updates is reported as unstable.
pub fn stabilize<State: Copy + PartialEq, UpdateState: Fn(State) -> State>(
    state: &mut State,
    update_state: UpdateState,
    max_iterations: usize,
) -> (r: Result<(), HardwareError>)
    requires
        max_iterations > 0,
        State::obeys_eq_spec(),
        forall|s: State| #[trigger] update_state.requires((s,)),
    ensures
        exists|run: Seq<State>|
            {
                &&& #[trigger] is_settling_run(run, *old(state), update_state)
                &&& run.last() == *final(state)
                &&& run.len() <= max_iterations + 1
                &&& if settles_at(run, run.len() - 2) {
                    r == Ok::<(), HardwareError>(())
                } else {
                    &&& run.len() == max_iterations + 1
                    &&& r == Err::<(), HardwareError>(
                        HardwareError::UnstableCircuit { iterations: max_iterations },
                    )
                }
            },
{
    let mut previous = *state;
    let ghost mut run: Seq<State> = seq![*state];
    for iteration in 0..max_iterations
        invariant
            max_iterations > 0,
            State::obeys_eq_spec(),
            forall|s: State| #[trigger] update_state.requires((s,)),
            run.len() == iteration + 1,
            run[0] == *old(state),
            run.last() == *state,
            previous == *state,
            forall|i: int|
                0 <= i < run.len() - 1 ==> #[trigger] update_state.ensures((run[i],), run[i + 1]),
            forall|i: int| 0 <= i < run.len() - 1 ==> !#[trigger] settles_at(run, i),
    {
        *state = update_state(previous);
        let current = *state;
        proof {
            let longer = run.push(current);
            assert forall|i: int| 0 <= i < longer.len() - 1 implies #[trigger] update_state.ensures(
                (longer[i],),
                longer[i + 1],
            ) by {
                if i < run.len() - 1 {
                    assert(longer[i] == run[i] && longer[i + 1] == run[i + 1]);
                }
            }
            assert forall|i: int| 0 <= i < run.len() - 1 implies !#[trigger] settles_at(
                longer,
                i,
            ) by {
                assert(!settles_at(run, i));
            }
            run = longer;
        }
        if current == previous {
            assert(is_settling_run(run, *old(state), update_state));
            return Ok(());
        }
        previous = current;
    }
    assert(is_settling_run(run, *old(state), update_state));
    Err(HardwareError::UnstableCircuit { iterations: max_iterations })
}

/// The two transistors are opposite switches: one passes its source on while
/// its gate is Low, the other one while it is High, and otherwise, a
/// floating gate included, the drain floats. So the two never conduct
/// together.
pub proof fn law_transistors(gate: Signal, source: Signal, outputs: Seq<Signal>)
    ensures
        ({
            let p = Pmos::respond((), seq![gate, source], outputs);
            let n = Nmos::respond((), seq![gate, source], outputs);
            &&& p.result is Ok && p.outputs.len() == 1
            &&& n.result is Ok && n.outputs.len() == 1
            &&& gate == Signal::Driven(Bit::Low) ==> p.outputs[0] == source
            &&& gate == Signal::Driven(Bit::High) ==> n.outputs[0] == source
            &&& gate != Signal::Driven(Bit::Low) ==> p.outputs[0] is HighImpedance
            &&& gate != Signal::Driven(Bit::High) ==> n.outputs[0] is HighImpedance
        }),
{
}

/// The first driver that does not float decides: the wire takes its level,
/// or the short circuit names its level first and the opposite one second.
pub proof fn law_first_driver(signals: Seq<Signal>, driver: int)
    requires
        0 <= driver < signals.len(),
        signals[driver] is Driven,
        forall|i: int| 0 <= i < driver ==> (#[trigger] signals[i]) is HighImpedance,
    ensures
        match wired(signals) {
            Ok(level) => level == signals[driver],
            Err(error) => error == HardwareError::ShortCircuit {
                first: signals[driver]->Driven_0,
                second: if signals[driver] == Signal::Driven(Bit::High) {
                    Bit::Low
                } else {
                    Bit::High
                },
            },
        },
    decreases signals.len(),
{
    let fewer = signals.drop_last();
    if driver < fewer.len() {
        law_first_driver(fewer, driver);
    } else {
        law_idle_wire(fewer);
    }
}

/// A wire without an active driver floats.
pub proof fn law_idle_wire(signals: Seq<Signal>)
    requires
        forall|i: int| 0 <= i < signals.len() ==> (#[trigger] signals[i]) is HighImpedance,
    ensures
        wired(signals) == Ok::<Signal, HardwareError>(Signal::HighImpedance),
    decreases signals.len(),
{
    if signals.len() > 0 {
        law_idle_wire(signals.drop_last());
    }
}

/// One line of all the buses.
pub open spec fn column(buses: Seq<[Signal; 8]>, line: int) -> Seq<Signal> {
    Seq::new(buses.len(), |k: int| buses[k]@[line])
}

/// A bus is eight wires side by side: each of its lines carries what a wire
/// with the same drivers does, and it is a short circuit exactly when one of
/// the eight wires is, with the error of such a wire.
pub proof fn law_bus_columns(buses: Seq<[Signal; 8]>)
    ensures
        match bused(buses) {
            Ok(lines) => {
                &&& lines.len() == 8
                &&& forall|line: int|
                    0 <= line < 8 ==> wired(#[trigger] column(buses, line)) == Ok::<
                        Signal,
                        HardwareError,
                    >(lines[line])
            },
            Err(error) => exists|line: int|
                0 <= line < 8 && wired(#[trigger] column(buses, line)) == Err::<
                    Signal,
                    HardwareError,
                >(error),
        },
    decreases buses.len(),
{
    if buses.len() == 0 {
        assert forall|line: int| 0 <= line < 8 implies wired(#[trigger] column(buses, line))
            == Ok::<Signal, HardwareError>(floating(8)[line]) by {}
    } else {
        let fewer = buses.drop_last();
        let last = buses.last()@;
        law_bus_columns(fewer);
        assert forall|line: int| 0 <= line < 8 implies {
            &&& (#[trigger] column(buses, line)).drop_last() == column(fewer, line)
            &&& column(buses, line).last() == last[line]
        } by {
            assert(column(buses, line).drop_last() =~= column(fewer, line));
        }
        match bused(fewer) {
            Ok(lines) => {
                lemma_joined_columns(lines, last, 8);
                match bused(buses) {
                    Ok(joined_up) => {
                        assert forall|line: int| 0 <= line < 8 implies wired(
                            #[trigger] column(buses, line),
                        ) == Ok::<Signal, HardwareError>(joined_up[line]) by {
                            assert(column(buses, line).drop_last() == column(fewer, line));
                            assert(joined(lines[line], last[line]) == Ok::<Signal, HardwareError>(
                                joined_up[line],
                            ));
                        }
                    },
                    Err(error) => {
                        let line = choose|line: int|
                            0 <= line < 8 && (#[trigger] joined(lines[line], last[line])) == Err::<
                                Signal,
                                HardwareError,
                            >(error);
                        assert(column(buses, line).drop_last() == column(fewer, line));
                        assert(wired(column(buses, line)) == Err::<Signal, HardwareError>(error));
                    },
                }
            },
            Err(error) => {
                let line = choose|line: int|
                    0 <= line < 8 && wired(#[trigger] column(fewer, line)) == Err::<
                        Signal,
                        HardwareError,
                    >(error);
                assert(column(buses, line).drop_last() == column(fewer, line));
                assert(wired(column(buses, line)) == Err::<Signal, HardwareError>(error));
            },
        }
    }
}

/// Joined buses are joined line by line.
proof fn lemma_joined_columns(first: Seq<Signal>, second: Seq<Signal>, count: nat)
    ensures
        match joined_lines(first, second, count) {
            Ok(lines) => {
                &&& lines.len() == count
                &&& forall|i: int|
                    0 <= i < count ==> (#[trigger] joined(first[i], second[i])) == Ok::<
                        Signal,
                        HardwareError,
                    >(lines[i])
            },
            Err(error) => exists|i: int|
                0 <= i < count && (#[trigger] joined(first[i], second[i])) == Err::<
                    Signal,
                    HardwareError,
                >(error),
        },
    decreases count,
{
    if count > 0 {
        lemma_joined_columns(first, second, (count - 1) as nat);
        match joined_lines(first, second, (count - 1) as nat) {
            Ok(lines) => {
                if joined(first[count - 1], second[count - 1]) is Err {
                    assert(joined_lines(first, second, count) is Err);
                }
            },
            Err(error) => {
                let i = choose|i: int|
                    0 <= i < count - 1 && (#[trigger] joined(first[i], second[i])) == Err::<
                        Signal,
                        HardwareError,
                    >(error);
                assert(joined(first[i], second[i]) == Err::<Signal, HardwareError>(error));
            },
        }
    }
}

/// What resolving a wire gives: a level that every driver either has or
/// leaves open, and that a driver has where it is driven. It fails exactly
/// when two drivers disagree, with their two levels.
pub proof fn law_wire_resolves(signals: &[Signal], r: Result<Signal, HardwareError>)
    requires
        wire.ensures((signals,), r),
    ensures
        r is Err <==> exists|i: int, j: int|
            0 <= i < j < signals@.len() && (#[trigger] signals@[i]) is Driven && (
            #[trigger] signals@[j]) is Driven && signals@[i] != signals@[j],
        r matches Ok(level) ==> {
            &&& forall|i: int|
                0 <= i < signals@.len() ==> (#[trigger] signals@[i]) == Signal::HighImpedance
                    || signals@[i] == level
            &&& level is Driven ==> signals@.contains(level)
        },
        r matches Err(error) ==> error is ShortCircuit && error->first != error->second,
{
    law_wire_shorts(signals@);
    if r is Ok {
        law_wire_level(signals@);
    }
}

/// What resolving a bus gives: on each of its eight lines what a wire with
/// the same drivers gives, or the error of such a wire.
pub proof fn law_bus_resolves(buses: &[[Signal; 8]], r: Result<[Signal; 8], HardwareError>)
    requires
        bus8.ensures((buses,), r),
    ensures
        match r {
            Ok(lines) => forall|line: int|
                0 <= line < 8 ==> wired(#[trigger] column(buses@, line)) == Ok::<
                    Signal,
                    HardwareError,
                >(lines@[line]),
            Err(error) => exists|line: int|
                0 <= line < 8 && wired(#[trigger] column(buses@, line)) == Err::<
                    Signal,
                    HardwareError,
                >(error),
        },
{
    law_bus_columns(buses@);
}

/// A feedback loop that is reported as settled is in a state that its last
/// update did not change any more. A loop whose start does not change settles
/// at once, and one that changes with every update is reported as unstable
/// after all its updates.
pub proof fn law_settling<State: Copy + PartialEq, UpdateState: Fn(State) -> State>(
    state: &mut State,
    update_state: UpdateState,
    max_iterations: usize,
    r: Result<(), HardwareError>,
)
    requires
        max_iterations > 0,
        stabilize::<State, UpdateState>.ensures((state, update_state, max_iterations), r),
    ensures
        r is Ok ==> exists|last: State| #[trigger]
            update_state.ensures((last,), *final(state)) && (*final(state)).eq_spec(&last),
        r is Err ==> r == Err::<(), HardwareError>(
            HardwareError::UnstableCircuit { iterations: max_iterations },
        ),
        (forall|next: State| #[trigger]
            update_state.ensures((*old(state),), next) ==> next.eq_spec(&*old(state))) ==> r is Ok
            && update_state.ensures((*old(state),), *final(state)),
        (forall|last: State, next: State| #[trigger]
            update_state.ensures((last,), next) ==> !next.eq_spec(&last)) ==> r is Err,
{
    let run = choose|run: Seq<State>|
        {
            &&& #[trigger] is_settling_run(run, *old(state), update_state)
            &&& run.last() == *final(state)
            &&& run.len() <= max_iterations + 1
            &&& if settles_at(run, run.len() - 2) {
                r == Ok::<(), HardwareError>(())
            } else {
                &&& run.len() == max_iterations + 1
                &&& r == Err::<(), HardwareError>(
                    HardwareError::UnstableCircuit { iterations: max_iterations },
                )
            }
        };
    let count = run.len() - 2;
    assert(update_state.ensures((run[count],), run[count + 1]));
    assert(update_state.ensures((run[0],), run[0int + 1]));
    if forall|next: State| #[trigger]
        update_state.ensures((*old(state),), next) ==> next.eq_spec(&*old(state)) {
        assert(settles_at(run, 0));
        assert(run.len() == 2);
    }
}

/// Rows of wires, line by line: driven wires carry their levels and give
/// them back, floating ones carry nothing, and a tri-state row carries its
/// sources while it is enabled.
pub proof fn law_rows(bits: Seq<Bit>, sources: Seq<Signal>, enable: Signal, index: int)
    requires
        0 <= index < bits.len(),
        sources.len() == bits.len(),
    ensures
        driven(bits).len() == bits.len(),
        driven(bits)[index] == Signal::Driven(bits[index]),
        all_driven(driven(bits)),
        levels(driven(bits)) == bits,
        floating(bits.len()).len() == bits.len(),
        floating(bits.len())[index] is HighImpedance,
        gated_row(enable, sources).len() == bits.len(),
        gated_row(enable, sources)[index] == if enable == Signal::Driven(Bit::High) {
            sources[index]
        } else {
            Signal::HighImpedance
        },
{
    assert(levels(driven(bits)) =~= bits);
}

/// The two levels are opposites, and stand for the two truth values.
pub proof fn law_opposite_levels(bit: Bit, value: bool)
    ensures
        flipped(bit) != bit,
        bit_of(value) == Bit::High <==> value,
{
}

/// The error for a row of the wrong length names both lengths.
pub proof fn law_wrong_count(expected: usize, actual: usize)
    ensures
        wrong_count(expected as nat, actual as nat) == (HardwareError::InvalidInputCount {
            expected,
            actual,
        }),
{
}

/// Propagating signals and propagating levels, for every component: a row of
/// the wrong length is refused and changes nothing. Otherwise both leave the
/// component in the state of its response and fail where it does, and what
/// they give back are the outputs of the response, line by line. Levels are
/// given back only where every output is driven.
pub proof fn law_propagation<C: Component>(
    component: &mut C,
    signals: &[Signal],
    conducted: Result<Vec<Signal>, HardwareError>,
    other: &mut C,
    inputs: &[Bit],
    computed: Result<Vec<Bit>, HardwareError>,
)
    requires
        old(component).wf(),
        old(other).wf(),
        <C as Propagate>::conduct.ensures((component, signals), conducted),
        <C as Propagate>::compute.ensures((other, inputs), computed),
    ensures
        signals@.len() != C::fan_in() ==> {
            &&& conducted == Err::<Vec<Signal>, HardwareError>(
                HardwareError::InvalidInputCount {
                    expected: C::fan_in() as usize,
                    actual: signals@.len() as usize,
                },
            )
            &&& final(component)@ == old(component)@
        },
        signals@.len() == C::fan_in() ==> {
            let response = C::respond(old(component)@, signals@, floating(C::fan_out()));
            &&& final(component)@ == response.state
            &&& match conducted {
                Ok(lines) => response.result is Ok && lines@ == response.outputs,
                Err(error) => response.result == Err::<(), HardwareError>(error),
            }
        },
        inputs@.len() != C::fan_in() ==> {
            &&& computed == Err::<Vec<Bit>, HardwareError>(
                HardwareError::InvalidInputCount {
                    expected: C::fan_in() as usize,
                    actual: inputs@.len() as usize,
                },
            )
            &&& final(other)@ == old(other)@
        },
        inputs@.len() == C::fan_in() ==> {
            let response = C::respond(old(other)@, driven(inputs@), floating(C::fan_out()));
            &&& final(other)@ == response.state
            &&& match computed {
                Ok(bits) => {
                    &&& response.result is Ok
                    &&& response.outputs.len() == bits@.len()
                    &&& forall|i: int|
                        0 <= i < bits@.len() ==> #[trigger] response.outputs[i] == Signal::Driven(
                            bits@[i],
                        )
                },
                Err(error) => {
                    ||| response.result == Err::<(), HardwareError>(error)
                    ||| {
                        &&& response.result is Ok
                        &&& error is InvalidBit
                        &&& exists|i: int|
                            0 <= i < response.outputs.len() && (
                            #[trigger] response.outputs[i]) is HighImpedance
                    }
                },
            }
        },
{
    if inputs@.len() == C::fan_in() {
        let response = C::respond(old(other)@, driven(inputs@), floating(C::fan_out()));
        if response.result is Ok && !all_driven(response.outputs) {
            let open = choose|i: int|
                0 <= i < response.outputs.len() && !((#[trigger] response.outputs[i]) is Driven);
            assert(response.outputs[open] is HighImpedance);
        }
    }
}

} // verus!
