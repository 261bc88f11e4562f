//! Binary decoders built on top of the logic gates.
//!
//! A decoder activates exactly one output line for a given binary input
//! value. For [`Decoder2to4`], the line activated by inputs `(a, b)` is
//! `2 * a + b`, so `a` is the most significant bit of the pair.
//!
//! [`Decoder4to16`] cascades two [`Decoder2to4`] and ANDs their outputs.
//! Its 4-bit input is least significant bit first.

use vstd::prelude::*;

use crate::gates::{self, AndGate, NotGate};
use crate::hardware::{self, Bit, Component, HardwareError, Response, Signal};
use crate::utils;

verus! {

/// A line, or its complement when the wanted level is Low.
pub open spec fn literal(line: Signal, wanted: Bit) -> Signal {
    match wanted {
        Bit::Low => gates::not_signal(line),
        Bit::High => line,
    }
}

/// Line `index` of a 2-to-4 decoder with most significant input `a`.
pub open spec fn decoded2(a: Signal, b: Signal, index: int) -> Signal {
    gates::and_signal(
        literal(a, hardware::bit_of(index / 2 == 1)),
        literal(b, hardware::bit_of(index % 2 == 1)),
    )
}

/// Line `index` of a 4-to-16 decoder, inputs least significant bit first.
pub open spec fn decoded4(inputs: Seq<Signal>, index: int) -> Signal {
    gates::and_signal(
        decoded2(inputs[3], inputs[2], index / 4),
        decoded2(inputs[1], inputs[0], index % 4),
    )
}

/// All sixteen lines of a 4-to-16 decoder.
pub open spec fn decoded_lines(inputs: Seq<Signal>) -> Seq<Signal> {
    Seq::new(16, |index: int| decoded4(inputs, index))
}

/// The row of `count` lines of which only line `active` is High.
pub open spec fn one_hot(count: nat, active: nat) -> Seq<Bit> {
    Seq::new(count, |index: int| hardware::bit_of(index == active))
}

/// A 2-to-4 decoder with driven inputs raises exactly the line whose
/// number the inputs spell, and keeps every other line Low.
pub proof fn law_decoder2_one_hot(a: Bit, b: Bit)
    ensures
        Seq::new(4, |index: int| decoded2(Signal::Driven(a), Signal::Driven(b), index))
            == hardware::driven(one_hot(4, 2 * utils::bit_value(a) + utils::bit_value(b))),
{
    assert(Seq::new(4, |index: int| decoded2(Signal::Driven(a), Signal::Driven(b), index))
        =~= hardware::driven(one_hot(4, 2 * utils::bit_value(a) + utils::bit_value(b))));
}

/// A 4-to-16 decoder with a floating input raises no line.
pub proof fn law_decoder4_floating(inputs: Seq<Signal>)
    requires
        inputs.len() == 4,
        !hardware::all_driven(inputs),
    ensures
        forall|index: int|
            0 <= index < 16 ==> #[trigger] decoded_lines(inputs)[index] != Signal::Driven(
                Bit::High,
            ),
{
    let open = choose|i: int| 0 <= i < 4 && !((#[trigger] inputs[i]) is Driven);
    assert(inputs[0] is HighImpedance || inputs[1] is HighImpedance || inputs[2] is HighImpedance
        || inputs[3] is HighImpedance) by {
        assert(inputs[open] is HighImpedance);
    }
}

/// A 4-to-16 decoder with driven inputs raises exactly the line whose
/// number the inputs spell, and keeps every other line Low.
pub proof fn law_decoder4_one_hot(bits: Seq<Bit>)
    requires
        bits.len() == 4,
    ensures
        utils::bits_value(bits) < 16,
        decoded_lines(hardware::driven(bits)) == hardware::driven(
            one_hot(16, utils::bits_value(bits)),
        ),
{
    reveal_with_fuel(utils::bits_value, 5);
    let low = utils::bit_value(bits[0]) + 2 * utils::bit_value(bits[1]);
    let high = utils::bit_value(bits[2]) + 2 * utils::bit_value(bits[3]);
    assert(utils::bits_value(bits) == low + 4 * high);
    law_decoder2_one_hot(bits[3], bits[2]);
    law_decoder2_one_hot(bits[1], bits[0]);
    let inputs = hardware::driven(bits);
    assert forall|index: int| 0 <= index < 16 implies #[trigger] decoded_lines(inputs)[index]
        == hardware::driven(one_hot(16, utils::bits_value(bits)))[index] by {
        let upper = Seq::new(4, |i: int| decoded2(inputs[3], inputs[2], i));
        let lower = Seq::new(4, |i: int| decoded2(inputs[1], inputs[0], i));
        assert(upper[index / 4] == Signal::Driven(hardware::bit_of(index / 4 == high)));
        assert(lower[index % 4] == Signal::Driven(hardware::bit_of(index % 4 == low)));
    }
    assert(decoded_lines(inputs) =~= hardware::driven(one_hot(16, utils::bits_value(bits))));
}

/// Two-to-four decoder: 2 NOT, 4 AND.
#[derive(Debug, Clone, Copy)]
pub struct Decoder2to4 {
    not_a: NotGate,
    not_b: NotGate,
    and_gates: [AndGate; 4],
}

impl Default for Decoder2to4 {
    fn default() -> (decoder: Decoder2to4)
        ensures
            decoder.wf(),
    {
        Decoder2to4 {
            not_a: NotGate::default(),
            not_b: NotGate::default(),
            and_gates: [AndGate::default(); 4],
        }
    }
}

impl View for Decoder2to4 {
    type V = ();

    open spec fn view(&self) -> () {
        ()
    }
}

impl Component for Decoder2to4 {
    /// Inputs:
    ///
    /// - 0: a, most significant bit
    /// - 1: b, least significant bit
    ///
    /// Outputs:
    ///
    /// - 0..4: with driven inputs, only the line at `2 * a + b` is High.
    const INPUTS: usize = 2;

    const OUTPUTS: usize = 4;

    open spec fn fan_in() -> nat {
        2
    }

    open spec fn fan_out() -> nat {
        4
    }

    proof fn arity() {
    }

    open spec fn wf(&self) -> bool {
        true
    }

    open spec fn admits(state: (), inputs: Seq<Signal>, slots: nat) -> bool {
        slots == 4
    }

    open spec fn respond(state: (), inputs: Seq<Signal>, outputs: Seq<Signal>) -> Response<()> {
        hardware::steady(Seq::new(4, |index: int| decoded2(inputs[0], inputs[1], index)))
    }

    open spec fn transistors() -> nat {
        28
    }

    fn conduct_into(&mut self, inputs: &[Signal], outputs: &mut [Signal]) -> (r: Result<
        (),
        HardwareError,
    >) {
        if inputs.len() != 2 {
            return Err(
                HardwareError::InvalidInputCount { expected: 2, actual: inputs.len() },
            );
        }
        let a = inputs[0];
        let b = inputs[1];

        let mut not_a = [Signal::HighImpedance];
        self.not_a.conduct_into(&[a], &mut not_a)?;
        let mut not_b = [Signal::HighImpedance];
        self.not_b.conduct_into(&[b], &mut not_b)?;

        let mut single = [Signal::HighImpedance];
        self.and_gates[0].conduct_into(&[not_a[0], not_b[0]], &mut single)?;
        outputs[0] = single[0];
        self.and_gates[1].conduct_into(&[not_a[0], b], &mut single)?;
        outputs[1] = single[0];
        self.and_gates[2].conduct_into(&[a, not_b[0]], &mut single)?;
        outputs[2] = single[0];
        self.and_gates[3].conduct_into(&[a, b], &mut single)?;
        outputs[3] = single[0];

        assert(outputs@ =~= Seq::new(4, |index: int| decoded2(a, b, index)));
        Ok(())
    }

    fn transistor_count(&self) -> (count: usize) {
        let mut count: usize = self.not_a.transistor_count() + self.not_b.transistor_count();
        for index in 0..4
            invariant
                count == 4 + 6 * index,
        {
            count += self.and_gates[index].transistor_count();
        }
        count
    }
}

/// Four-to-sixteen decoder: two 2-to-4 decoders and 16 AND gates.
#[derive(Debug, Clone, Copy)]
pub struct Decoder4to16 {
    low_decoder: Decoder2to4,
    high_decoder: Decoder2to4,
    and_gates: [AndGate; 16],
}

impl Default for Decoder4to16 {
    fn default() -> (decoder: Decoder4to16)
        ensures
            decoder.wf(),
    {
        Decoder4to16 {
            low_decoder: Decoder2to4::default(),
            high_decoder: Decoder2to4::default(),
            and_gates: [AndGate::default(); 16],
        }
    }
}

impl View for Decoder4to16 {
    type V = ();

    open spec fn view(&self) -> () {
        ()
    }
}

impl Component for Decoder4to16 {
    /// Inputs:
    ///
    /// - 0..4: the value, least significant bit first.
    ///
    /// Outputs:
    ///
    /// - 0..16: with driven inputs, only the line at the input value is
    ///   High.
    const INPUTS: usize = 4;

    const OUTPUTS: usize = 16;

    open spec fn fan_in() -> nat {
        4
    }

    open spec fn fan_out() -> nat {
        16
    }

    proof fn arity() {
    }

    open spec fn wf(&self) -> bool {
        true
    }

    open spec fn admits(state: (), inputs: Seq<Signal>, slots: nat) -> bool {
        slots == 16
    }

    open spec fn respond(state: (), inputs: Seq<Signal>, outputs: Seq<Signal>) -> Response<()> {
        hardware::steady(decoded_lines(inputs))
    }

    open spec fn transistors() -> nat {
        152
    }

    fn conduct_into(&mut self, inputs: &[Signal], outputs: &mut [Signal]) -> (r: Result<
        (),
        HardwareError,
    >) {
        if inputs.len() != 4 {
            return Err(
                HardwareError::InvalidInputCount { expected: 4, actual: inputs.len() },
            );
        }
        // The most significant bit of each pair comes first.
        let mut high_group = [Signal::HighImpedance; 4];
        self.high_decoder.conduct_into(&[inputs[3], inputs[2]], &mut high_group)?;
        let mut low_group = [Signal::HighImpedance; 4];
        self.low_decoder.conduct_into(&[inputs[1], inputs[0]], &mut low_group)?;

        for index in 0..16
            invariant
                inputs@.len() == 4,
                outputs@.len() == 16,
                high_group@ == Seq::new(4, |i: int| decoded2(inputs@[3], inputs@[2], i)),
                low_group@ == Seq::new(4, |i: int| decoded2(inputs@[1], inputs@[0], i)),
                forall|k: int| 0 <= k < index ==> #[trigger] outputs@[k] == decoded4(inputs@, k),
        {
            let mut single = [Signal::HighImpedance];
            self.and_gates[index].conduct_into(
                &[high_group[index / 4], low_group[index % 4]],
                &mut single,
            )?;
            outputs[index] = single[0];
        }
        assert(outputs@ =~= decoded_lines(inputs@));
        Ok(())
    }

    fn transistor_count(&self) -> (count: usize) {
        let mut count: usize = self.low_decoder.transistor_count()
            + self.high_decoder.transistor_count();
        for index in 0..16
            invariant
                count == 56 + 6 * index,
        {
            count += self.and_gates[index].transistor_count();
        }
        count
    }
}

/// The decoders on driven inputs: the output whose number the inputs spell
/// is High, and all others are Low. The 2-to-4 decoder reads its first input
/// as the high bit, the 4-to-16 decoder reads its first input as the lowest.
pub proof fn law_decoders(bits: Seq<Bit>, outputs: Seq<Signal>, line: int)
    requires
        0 <= line < 16,
    ensures
        bits.len() == 2 && line < 4 ==> {
            let response = Decoder2to4::respond((), hardware::driven(bits), outputs);
            &&& response.result is Ok
            &&& response.outputs.len() == 4
            &&& response.outputs[line] == Signal::Driven(
                if ((line / 2 == 1) == (bits[0] == Bit::High)) && ((line % 2 == 1) == (bits[1]
                    == Bit::High)) {
                    Bit::High
                } else {
                    Bit::Low
                },
            )
        },
        bits.len() == 4 ==> {
            let response = Decoder4to16::respond((), hardware::driven(bits), outputs);
            &&& response.result is Ok
            &&& response.outputs.len() == 16
            &&& response.outputs[line] == Signal::Driven(
                if line == utils::bits_value(bits) {
                    Bit::High
                } else {
                    Bit::Low
                },
            )
        },
{
    if bits.len() == 4 {
        law_decoder4_one_hot(bits);
    }
}

/// A decoder with a floating input raises no line: one that a driven input
/// rules out is Low, and one that it does not floats.
pub proof fn law_decoder_undecided(other: Bit, outputs: Seq<Signal>, line: int)
    requires
        0 <= line < 4,
    ensures
        ({
            let open = Signal::HighImpedance;
            let first = Decoder2to4::respond((), seq![open, Signal::Driven(other)], outputs);
            let second = Decoder2to4::respond((), seq![Signal::Driven(other), open], outputs);
            let none = Decoder2to4::respond((), seq![open, open], outputs);
            &&& first.result is Ok && second.result is Ok && none.result is Ok
            &&& first.outputs[line] == if (line % 2 == 1) == (other == Bit::High) {
                open
            } else {
                Signal::Driven(Bit::Low)
            }
            &&& second.outputs[line] == if (line / 2 == 1) == (other == Bit::High) {
                open
            } else {
                Signal::Driven(Bit::Low)
            }
            &&& none.outputs[line] == open
        }),
{
}

} // verus!
