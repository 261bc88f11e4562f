//! Multiplexers built on top of the logic gates.
//!
//! A 2-to-1 multiplexer forwards input `a` when `select` is `Low` and
//! input `b` when `select` is `High`:
//!
//!     output = (a AND NOT select) OR (b AND select)
//!
//! The 8-bit variant places eight of them in parallel.

use vstd::prelude::*;

use crate::gates::{AndGate, NotGate, OrGate};
use crate::hardware::{self, Bit, Component, HardwareError, Response, Signal};

verus! {

/// The selected input of a 2-to-1 multiplexer. A floating `select` is
/// decided only when both inputs are Low.
pub open spec fn mux_signal(a: Signal, b: Signal, select: Signal) -> Signal {
    match select {
        Signal::Driven(Bit::Low) => a,
        Signal::Driven(Bit::High) => b,
        Signal::HighImpedance => if a == Signal::Driven(Bit::Low) && b == Signal::Driven(Bit::Low) {
            Signal::Driven(Bit::Low)
        } else {
            Signal::HighImpedance
        },
    }
}

/// A row of 2-to-1 multiplexers that share one select line.
pub open spec fn mux_row(a: Seq<Signal>, b: Seq<Signal>, select: Signal) -> Seq<Signal> {
    Seq::new(a.len(), |i: int| mux_signal(a[i], b[i], select))
}

/// Two-to-one multiplexer: 1 NOT, 2 AND, 1 OR.
#[derive(Debug, Clone, Copy)]
pub struct Mux2x1 {
    not_select: NotGate,
    and_a: AndGate,
    and_b: AndGate,
    or_output: OrGate,
}

impl Default for Mux2x1 {
    fn default() -> (mux: Mux2x1)
        ensures
            mux.wf(),
    {
        Mux2x1 {
            not_select: NotGate::default(),
            and_a: AndGate::default(),
            and_b: AndGate::default(),
            or_output: OrGate::default(),
        }
    }
}

impl View for Mux2x1 {
    type V = ();

    open spec fn view(&self) -> () {
        ()
    }
}

impl Component for Mux2x1 {
    /// Inputs:
    ///
    /// - 0: a
    /// - 1: b
    /// - 2: select
    ///
    /// Outputs:
    ///
    /// - 0: `a` when `select` is Low, `b` when `select` is High.
    const INPUTS: usize = 3;

    const OUTPUTS: usize = 1;

    open spec fn fan_in() -> nat {
        3
    }

    open spec fn fan_out() -> nat {
        1
    }

    proof fn arity() {
    }

    open spec fn wf(&self) -> bool {
        true
    }

    open spec fn admits(state: (), inputs: Seq<Signal>, slots: nat) -> bool {
        slots == 1
    }

    open spec fn respond(state: (), inputs: Seq<Signal>, outputs: Seq<Signal>) -> Response<()> {
        hardware::steady(seq![mux_signal(inputs[0], inputs[1], inputs[2])])
    }

    open spec fn transistors() -> nat {
        20
    }

    fn conduct_into(&mut self, inputs: &[Signal], outputs: &mut [Signal]) -> (r: Result<
        (),
        HardwareError,
    >) {
        if inputs.len() != 3 {
            return Err(
                HardwareError::InvalidInputCount { expected: 3, actual: inputs.len() },
            );
        }
        let a = inputs[0];
        let b = inputs[1];
        let select = inputs[2];

        let mut not_select = [Signal::HighImpedance];
        self.not_select.conduct_into(&[select], &mut not_select)?;
        let mut path_a = [Signal::HighImpedance];
        self.and_a.conduct_into(&[a, not_select[0]], &mut path_a)?;
        let mut path_b = [Signal::HighImpedance];
        self.and_b.conduct_into(&[b, select], &mut path_b)?;

        self.or_output.conduct_into(&[path_a[0], path_b[0]], outputs)
    }

    fn transistor_count(&self) -> (count: usize) {
        self.not_select.transistor_count()
            + self.and_a.transistor_count()
            + self.and_b.transistor_count()
            + self.or_output.transistor_count()
    }
}

/// Eight two-to-one multiplexers in parallel, one per bit.
#[derive(Debug, Clone, Copy)]
pub struct Mux8bits2x1 {
    muxes: [Mux2x1; 8],
}

impl Default for Mux8bits2x1 {
    fn default() -> (mux: Mux8bits2x1)
        ensures
            mux.wf(),
    {
        Mux8bits2x1 {
            muxes: [Mux2x1::default(); 8],
        }
    }
}

impl View for Mux8bits2x1 {
    type V = ();

    open spec fn view(&self) -> () {
        ()
    }
}

impl Component for Mux8bits2x1 {
    /// Inputs:
    ///
    /// - 0..8:  a, least significant bit first
    /// - 8..16: b, least significant bit first
    /// - 16:    select
    ///
    /// Outputs:
    ///
    /// - 0..8: the selected operand, least significant bit first.
    ///
    /// A buffer of the wrong length is refused like inputs of the wrong
    /// count.
    const INPUTS: usize = 17;

    const OUTPUTS: usize = 8;

    open spec fn fan_in() -> nat {
        17
    }

    open spec fn fan_out() -> nat {
        8
    }

    proof fn arity() {
    }

    open spec fn wf(&self) -> bool {
        true
    }

    open spec fn admits(state: (), inputs: Seq<Signal>, slots: nat) -> bool {
        true
    }

    open spec fn respond(state: (), inputs: Seq<Signal>, outputs: Seq<Signal>) -> Response<()> {
        if outputs.len() != 8 {
            Response { state: (), outputs, result: Err(hardware::wrong_count(8, outputs.len())) }
        } else {
            hardware::steady(mux_row(inputs.subrange(0, 8), inputs.subrange(8, 16), inputs[16]))
        }
    }

    open spec fn transistors() -> nat {
        160
    }

    fn conduct_into(&mut self, inputs: &[Signal], outputs: &mut [Signal]) -> (r: Result<
        (),
        HardwareError,
    >) {
        if inputs.len() != 17 {
            return Err(
                HardwareError::InvalidInputCount { expected: 17, actual: inputs.len() },
            );
        }
        if outputs.len() != 8 {
            return Err(
                HardwareError::InvalidInputCount { expected: 8, actual: outputs.len() },
            );
        }
        let select = inputs[16];
        for index in 0..8
            invariant
                inputs@.len() == 17,
                outputs@.len() == 8,
                select == inputs@[16],
                forall|k: int|
                    0 <= k < index ==> #[trigger] outputs@[k] == mux_signal(
                        inputs@[k],
                        inputs@[8 + k],
                        select,
                    ),
        {
            let mut single = [Signal::HighImpedance];
            self.muxes[index].conduct_into(
                &[inputs[index], inputs[8 + index], select],
                &mut single,
            )?;
            outputs[index] = single[0];
        }
        assert(outputs@ =~= mux_row(inputs@.subrange(0, 8), inputs@.subrange(8, 16), select));
        Ok(())
    }

    fn transistor_count(&self) -> (count: usize) {
        let mut count: usize = 0;
        for index in 0..8
            invariant
                count == 20 * index,
        {
            count += self.muxes[index].transistor_count();
        }
        count
    }
}

/// A multiplexer passes on the input that the select line picks. With a
/// floating select line it drives Low where both inputs are Low, and floats
/// otherwise.
pub proof fn law_mux_picks(a: Signal, b: Signal, select: Signal, outputs: Seq<Signal>)
    ensures
        ({
            let response = Mux2x1::respond((), seq![a, b, select], outputs);
            &&& response.result is Ok
            &&& response.outputs.len() == 1
            &&& select == Signal::Driven(Bit::Low) ==> response.outputs[0] == a
            &&& select == Signal::Driven(Bit::High) ==> response.outputs[0] == b
            &&& select is HighImpedance ==> {
                let low = Signal::Driven(Bit::Low);
                response.outputs[0] == if a == low && b == low {
                    low
                } else {
                    Signal::HighImpedance
                }
            }
        }),
{
}

/// An 8-bit multiplexer is eight multiplexers with one select line: the
/// first eight inputs are one byte, the next eight the other one. It refuses
/// an output row of any other width.
pub proof fn law_mux_byte(inputs: Seq<Signal>, outputs: Seq<Signal>, line: int)
    requires
        inputs.len() == 17,
        0 <= line < 8,
    ensures
        ({
            let response = Mux8bits2x1::respond((), inputs, outputs);
            let single = Mux2x1::respond(
                (),
                seq![inputs[line], inputs[8 + line], inputs[16]],
                seq![Signal::HighImpedance],
            );
            &&& outputs.len() == 8 ==> {
                &&& response.result is Ok
                &&& response.outputs.len() == 8
                &&& response.outputs[line] == single.outputs[0]
            }
            &&& outputs.len() != 8 ==> {
                &&& response.result == Err::<(), HardwareError>(
                    HardwareError::InvalidInputCount {
                        expected: 8,
                        actual: outputs.len() as usize,
                    },
                )
                &&& response.outputs == outputs
            }
        }),
{
}

} // verus!
