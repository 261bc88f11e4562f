//! Logic gates built directly from [`Pmos`] and [`Nmos`] transistors in
//! a complementary pull-up / pull-down arrangement (CMOS).
//!
//! * NOT: 1 PMOS + 1 NMOS (2T)
//! * NAND / NOR: 2 PMOS + 2 NMOS (4T)
//! * AND = NAND + NOT and OR = NOR + NOT (6T)
//! * XOR: four NAND gates (16T), XNOR = XOR + NOT (18T)
//!
//! A floating input counts as unknown: a gate whose other input decides
//! the outcome still drives it, any other gate floats its output. No
//! gate can short its supply rails.

use vstd::prelude::*;

use crate::hardware::{self, wire, Bit, Component, HardwareError, Nmos, Pmos, Response, Signal};

verus! {

/// NOT: the opposite level of a driven input.
pub open spec fn not_signal(a: Signal) -> Signal {
    match a {
        Signal::Driven(Bit::Low) => Signal::Driven(Bit::High),
        Signal::Driven(Bit::High) => Signal::Driven(Bit::Low),
        Signal::HighImpedance => Signal::HighImpedance,
    }
}

/// AND: one Low input is enough for Low, High takes two High inputs.
pub open spec fn and_signal(a: Signal, b: Signal) -> Signal {
    if a == Signal::Driven(Bit::Low) || b == Signal::Driven(Bit::Low) {
        Signal::Driven(Bit::Low)
    } else if a == Signal::Driven(Bit::High) && b == Signal::Driven(Bit::High) {
        Signal::Driven(Bit::High)
    } else {
        Signal::HighImpedance
    }
}

/// OR: one High input is enough for High, Low takes two Low inputs.
pub open spec fn or_signal(a: Signal, b: Signal) -> Signal {
    if a == Signal::Driven(Bit::High) || b == Signal::Driven(Bit::High) {
        Signal::Driven(Bit::High)
    } else if a == Signal::Driven(Bit::Low) && b == Signal::Driven(Bit::Low) {
        Signal::Driven(Bit::Low)
    } else {
        Signal::HighImpedance
    }
}

/// XOR: whether two driven inputs differ.
pub open spec fn xor_signal(a: Signal, b: Signal) -> Signal {
    match (a, b) {
        (Signal::Driven(x), Signal::Driven(y)) => if x == y {
            Signal::Driven(Bit::Low)
        } else {
            Signal::Driven(Bit::High)
        },
        _ => Signal::HighImpedance,
    }
}

/// NAND: the complement of AND.
pub open spec fn nand_signal(a: Signal, b: Signal) -> Signal {
    not_signal(and_signal(a, b))
}

/// NOR: the complement of OR.
pub open spec fn nor_signal(a: Signal, b: Signal) -> Signal {
    not_signal(or_signal(a, b))
}

/// XNOR: the complement of XOR.
pub open spec fn xnor_signal(a: Signal, b: Signal) -> Signal {
    not_signal(xor_signal(a, b))
}

/// Two drivers on one wire.
pub proof fn lemma_wired_pair(first: Signal, second: Signal)
    ensures
        hardware::wired(seq![first, second]) == hardware::joined(first, second),
{
    reveal_with_fuel(hardware::wired, 3);
    assert(seq![first, second].drop_last() =~= seq![first]);
    assert(seq![first].drop_last() =~= Seq::<Signal>::empty());
}

/// Inverter: 1 PMOS pulling up, 1 NMOS pulling down.
#[derive(Debug, Clone, Copy)]
pub struct NotGate {
    pmos: Pmos,
    nmos: Nmos,
}

impl Default for NotGate {
    fn default() -> (gate: NotGate)
        ensures
            gate.wf(),
    {
        NotGate {
            pmos: Pmos::default(),
            nmos: Nmos::default(),
        }
    }
}

impl View for NotGate {
    type V = ();

    open spec fn view(&self) -> () {
        ()
    }
}

impl Component for NotGate {
    const INPUTS: usize = 1;

    const OUTPUTS: usize = 1;

    open spec fn fan_in() -> nat {
        1
    }

    open spec fn fan_out() -> nat {
        1
    }

    proof fn arity() {
    }

    open spec fn wf(&self) -> bool {
        true
    }

    open spec fn admits(state: (), inputs: Seq<Signal>, slots: nat) -> bool {
        slots == 1
    }

    open spec fn respond(state: (), inputs: Seq<Signal>, outputs: Seq<Signal>) -> Response<()> {
        hardware::steady(seq![not_signal(inputs[0])])
    }

    open spec fn transistors() -> nat {
        2
    }

    fn conduct_into(&mut self, inputs: &[Signal], outputs: &mut [Signal]) -> (r: Result<
        (),
        HardwareError,
    >) {
        if inputs.len() != 1 {
            return Err(
                HardwareError::InvalidInputCount { expected: 1, actual: inputs.len() },
            );
        }
        let input = inputs[0];
        let mut pmos_output = [Signal::HighImpedance];
        self.pmos.conduct_into(&[input, Signal::Driven(Bit::High)], &mut pmos_output)?;
        let mut nmos_output = [Signal::HighImpedance];
        self.nmos.conduct_into(&[input, Signal::Driven(Bit::Low)], &mut nmos_output)?;

        proof {
            lemma_wired_pair(pmos_output@[0], nmos_output@[0]);
        }
        outputs[0] = wire(&[pmos_output[0], nmos_output[0]])?;
        Ok(())
    }

    fn transistor_count(&self) -> (count: usize) {
        self.pmos.transistor_count()
            + self.nmos.transistor_count()
    }
}

/// NAND: parallel PMOS pull-up, series NMOS pull-down (4T).
#[derive(Debug, Clone, Copy)]
pub struct NandGate {
    pmos_a: Pmos,
    pmos_b: Pmos,
    nmos_a: Nmos,
    nmos_b: Nmos,
}

impl Default for NandGate {
    fn default() -> (gate: NandGate)
        ensures
            gate.wf(),
    {
        NandGate {
            pmos_a: Pmos::default(),
            pmos_b: Pmos::default(),
            nmos_a: Nmos::default(),
            nmos_b: Nmos::default(),
        }
    }
}

impl View for NandGate {
    type V = ();

    open spec fn view(&self) -> () {
        ()
    }
}

impl Component for NandGate {
    const INPUTS: usize = 2;

    const OUTPUTS: usize = 1;

    open spec fn fan_in() -> nat {
        2
    }

    open spec fn fan_out() -> nat {
        1
    }

    proof fn arity() {
    }

    open spec fn wf(&self) -> bool {
        true
    }

    open spec fn admits(state: (), inputs: Seq<Signal>, slots: nat) -> bool {
        slots == 1
    }

    open spec fn respond(state: (), inputs: Seq<Signal>, outputs: Seq<Signal>) -> Response<()> {
        hardware::steady(seq![nand_signal(inputs[0], inputs[1])])
    }

    open spec fn transistors() -> nat {
        4
    }

    fn conduct_into(&mut self, inputs: &[Signal], outputs: &mut [Signal]) -> (r: Result<
        (),
        HardwareError,
    >) {
        if inputs.len() != 2 {
            return Err(
                HardwareError::InvalidInputCount { expected: 2, actual: inputs.len() },
            );
        }
        let a = inputs[0];
        let b = inputs[1];

        let mut pmos_a_output = [Signal::HighImpedance];
        self.pmos_a.conduct_into(&[a, Signal::Driven(Bit::High)], &mut pmos_a_output)?;
        let mut pmos_b_output = [Signal::HighImpedance];
        self.pmos_b.conduct_into(&[b, Signal::Driven(Bit::High)], &mut pmos_b_output)?;
        proof {
            lemma_wired_pair(pmos_a_output@[0], pmos_b_output@[0]);
        }
        let pull_up = wire(&[pmos_a_output[0], pmos_b_output[0]])?;

        let mut nmos_a_output = [Signal::HighImpedance];
        self.nmos_a.conduct_into(&[a, Signal::Driven(Bit::Low)], &mut nmos_a_output)?;
        let mut nmos_b_output = [Signal::HighImpedance];
        self.nmos_b.conduct_into(&[b, nmos_a_output[0]], &mut nmos_b_output)?;

        proof {
            lemma_wired_pair(pull_up, nmos_b_output@[0]);
        }
        outputs[0] = wire(&[pull_up, nmos_b_output[0]])?;
        Ok(())
    }

    fn transistor_count(&self) -> (count: usize) {
        self.pmos_a.transistor_count()
            + self.pmos_b.transistor_count()
            + self.nmos_a.transistor_count()
            + self.nmos_b.transistor_count()
    }
}

/// NOR: series PMOS pull-up, parallel NMOS pull-down (4T).
#[derive(Debug, Clone, Copy)]
pub struct NorGate {
    pmos_a: Pmos,
    pmos_b: Pmos,
    nmos_a: Nmos,
    nmos_b: Nmos,
}

impl Default for NorGate {
    fn default() -> (gate: NorGate)
        ensures
            gate.wf(),
    {
        NorGate {
            pmos_a: Pmos::default(),
            pmos_b: Pmos::default(),
            nmos_a: Nmos::default(),
            nmos_b: Nmos::default(),
        }
    }
}

impl View for NorGate {
    type V = ();

    open spec fn view(&self) -> () {
        ()
    }
}

impl Component for NorGate {
    const INPUTS: usize = 2;

    const OUTPUTS: usize = 1;

    open spec fn fan_in() -> nat {
        2
    }

    open spec fn fan_out() -> nat {
        1
    }

    proof fn arity() {
    }

    open spec fn wf(&self) -> bool {
        true
    }

    open spec fn admits(state: (), inputs: Seq<Signal>, slots: nat) -> bool {
        slots == 1
    }

    open spec fn respond(state: (), inputs: Seq<Signal>, outputs: Seq<Signal>) -> Response<()> {
        hardware::steady(seq![nor_signal(inputs[0], inputs[1])])
    }

    open spec fn transistors() -> nat {
        4
    }

    fn conduct_into(&mut self, inputs: &[Signal], outputs: &mut [Signal]) -> (r: Result<
        (),
        HardwareError,
    >) {
        if inputs.len() != 2 {
            return Err(
                HardwareError::InvalidInputCount { expected: 2, actual: inputs.len() },
            );
        }
        let a = inputs[0];
        let b = inputs[1];

        let mut pmos_a_output = [Signal::HighImpedance];
        self.pmos_a.conduct_into(&[a, Signal::Driven(Bit::High)], &mut pmos_a_output)?;
        let mut pmos_b_output = [Signal::HighImpedance];
        self.pmos_b.conduct_into(&[b, pmos_a_output[0]], &mut pmos_b_output)?;

        let mut nmos_a_output = [Signal::HighImpedance];
        self.nmos_a.conduct_into(&[a, Signal::Driven(Bit::Low)], &mut nmos_a_output)?;
        let mut nmos_b_output = [Signal::HighImpedance];
        self.nmos_b.conduct_into(&[b, Signal::Driven(Bit::Low)], &mut nmos_b_output)?;
        proof {
            lemma_wired_pair(nmos_a_output@[0], nmos_b_output@[0]);
        }
        let pull_down = wire(&[nmos_a_output[0], nmos_b_output[0]])?;

        proof {
            lemma_wired_pair(pmos_b_output@[0], pull_down);
        }
        outputs[0] = wire(&[pmos_b_output[0], pull_down])?;
        Ok(())
    }

    fn transistor_count(&self) -> (count: usize) {
        self.pmos_a.transistor_count()
            + self.pmos_b.transistor_count()
            + self.nmos_a.transistor_count()
            + self.nmos_b.transistor_count()
    }
}

/// AND = NAND followed by an inverter (6T).
#[derive(Debug, Clone, Copy)]
pub struct AndGate {
    nand: NandGate,
    not: NotGate,
}

impl Default for AndGate {
    fn default() -> (gate: AndGate)
        ensures
            gate.wf(),
    {
        AndGate {
            nand: NandGate::default(),
            not: NotGate::default(),
        }
    }
}

impl View for AndGate {
    type V = ();

    open spec fn view(&self) -> () {
        ()
    }
}

impl Component for AndGate {
    const INPUTS: usize = 2;

    const OUTPUTS: usize = 1;

    open spec fn fan_in() -> nat {
        2
    }

    open spec fn fan_out() -> nat {
        1
    }

    proof fn arity() {
    }

    open spec fn wf(&self) -> bool {
        true
    }

    open spec fn admits(state: (), inputs: Seq<Signal>, slots: nat) -> bool {
        slots == 1
    }

    open spec fn respond(state: (), inputs: Seq<Signal>, outputs: Seq<Signal>) -> Response<()> {
        hardware::steady(seq![and_signal(inputs[0], inputs[1])])
    }

    open spec fn transistors() -> nat {
        6
    }

    fn conduct_into(&mut self, inputs: &[Signal], outputs: &mut [Signal]) -> (r: Result<
        (),
        HardwareError,
    >) {
        if inputs.len() != 2 {
            return Err(
                HardwareError::InvalidInputCount { expected: 2, actual: inputs.len() },
            );
        }
        let mut nand_output = [Signal::HighImpedance];
        self.nand.conduct_into(&[inputs[0], inputs[1]], &mut nand_output)?;
        self.not.conduct_into(&nand_output, outputs)
    }

    fn transistor_count(&self) -> (count: usize) {
        self.nand.transistor_count()
            + self.not.transistor_count()
    }
}

/// OR = NOR followed by an inverter (6T).
#[derive(Debug, Clone, Copy)]
pub struct OrGate {
    nor: NorGate,
    not: NotGate,
}

impl Default for OrGate {
    fn default() -> (gate: OrGate)
        ensures
            gate.wf(),
    {
        OrGate {
            nor: NorGate::default(),
            not: NotGate::default(),
        }
    }
}

impl View for OrGate {
    type V = ();

    open spec fn view(&self) -> () {
        ()
    }
}

impl Component for OrGate {
    const INPUTS: usize = 2;

    const OUTPUTS: usize = 1;

    open spec fn fan_in() -> nat {
        2
    }

    open spec fn fan_out() -> nat {
        1
    }

    proof fn arity() {
    }

    open spec fn wf(&self) -> bool {
        true
    }

    open spec fn admits(state: (), inputs: Seq<Signal>, slots: nat) -> bool {
        slots == 1
    }

    open spec fn respond(state: (), inputs: Seq<Signal>, outputs: Seq<Signal>) -> Response<()> {
        hardware::steady(seq![or_signal(inputs[0], inputs[1])])
    }

    open spec fn transistors() -> nat {
        6
    }

    fn conduct_into(&mut self, inputs: &[Signal], outputs: &mut [Signal]) -> (r: Result<
        (),
        HardwareError,
    >) {
        if inputs.len() != 2 {
            return Err(
                HardwareError::InvalidInputCount { expected: 2, actual: inputs.len() },
            );
        }
        let mut nor_output = [Signal::HighImpedance];
        self.nor.conduct_into(&[inputs[0], inputs[1]], &mut nor_output)?;
        self.not.conduct_into(&nor_output, outputs)
    }

    fn transistor_count(&self) -> (count: usize) {
        self.nor.transistor_count()
            + self.not.transistor_count()
    }
}

/// XOR: four NAND gates (16T).
#[derive(Debug, Clone, Copy)]
pub struct XorGate {
    nand1: NandGate,
    nand2: NandGate,
    nand3: NandGate,
    nand4: NandGate,
}

impl Default for XorGate {
    fn default() -> (gate: XorGate)
        ensures
            gate.wf(),
    {
        XorGate {
            nand1: NandGate::default(),
            nand2: NandGate::default(),
            nand3: NandGate::default(),
            nand4: NandGate::default(),
        }
    }
}

impl View for XorGate {
    type V = ();

    open spec fn view(&self) -> () {
        ()
    }
}

impl Component for XorGate {
    const INPUTS: usize = 2;

    const OUTPUTS: usize = 1;

    open spec fn fan_in() -> nat {
        2
    }

    open spec fn fan_out() -> nat {
        1
    }

    proof fn arity() {
    }

    open spec fn wf(&self) -> bool {
        true
    }

    open spec fn admits(state: (), inputs: Seq<Signal>, slots: nat) -> bool {
        slots == 1
    }

    open spec fn respond(state: (), inputs: Seq<Signal>, outputs: Seq<Signal>) -> Response<()> {
        hardware::steady(seq![xor_signal(inputs[0], inputs[1])])
    }

    open spec fn transistors() -> nat {
        16
    }

    fn conduct_into(&mut self, inputs: &[Signal], outputs: &mut [Signal]) -> (r: Result<
        (),
        HardwareError,
    >) {
        if inputs.len() != 2 {
            return Err(
                HardwareError::InvalidInputCount { expected: 2, actual: inputs.len() },
            );
        }
        let a = inputs[0];
        let b = inputs[1];

        let mut nand1_output = [Signal::HighImpedance];
        self.nand1.conduct_into(&[a, b], &mut nand1_output)?;
        let mut nand2_output = [Signal::HighImpedance];
        self.nand2.conduct_into(&[a, nand1_output[0]], &mut nand2_output)?;
        let mut nand3_output = [Signal::HighImpedance];
        self.nand3.conduct_into(&[b, nand1_output[0]], &mut nand3_output)?;

        self.nand4.conduct_into(&[nand2_output[0], nand3_output[0]], outputs)
    }

    fn transistor_count(&self) -> (count: usize) {
        self.nand1.transistor_count()
            + self.nand2.transistor_count()
            + self.nand3.transistor_count()
            + self.nand4.transistor_count()
    }
}

/// XNOR = XOR followed by an inverter (18T).
#[derive(Debug, Clone, Copy)]
pub struct XnorGate {
    xor: XorGate,
    not: NotGate,
}

impl Default for XnorGate {
    fn default() -> (gate: XnorGate)
        ensures
            gate.wf(),
    {
        XnorGate {
            xor: XorGate::default(),
            not: NotGate::default(),
        }
    }
}

impl View for XnorGate {
    type V = ();

    open spec fn view(&self) -> () {
        ()
    }
}

impl Component for XnorGate {
    const INPUTS: usize = 2;

    const OUTPUTS: usize = 1;

    open spec fn fan_in() -> nat {
        2
    }

    open spec fn fan_out() -> nat {
        1
    }

    proof fn arity() {
    }

    open spec fn wf(&self) -> bool {
        true
    }

    open spec fn admits(state: (), inputs: Seq<Signal>, slots: nat) -> bool {
        slots == 1
    }

    open spec fn respond(state: (), inputs: Seq<Signal>, outputs: Seq<Signal>) -> Response<()> {
        hardware::steady(seq![xnor_signal(inputs[0], inputs[1])])
    }

    open spec fn transistors() -> nat {
        18
    }

    fn conduct_into(&mut self, inputs: &[Signal], outputs: &mut [Signal]) -> (r: Result<
        (),
        HardwareError,
    >) {
        if inputs.len() != 2 {
            return Err(
                HardwareError::InvalidInputCount { expected: 2, actual: inputs.len() },
            );
        }
        let mut xor_output = [Signal::HighImpedance];
        self.xor.conduct_into(&[inputs[0], inputs[1]], &mut xor_output)?;
        self.not.conduct_into(&xor_output, outputs)
    }

    fn transistor_count(&self) -> (count: usize) {
        self.xor.transistor_count()
            + self.not.transistor_count()
    }
}

/// The gates on driven inputs are the Boolean operations.
pub proof fn law_gates_driven(a: Bit, b: Bit, outputs: Seq<Signal>)
    ensures
        ({
            let one = seq![Signal::Driven(a)];
            let two = seq![Signal::Driven(a), Signal::Driven(b)];
            let x = a == Bit::High;
            let y = b == Bit::High;
            &&& answers(NotGate::respond((), one, outputs), !x)
            &&& answers(AndGate::respond((), two, outputs), x && y)
            &&& answers(OrGate::respond((), two, outputs), x || y)
            &&& answers(NandGate::respond((), two, outputs), !x || !y)
            &&& answers(NorGate::respond((), two, outputs), !x && !y)
            &&& answers(XorGate::respond((), two, outputs), x != y)
            &&& answers(XnorGate::respond((), two, outputs), x == y)
        }),
{
}

/// Whether a gate drives a truth value.
pub open spec fn answers(response: Response<()>, value: bool) -> bool {
    &&& response.result is Ok
    &&& response.outputs.len() == 1
    &&& response.outputs[0] == Signal::Driven(
        if value {
            Bit::High
        } else {
            Bit::Low
        },
    )
}

/// Whether a gate floats its output.
pub open spec fn floats(response: Response<()>) -> bool {
    &&& response.result is Ok
    &&& response.outputs.len() == 1
    &&& response.outputs[0] is HighImpedance
}

/// A floating input counts as unknown: a gate answers only when its other
/// input decides alone, which is a Low one for AND and NAND, a High one for
/// OR and NOR, and none for XOR and XNOR. The order of the inputs does not
/// matter.
pub proof fn law_gates_floating(b: Signal, first: bool, outputs: Seq<Signal>)
    ensures
        ({
            let open = Signal::HighImpedance;
            let two = if first {
                seq![open, b]
            } else {
                seq![b, open]
            };
            let low = b == Signal::Driven(Bit::Low);
            let high = b == Signal::Driven(Bit::High);
            &&& floats(NotGate::respond((), seq![open], outputs))
            &&& low ==> answers(AndGate::respond((), two, outputs), false)
            &&& low ==> answers(NandGate::respond((), two, outputs), true)
            &&& !low ==> floats(AndGate::respond((), two, outputs))
            &&& !low ==> floats(NandGate::respond((), two, outputs))
            &&& high ==> answers(OrGate::respond((), two, outputs), true)
            &&& high ==> answers(NorGate::respond((), two, outputs), false)
            &&& !high ==> floats(OrGate::respond((), two, outputs))
            &&& !high ==> floats(NorGate::respond((), two, outputs))
            &&& floats(XorGate::respond((), two, outputs))
            &&& floats(XnorGate::respond((), two, outputs))
        }),
{
}

} // verus!
