//! Arithmetic circuits layered on top of the gates.
//!
//! * [`HalfAdder`]: XOR (sum) and AND (carry), 22T.
//! * [`FullAdder`]: two half adders and an OR gate, 50T.
//! * [`Adder8Bits`]: eight chained full adders (ripple carry).
//! * [`ZeroDetector8Bits`]: an OR tree followed by an inverter.
//! * [`SignDetector8Bits`]: a buffer on the sign bit.
//! * [`AluSap1`]: the SAP-1 ALU, an adder and a zero detector;
//!   `subtract` inverts the B operand and feeds the carry input, so SUB
//!   computes `A + NOT(B) + 1` (two's complement).
//! * [`AluSap2`]: the SAP-2 ALU: addition, subtraction, the bitwise
//!   operations AND, OR, XOR and NOT, increment and decrement, selected
//!   by a 3-bit operation code. Every candidate result drives the
//!   internal bus through its own tri-state transistor.

use vstd::arithmetic::power2;
use vstd::prelude::*;

use crate::decoder;
use crate::gates::{self, AndGate, NotGate, OrGate, XorGate};
use crate::hardware::{
    self, bus8, wire, Bit, Component, HardwareError, Nmos, Propagate, Response, Signal,
};
use crate::mux::{self, Mux2x1};
use crate::utils::{self, bits_to_int, int_to_bits};
use crate::FAST;

verus! {

/// The sum output of a full adder.
pub open spec fn sum_signal(a: Signal, b: Signal, carry: Signal) -> Signal {
    gates::xor_signal(gates::xor_signal(a, b), carry)
}

/// The carry output of a full adder.
pub open spec fn carry_signal(a: Signal, b: Signal, carry: Signal) -> Signal {
    gates::or_signal(gates::and_signal(a, b), gates::and_signal(gates::xor_signal(a, b), carry))
}

/// The carry that enters position `index` of a ripple-carry adder.
pub open spec fn ripple_carry(
    a: Seq<Signal>,
    b: Seq<Signal>,
    carry: Signal,
    index: nat,
) -> Signal
    decreases index,
{
    if index == 0 {
        carry
    } else {
        carry_signal(a[index - 1], b[index - 1], ripple_carry(a, b, carry, (index - 1) as nat))
    }
}

/// The sum outputs of a ripple-carry adder.
pub open spec fn ripple_sum(a: Seq<Signal>, b: Seq<Signal>, carry: Signal) -> Seq<Signal> {
    Seq::new(a.len(), |i: int| sum_signal(a[i], b[i], ripple_carry(a, b, carry, i as nat)))
}

/// Whether a row of wires is all zero, as far as the driven ones tell.
pub open spec fn zero_signal(row: Seq<Signal>) -> Signal {
    if exists|i: int| 0 <= i < row.len() && #[trigger] row[i] == Signal::Driven(Bit::High) {
        Signal::Driven(Bit::Low)
    } else if forall|i: int| 0 <= i < row.len() ==> #[trigger] row[i] == Signal::Driven(Bit::Low) {
        Signal::Driven(Bit::High)
    } else {
        Signal::HighImpedance
    }
}

/// Dropping the first position of an adder turns its carry output into
/// the carry input of the rest.
proof fn lemma_ripple_tail(a: Seq<Signal>, b: Seq<Signal>, carry: Signal, index: nat)
    requires
        index < a.len(),
        a.len() == b.len(),
    ensures
        ripple_carry(a, b, carry, index + 1) == ripple_carry(
            a.drop_first(),
            b.drop_first(),
            carry_signal(a[0], b[0], carry),
            index,
        ),
    decreases index,
{
    reveal_with_fuel(ripple_carry, 2);
    if index > 0 {
        lemma_ripple_tail(a, b, carry, (index - 1) as nat);
    }
}

/// A ripple-carry adder adds: on driven operands every output is driven,
/// and the sum bits together with the carry spell the sum of the
/// operands and the carry input.
pub proof fn law_ripple_adds(a: Seq<Bit>, b: Seq<Bit>, carry: Bit)
    requires
        a.len() == b.len(),
    ensures
        ({
            let sum = ripple_sum(hardware::driven(a), hardware::driven(b), Signal::Driven(carry));
            let out = ripple_carry(
                hardware::driven(a),
                hardware::driven(b),
                Signal::Driven(carry),
                a.len(),
            );
            &&& hardware::all_driven(sum)
            &&& out is Driven
            &&& utils::bits_value(hardware::levels(sum)) + power2::pow2(a.len()) * utils::bit_value(
                out->Driven_0,
            ) == utils::bits_value(a) + utils::bits_value(b) + utils::bit_value(carry)
        }),
    decreases a.len(),
{
    let x = hardware::driven(a);
    let y = hardware::driven(b);
    let c = Signal::Driven(carry);
    let sum = ripple_sum(x, y, c);
    let out = ripple_carry(x, y, c, a.len());
    power2::lemma2_to64();
    if a.len() > 0 {
        let first = carry_signal(x[0], y[0], c);
        assert(first is Driven);
        law_ripple_adds(a.drop_first(), b.drop_first(), first->Driven_0);
        assert(hardware::driven(a.drop_first()) =~= x.drop_first());
        assert(hardware::driven(b.drop_first()) =~= y.drop_first());
        let rest = ripple_sum(x.drop_first(), y.drop_first(), first);
        lemma_ripple_tail(x, y, c, (a.len() - 1) as nat);
        assert(sum.drop_first() =~= rest) by {
            assert forall|i: int| 0 <= i < rest.len() implies sum.drop_first()[i] == rest[i] by {
                lemma_ripple_tail(x, y, c, i as nat);
            }
        }
        assert(hardware::levels(sum).drop_first() =~= hardware::levels(rest));
        assert forall|i: int| 0 <= i < sum.len() implies (#[trigger] sum[i]) is Driven by {
            if i > 0 {
                assert(sum[i] == rest[i - 1]);
            }
        }
        power2::lemma_pow2_unfold(a.len());
        let p = power2::pow2((a.len() - 1) as nat);
        let o = utils::bit_value(out->Driven_0);
        assert((2 * p) * o == 2 * (p * o)) by (nonlinear_arith);
        assert(sum[0] == sum_signal(x[0], y[0], c));
    } else {
        assert(out == c);
        assert(1 * utils::bit_value(carry) == utils::bit_value(carry));
    }
}

/// The zero flag of driven wires says whether their value is zero.
pub proof fn law_zero_signal(bits: Seq<Bit>)
    ensures
        zero_signal(hardware::driven(bits)) == Signal::Driven(
            hardware::bit_of(utils::bits_value(bits) == 0),
        ),
    decreases bits.len(),
{
    let row = hardware::driven(bits);
    if bits.len() > 0 {
        law_zero_signal(bits.drop_first());
        let rest = hardware::driven(bits.drop_first());
        assert(rest =~= row.drop_first());
        if bits[0] == Bit::High {
            assert(row[0] == Signal::Driven(Bit::High));
        } else if utils::bits_value(bits.drop_first()) == 0 {
            assert forall|i: int| 0 <= i < row.len() implies #[trigger] row[i] == Signal::Driven(
                Bit::Low,
            ) by {
                if i > 0 {
                    assert(rest[i - 1] == row[i]);
                }
            }
        } else {
            let i = choose|i: int|
                0 <= i < rest.len() && #[trigger] rest[i] == Signal::Driven(Bit::High);
            assert(row[i + 1] == Signal::Driven(Bit::High));
        }
    }
}

/// One-bit adder without carry input: sum = A XOR B, carry = A AND B.
#[derive(Debug, Clone, Copy)]
pub struct HalfAdder {
    xor: XorGate,
    and: AndGate,
}

impl Default for HalfAdder {
    fn default() -> (adder: HalfAdder)
        ensures
            adder.wf(),
    {
        HalfAdder {
            xor: XorGate::default(),
            and: AndGate::default(),
        }
    }
}

impl View for HalfAdder {
    type V = ();

    open spec fn view(&self) -> () {
        ()
    }
}

impl Component for HalfAdder {
    /// Outputs: 0 is the sum, 1 the carry.
    const INPUTS: usize = 2;

    const OUTPUTS: usize = 2;

    open spec fn fan_in() -> nat {
        2
    }

    open spec fn fan_out() -> nat {
        2
    }

    proof fn arity() {
    }

    open spec fn wf(&self) -> bool {
        true
    }

    open spec fn admits(state: (), inputs: Seq<Signal>, slots: nat) -> bool {
        slots == 2
    }

    open spec fn respond(state: (), inputs: Seq<Signal>, outputs: Seq<Signal>) -> Response<()> {
        hardware::steady(
            seq![
                gates::xor_signal(inputs[0], inputs[1]),
                gates::and_signal(inputs[0], inputs[1]),
            ],
        )
    }

    open spec fn transistors() -> nat {
        22
    }

    fn conduct_into(&mut self, inputs: &[Signal], outputs: &mut [Signal]) -> (r: Result<
        (),
        HardwareError,
    >) {
        if inputs.len() != 2 {
            return Err(
                HardwareError::InvalidInputCount { expected: 2, actual: inputs.len() },
            );
        }
        let mut single = [Signal::HighImpedance];
        self.xor.conduct_into(inputs, &mut single)?;
        outputs[0] = single[0];
        self.and.conduct_into(inputs, &mut single)?;
        outputs[1] = single[0];
        Ok(())
    }

    fn transistor_count(&self) -> (count: usize) {
        self.xor.transistor_count()
            + self.and.transistor_count()
    }
}

/// Full adder: two chained half adders, carry = carry1 OR carry2.
#[derive(Debug, Clone, Copy)]
pub struct FullAdder {
    half_adder1: HalfAdder,
    half_adder2: HalfAdder,
    or: OrGate,
}

impl Default for FullAdder {
    fn default() -> (adder: FullAdder)
        ensures
            adder.wf(),
    {
        FullAdder {
            half_adder1: HalfAdder::default(),
            half_adder2: HalfAdder::default(),
            or: OrGate::default(),
        }
    }
}

impl View for FullAdder {
    type V = ();

    open spec fn view(&self) -> () {
        ()
    }
}

impl Component for FullAdder {
    /// Inputs: a, b and the carry input. Outputs: 0 is the sum, 1 the carry.
    const INPUTS: usize = 3;

    const OUTPUTS: usize = 2;

    open spec fn fan_in() -> nat {
        3
    }

    open spec fn fan_out() -> nat {
        2
    }

    proof fn arity() {
    }

    open spec fn wf(&self) -> bool {
        true
    }

    open spec fn admits(state: (), inputs: Seq<Signal>, slots: nat) -> bool {
        slots == 2
    }

    open spec fn respond(state: (), inputs: Seq<Signal>, outputs: Seq<Signal>) -> Response<()> {
        hardware::steady(
            seq![
                sum_signal(inputs[0], inputs[1], inputs[2]),
                carry_signal(inputs[0], inputs[1], inputs[2]),
            ],
        )
    }

    open spec fn transistors() -> nat {
        50
    }

    fn conduct_into(&mut self, inputs: &[Signal], outputs: &mut [Signal]) -> (r: Result<
        (),
        HardwareError,
    >) {
        if inputs.len() != 3 {
            return Err(
                HardwareError::InvalidInputCount { expected: 3, actual: inputs.len() },
            );
        }
        let mut first = [Signal::HighImpedance; 2];
        self.half_adder1.conduct_into(&[inputs[0], inputs[1]], &mut first)?;

        let mut second = [Signal::HighImpedance; 2];
        self.half_adder2.conduct_into(&[first[0], inputs[2]], &mut second)?;

        let mut single = [Signal::HighImpedance];
        self.or.conduct_into(&[first[1], second[1]], &mut single)?;

        outputs[0] = second[0];
        outputs[1] = single[0];
        Ok(())
    }

    fn transistor_count(&self) -> (count: usize) {
        self.half_adder1.transistor_count()
            + self.half_adder2.transistor_count()
            + self.or.transistor_count()
    }
}

/// Eight-bit ripple-carry adder.
#[derive(Debug, Clone, Copy)]
pub struct Adder8Bits {
    full_adders: [FullAdder; 8],
}

impl Default for Adder8Bits {
    fn default() -> (adder: Adder8Bits)
        ensures
            adder.wf(),
    {
        Adder8Bits {
            full_adders: [FullAdder::default(); 8],
        }
    }
}

impl View for Adder8Bits {
    type V = ();

    open spec fn view(&self) -> () {
        ()
    }
}

impl Component for Adder8Bits {
    /// Inputs:
    ///
    /// - 0..8:   a, least significant bit first
    /// - 8..16:  b, least significant bit first
    /// - 16:     carry_in
    ///
    /// Outputs:
    ///
    /// - 0..8: sum, least significant bit first
    /// - 8:    carry_out
    ///
    /// Computes `a + b + carry_in`.
    const INPUTS: usize = 17;

    const OUTPUTS: usize = 9;

    open spec fn fan_in() -> nat {
        17
    }

    open spec fn fan_out() -> nat {
        9
    }

    proof fn arity() {
    }

    open spec fn wf(&self) -> bool {
        true
    }

    open spec fn admits(state: (), inputs: Seq<Signal>, slots: nat) -> bool {
        slots == 9
    }

    open spec fn respond(state: (), inputs: Seq<Signal>, outputs: Seq<Signal>) -> Response<()> {
        {
            let a = inputs.subrange(0, 8);
            let b = inputs.subrange(8, 16);
            hardware::steady(ripple_sum(a, b, inputs[16]).push(ripple_carry(a, b, inputs[16], 8)))
        }
    }

    open spec fn transistors() -> nat {
        400
    }

    fn conduct_into(&mut self, inputs: &[Signal], outputs: &mut [Signal]) -> (r: Result<
        (),
        HardwareError,
    >) {
        if inputs.len() != 17 {
            return Err(
                HardwareError::InvalidInputCount { expected: 17, actual: inputs.len() },
            );
        }
        let ghost a = inputs@.subrange(0, 8);
        let ghost b = inputs@.subrange(8, 16);
        let mut carry = inputs[16];
        for index in 0..8
            invariant
                inputs@.len() == 17,
                outputs@.len() == 9,
                a == inputs@.subrange(0, 8),
                b == inputs@.subrange(8, 16),
                carry == ripple_carry(a, b, inputs@[16], index as nat),
                forall|k: int|
                    0 <= k < index ==> #[trigger] outputs@[k] == ripple_sum(a, b, inputs@[16])[k],
        {
            let mut both = [Signal::HighImpedance; 2];
            self.full_adders[index].conduct_into(
                &[inputs[index], inputs[8 + index], carry],
                &mut both,
            )?;
            assert(a[index as int] == inputs@[index as int]);
            assert(b[index as int] == inputs@[8 + index as int]);
            outputs[index] = both[0];
            carry = both[1];
        }
        outputs[8] = carry;
        assert(outputs@ =~= ripple_sum(a, b, inputs@[16]).push(carry));
        Ok(())
    }

    fn transistor_count(&self) -> (count: usize) {
        let mut count: usize = 0;
        for index in 0..8
            invariant
                count == 50 * index,
        {
            count += self.full_adders[index].transistor_count();
        }
        count
    }
}

/// Detects the all-zero byte: an OR tree over the pairs of bits, inverted
/// once.
#[derive(Debug, Clone, Copy)]
pub struct ZeroDetector8Bits {
    or_gates: [OrGate; 7],
    not: NotGate,
}

impl Default for ZeroDetector8Bits {
    fn default() -> (detector: ZeroDetector8Bits)
        ensures
            detector.wf(),
    {
        ZeroDetector8Bits {
            or_gates: [OrGate::default(); 7],
            not: NotGate::default(),
        }
    }
}

impl View for ZeroDetector8Bits {
    type V = ();

    open spec fn view(&self) -> () {
        ()
    }
}

impl Component for ZeroDetector8Bits {
    /// The output is High when every input is Low.
    const INPUTS: usize = 8;

    const OUTPUTS: usize = 1;

    open spec fn fan_in() -> nat {
        8
    }

    open spec fn fan_out() -> nat {
        1
    }

    proof fn arity() {
    }

    open spec fn wf(&self) -> bool {
        true
    }

    open spec fn admits(state: (), inputs: Seq<Signal>, slots: nat) -> bool {
        slots == 1
    }

    open spec fn respond(state: (), inputs: Seq<Signal>, outputs: Seq<Signal>) -> Response<()> {
        hardware::steady(seq![zero_signal(inputs)])
    }

    open spec fn transistors() -> nat {
        44
    }

    fn conduct_into(&mut self, inputs: &[Signal], outputs: &mut [Signal]) -> (r: Result<
        (),
        HardwareError,
    >) {
        if inputs.len() != 8 {
            return Err(
                HardwareError::InvalidInputCount { expected: 8, actual: inputs.len() },
            );
        }
        let mut single = [Signal::HighImpedance];

        self.or_gates[0].conduct_into(&[inputs[0], inputs[1]], &mut single)?;
        let pair_01 = single[0];
        self.or_gates[1].conduct_into(&[inputs[2], inputs[3]], &mut single)?;
        let pair_23 = single[0];
        self.or_gates[2].conduct_into(&[inputs[4], inputs[5]], &mut single)?;
        let pair_45 = single[0];
        self.or_gates[3].conduct_into(&[inputs[6], inputs[7]], &mut single)?;
        let pair_67 = single[0];

        self.or_gates[4].conduct_into(&[pair_01, pair_23], &mut single)?;
        let half_0123 = single[0];
        self.or_gates[5].conduct_into(&[pair_45, pair_67], &mut single)?;
        let half_4567 = single[0];

        self.or_gates[6].conduct_into(&[half_0123, half_4567], &mut single)?;
        let any = single[0];
        assert(gates::not_signal(any) == zero_signal(inputs@));

        self.not.conduct_into(&[any], outputs)
    }

    fn transistor_count(&self) -> (count: usize) {
        let mut count: usize = 0;
        for index in 0..7
            invariant
                count == 6 * index,
        {
            count += self.or_gates[index].transistor_count();
        }
        count + self.not.transistor_count()
    }
}

/// Sign flag detector: buffers bit 7 of an 8-bit two's-complement value
/// through a single NMOS whose gate is tied HIGH, so the output always
/// mirrors the sign bit.
#[derive(Debug, Clone, Copy)]
pub struct SignDetector8Bits {
    buffer: Nmos,
}

impl Default for SignDetector8Bits {
    fn default() -> (detector: SignDetector8Bits)
        ensures
            detector.wf(),
    {
        SignDetector8Bits {
            buffer: Nmos::default(),
        }
    }
}

impl View for SignDetector8Bits {
    type V = ();

    open spec fn view(&self) -> () {
        ()
    }
}

impl Component for SignDetector8Bits {
    /// Inputs:
    ///
    /// - 0..8: the value, least significant bit first
    ///
    /// Outputs:
    ///
    /// - 0: the sign bit.
    const INPUTS: usize = 8;

    const OUTPUTS: usize = 1;

    open spec fn fan_in() -> nat {
        8
    }

    open spec fn fan_out() -> nat {
        1
    }

    proof fn arity() {
    }

    open spec fn wf(&self) -> bool {
        true
    }

    open spec fn admits(state: (), inputs: Seq<Signal>, slots: nat) -> bool {
        slots == 1
    }

    open spec fn respond(state: (), inputs: Seq<Signal>, outputs: Seq<Signal>) -> Response<()> {
        hardware::steady(seq![inputs[7]])
    }

    open spec fn transistors() -> nat {
        1
    }

    fn conduct_into(&mut self, inputs: &[Signal], outputs: &mut [Signal]) -> (r: Result<
        (),
        HardwareError,
    >) {
        if inputs.len() != 8 {
            return Err(
                HardwareError::InvalidInputCount { expected: 8, actual: inputs.len() },
            );
        }
        self.buffer.conduct_into(&[Signal::Driven(Bit::High), inputs[7]], outputs)
    }

    fn transistor_count(&self) -> (count: usize) {
        self.buffer.transistor_count()
    }
}

/// An 8-bit adder fed with a byte adds modulo 256, and its carry tells
/// whether the sum left the byte.
pub proof fn lemma_byte_sum(a: u8, b: Seq<Bit>, carry: Bit)
    requires
        b.len() == 8,
    ensures
        ({
            let x = hardware::driven(utils::byte_bits(a));
            let y = hardware::driven(b);
            let c = Signal::Driven(carry);
            let total = a + utils::bits_value(b) + utils::bit_value(carry);
            &&& ripple_sum(x, y, c) == hardware::driven(utils::byte_bits(utils::wrapped(total)))
            &&& ripple_carry(x, y, c, 8) == Signal::Driven(hardware::bit_of(total >= 256))
        }),
{
    let x = hardware::driven(utils::byte_bits(a));
    let y = hardware::driven(b);
    let c = Signal::Driven(carry);
    utils::law_byte_unpacked(a);
    law_ripple_adds(utils::byte_bits(a), b, carry);
    let sum = ripple_sum(x, y, c);
    let bits = hardware::levels(sum);
    power2::lemma2_to64();
    utils::lemma_bits_value_bound(bits);
    utils::lemma_bits_value_bound(b);
    utils::law_byte_packed(bits);
    assert(hardware::driven(bits) =~= sum) by {
        assert forall|i: int| 0 <= i < 8 implies hardware::driven(bits)[i] == sum[i] by {
            assert(sum[i] is Driven);
        }
    }
}

/// A row of Low wires adds nothing, a row of High ones takes one away.
pub proof fn lemma_uniform_value(count: nat)
    ensures
        utils::bits_value(Seq::new(count, |i: int| Bit::Low)) == 0,
        utils::bits_value(Seq::new(count, |i: int| Bit::High)) == power2::pow2(count) - 1,
    decreases count,
{
    let low = Seq::new(count, |i: int| Bit::Low);
    let high = Seq::new(count, |i: int| Bit::High);
    if count == 0 {
        power2::lemma2_to64();
    } else {
        lemma_uniform_value((count - 1) as nat);
        assert(low.drop_first() =~= Seq::new((count - 1) as nat, |i: int| Bit::Low));
        assert(high.drop_first() =~= Seq::new((count - 1) as nat, |i: int| Bit::High));
        power2::lemma_pow2_unfold(count);
    }
}

/// A 16-bit adder with one operand tied to a direction line and its
/// complement as carry input counts: a Low line adds one, a High line
/// takes one away.
pub proof fn law_ripple_counts(word: u16, down: bool)
    ensures
        ripple_sum(
            hardware::driven(utils::word_bits(word)),
            Seq::new(16, |i: int| Signal::Driven(hardware::bit_of(down))),
            Signal::Driven(hardware::bit_of(!down)),
        ) == hardware::driven(
            utils::word_bits(
                utils::wrapped_word(
                    if down {
                        word - 1
                    } else {
                        word + 1
                    },
                ),
            ),
        ),
{
    let step = Seq::new(16, |i: int| hardware::bit_of(down));
    let carry = hardware::bit_of(!down);
    let x = hardware::driven(utils::word_bits(word));
    let sum = ripple_sum(x, hardware::driven(step), Signal::Driven(carry));
    let bits = hardware::levels(sum);
    assert(hardware::driven(step) =~= Seq::new(
        16,
        |i: int| Signal::Driven(hardware::bit_of(down)),
    ));
    assert(utils::bits_value(step) == if down {
        65535int
    } else {
        0
    }) by {
        lemma_uniform_value(16);
        power2::lemma2_to64();
        assert(step =~= if down {
            Seq::new(16, |i: int| Bit::High)
        } else {
            Seq::new(16, |i: int| Bit::Low)
        });
    }
    utils::law_word_unpacked(word);
    law_ripple_adds(utils::word_bits(word), step, carry);
    power2::lemma2_to64();
    utils::lemma_bits_value_bound(bits);
    utils::law_word_packed(bits);
    assert(hardware::driven(bits) =~= sum) by {
        assert forall|i: int| 0 <= i < 16 implies hardware::driven(bits)[i] == sum[i] by {
            assert(sum[i] is Driven);
        }
    }
}

/// A row of wires XORed with one shared line: inverted when it is High.
pub open spec fn xor_row(row: Seq<Signal>, line: Signal) -> Seq<Signal> {
    Seq::new(row.len(), |i: int| gates::xor_signal(row[i], line))
}

/// What the SAP-1 ALU answers: nothing with a Low `load`, otherwise the
/// gated sum of `a` and the possibly inverted `b`, and the two flags.
pub open spec fn sap1_response(
    a: Seq<Signal>,
    b: Seq<Signal>,
    subtract: Signal,
    load: Signal,
) -> Response<()> {
    if load == Signal::Driven(Bit::Low) {
        hardware::steady(hardware::floating(10))
    } else {
        let operand = xor_row(b, subtract);
        let sum = ripple_sum(a, operand, subtract);
        hardware::steady(
            hardware::gated_row(load, sum) + seq![
                ripple_carry(a, operand, subtract, 8),
                zero_signal(sum),
            ],
        )
    }
}

/// The SAP-1 ALU computes on bytes: with `load` High it answers the sum
/// or the two's complement difference modulo 256, a carry that says that
/// the sum left the byte or that A >= B, and the zero flag.
pub proof fn law_sap1_computes(a: u8, b: u8, subtract: bool)
    ensures
        ({
            let total = if subtract {
                a - b
            } else {
                a + b
            };
            let result = utils::wrapped(total);
            let carry = if subtract {
                a >= b
            } else {
                a + b > 255
            };
            let response = sap1_response(
                hardware::driven(utils::byte_bits(a)),
                hardware::driven(utils::byte_bits(b)),
                Signal::Driven(hardware::bit_of(subtract)),
                Signal::Driven(Bit::High),
            );
            &&& response.result is Ok
            &&& response.outputs == hardware::driven(utils::byte_bits(result)) + seq![
                Signal::Driven(hardware::bit_of(carry)),
                Signal::Driven(hardware::bit_of(result == 0)),
            ]
        }),
{
    let operation = if subtract {
        AluOperation::Sub
    } else {
        AluOperation::Add
    };
    let y = hardware::driven(utils::byte_bits(b));
    let line = hardware::bit_of(subtract);
    let result = sap2_byte(operation, a, b);
    lemma_operand_bits(operation, b);
    lemma_operand_total(operation, a, b);
    assert(xor_row(y, Signal::Driven(line)) =~= sap2_operand(operation, y));
    lemma_byte_sum(a, operand_bits(operation, b), line);
    let sum = hardware::driven(utils::byte_bits(result));
    assert(zero_signal(sum) == Signal::Driven(hardware::bit_of(result == 0))) by {
        utils::law_byte_unpacked(result);
        law_zero_signal(utils::byte_bits(result));
    }
    assert(hardware::gated_row(Signal::Driven(Bit::High), sum) =~= sum);
}

/// The input lines of an operation on driven operands.
pub(crate) fn operation_lines(a: &[Bit; 8], b: &[Bit; 8], op: &[Bit; 3], enable: Bit) -> (lines:
    [Signal; 20])
    ensures
        lines@.subrange(0, 8) == hardware::driven(a@),
        lines@.subrange(8, 16) == hardware::driven(b@),
        lines@[16] == Signal::Driven(op@[0]),
        lines@[17] == Signal::Driven(op@[1]),
        lines@[18] == Signal::Driven(op@[2]),
        lines@[19] == Signal::Driven(enable),
{
    let mut lines = [Signal::HighImpedance; 20];
    for index in 0..8
        invariant
            forall|k: int| 0 <= k < index ==> #[trigger] lines@[k] == Signal::Driven(a@[k]),
    {
        lines[index] = Signal::Driven(a[index]);
    }
    for index in 0..8
        invariant
            forall|k: int| 0 <= k < 8 ==> #[trigger] lines@[k] == Signal::Driven(a@[k]),
            forall|k: int|
                8 <= k < 8 + index ==> #[trigger] lines@[k] == Signal::Driven(b@[k - 8]),
    {
        lines[8 + index] = Signal::Driven(b[index]);
    }
    lines[16] = Signal::Driven(op[0]);
    lines[17] = Signal::Driven(op[1]);
    lines[18] = Signal::Driven(op[2]);
    lines[19] = Signal::Driven(enable);
    assert(lines@.subrange(0, 8) =~= hardware::driven(a@));
    assert(lines@.subrange(8, 16) =~= hardware::driven(b@));
    lines
}

/// The byte on eight output lines; a floating line reads as Low.
pub(crate) fn read_result(
    outputs: &Vec<Signal>,
    enable: Bit,
    Ghost(result): Ghost<u8>,
) -> (byte: u8)
    requires
        outputs@.len() >= 8,
        outputs@.take(8) == hardware::gated_row(
            Signal::Driven(enable),
            hardware::driven(utils::byte_bits(result)),
        ),
    ensures
        byte == if enable == Bit::High {
            result
        } else {
            0
        },
{
    let mut bits = [Bit::Low; 8];
    for index in 0..8
        invariant
            outputs@.len() >= 8,
            outputs@.take(8) == hardware::gated_row(
                Signal::Driven(enable),
                hardware::driven(utils::byte_bits(result)),
            ),
            forall|k: int|
                0 <= k < index ==> #[trigger] bits@[k] == if enable == Bit::High {
                    utils::byte_bits(result)[k]
                } else {
                    Bit::Low
                },
    {
        proof {
            utils::law_byte_unpacked(result);
            assert(outputs@[index as int] == outputs@.take(8)[index as int]);
        }
        bits[index] = match outputs[index] {
            Signal::Driven(bit) => bit,
            Signal::HighImpedance => Bit::Low,
        };
    }
    proof {
        utils::law_byte_unpacked(result);
        if enable == Bit::High {
            assert(bits@ =~= utils::byte_bits(result));
        } else {
            utils::lemma_constant_bytes();
            assert(bits@ =~= utils::byte_bits(0));
            utils::law_byte_unpacked(0);
        }
    }
    bits_to_int(&bits, false)
}

/// The input lines of an adder: the first eight of `a`, then `b`, then
/// the carry.
pub(crate) fn operand_lines(a: &[Signal], b: &[Signal; 8], carry: Signal) -> (lines: [Signal; 17])
    requires
        a@.len() >= 8,
    ensures
        lines@.subrange(0, 8) == a@.take(8),
        lines@.subrange(8, 16) == b@,
        lines@[16] == carry,
{
    let lines = [
        a[0],
        a[1],
        a[2],
        a[3],
        a[4],
        a[5],
        a[6],
        a[7],
        b[0],
        b[1],
        b[2],
        b[3],
        b[4],
        b[5],
        b[6],
        b[7],
        carry,
    ];
    assert(lines@.subrange(0, 8) =~= a@.take(8));
    assert(lines@.subrange(8, 16) =~= b@);
    lines
}

/// The sum lines of an adder, without its carry.
pub(crate) fn first_eight(lines: &[Signal; 9]) -> (first: [Signal; 8])
    ensures
        first@ == lines@.take(8),
{
    let mut first = [Signal::HighImpedance; 8];
    for index in 0..8
        invariant
            forall|k: int| 0 <= k < index ==> #[trigger] first@[k] == lines@[k],
    {
        first[index] = lines[index];
    }
    assert(first@ =~= lines@.take(8));
    first
}

/// The SAP-1 arithmetic and logic unit.
///
/// When `subtract` is HIGH the B operand is inverted and the carry input
/// is HIGH, which computes the two's complement difference
/// `A + NOT(B) + 1`; otherwise the sum `A + B` is computed. The output bus
/// drives only when `load` is HIGH.
#[derive(Debug, Clone, Copy)]
pub struct AluSap1 {
    adder: Adder8Bits,
    b_xors: [XorGate; 8],
    zero_detector: ZeroDetector8Bits,
    output_nmos: [Nmos; 8],
}

impl Default for AluSap1 {
    fn default() -> (alu: AluSap1)
        ensures
            alu.wf(),
    {
        AluSap1 {
            adder: Adder8Bits::default(),
            b_xors: [XorGate::default(); 8],
            zero_detector: ZeroDetector8Bits::default(),
            output_nmos: [Nmos::default(); 8],
        }
    }
}

impl View for AluSap1 {
    type V = ();

    open spec fn view(&self) -> () {
        ()
    }
}

impl Component for AluSap1 {
    /// Inputs:
    ///
    /// - 0..8   : A, least significant bit first
    /// - 8..16  : B, least significant bit first
    /// - 16     : subtract
    /// - 17     : load
    ///
    /// Outputs:
    ///
    /// - 0..8   : result, least significant bit first
    /// - 8      : carry flag; after a subtraction, High when A >= B
    /// - 9      : zero flag
    ///
    /// The result is gated by `load`. With [`FAST`], a Low `load` skips the
    /// whole computation: the result bits and the flags all float, since a
    /// caller reading the flags with `load` Low would capture a floating line
    /// anyway.
    const INPUTS: usize = 18;

    const OUTPUTS: usize = 10;

    open spec fn fan_in() -> nat {
        18
    }

    open spec fn fan_out() -> nat {
        10
    }

    proof fn arity() {
    }

    open spec fn wf(&self) -> bool {
        true
    }

    open spec fn admits(state: (), inputs: Seq<Signal>, slots: nat) -> bool {
        slots == 10
    }

    open spec fn respond(state: (), inputs: Seq<Signal>, outputs: Seq<Signal>) -> Response<()> {
        sap1_response(
            inputs.subrange(0, 8),
            inputs.subrange(8, 16),
            inputs[16],
            inputs[17],
        )
    }

    open spec fn transistors() -> nat {
        580
    }

    fn conduct_into(&mut self, inputs: &[Signal], outputs: &mut [Signal]) -> (r: Result<
        (),
        HardwareError,
    >) {
        if inputs.len() != 18 {
            return Err(
                HardwareError::InvalidInputCount { expected: 18, actual: inputs.len() },
            );
        }
        let subtract = inputs[16];
        let load = inputs[17];

        // A disabled output buffer drives nothing: skip the XOR row, the
        // adder and the zero detector.
        if FAST && load == Signal::Driven(Bit::Low) {
            for index in 0..10
                invariant
                    outputs@.len() == 10,
                    forall|k: int| 0 <= k < index ==> #[trigger] outputs@[k] is HighImpedance,
            {
                outputs[index] = Signal::HighImpedance;
            }
            assert(outputs@ =~= hardware::floating(10));
            return Ok(());
        }
        let ghost a = inputs@.subrange(0, 8);
        let ghost b = xor_row(inputs@.subrange(8, 16), subtract);
        let ghost sum = ripple_sum(a, b, subtract);

        // A + (B XOR subtract) + subtract
        let mut modified_b = [Signal::HighImpedance; 8];
        for index in 0..8
            invariant
                inputs@.len() == 18,
                forall|k: int|
                    0 <= k < index ==> #[trigger] modified_b@[k] == gates::xor_signal(
                        inputs@[8 + k],
                        subtract,
                    ),
        {
            let mut single = [Signal::HighImpedance];
            self.b_xors[index].conduct_into(&[inputs[8 + index], subtract], &mut single)?;
            modified_b[index] = single[0];
        }
        assert(modified_b@ =~= b);
        let adder_inputs = operand_lines(inputs, &modified_b, subtract);
        assert(adder_inputs@.subrange(0, 8) =~= a);

        let mut adder_output = [Signal::HighImpedance; 9];
        self.adder.conduct_into(&adder_inputs, &mut adder_output)?;

        // The zero flag comes from the arithmetic result, whether or not
        // the result drives the bus.
        let result = first_eight(&adder_output);
        assert(result@ =~= sum);
        let mut zero_flag = [Signal::HighImpedance];
        self.zero_detector.conduct_into(&result, &mut zero_flag)?;

        // Tri-state output buffer.
        for index in 0..8
            invariant
                outputs@.len() == 10,
                result@ == sum,
                sum.len() == 8,
                forall|k: int|
                    0 <= k < index ==> #[trigger] outputs@[k] == hardware::gated(load, sum[k]),
        {
            let mut single = [Signal::HighImpedance];
            self.output_nmos[index].conduct_into(&[load, result[index]], &mut single)?;
            outputs[index] = single[0];
        }
        outputs[8] = adder_output[8];
        outputs[9] = zero_flag[0];
        assert(outputs@ =~= hardware::gated_row(load, sum) + seq![
            ripple_carry(a, b, subtract, 8),
            zero_signal(sum),
        ]);
        Ok(())
    }

    fn transistor_count(&self) -> (count: usize) {
        let mut xors: usize = 0;
        for index in 0..8
            invariant
                xors == 16 * index,
        {
            xors += self.b_xors[index].transistor_count();
        }
        let mut buffers: usize = 0;
        for index in 0..8
            invariant
                buffers == index,
        {
            buffers += self.output_nmos[index].transistor_count();
        }
        self.adder.transistor_count() + xors + self.zero_detector.transistor_count() + buffers
    }
}

/// Operation codes accepted by [`AluSap2`], encoded on the three
/// `op` lines (`op2 op1 op0`, most significant bit first).
#[derive(Debug, Clone, Copy, PartialEq, Eq, Structural)]
pub enum AluOperation {
    /// `000`: `A + B`
    Add,
    /// `001`: `A - B` (two's complement: `A + NOT(B) + 1`)
    Sub,
    /// `010`: `A AND B`
    And,
    /// `011`: `A OR B`
    Or,
    /// `100`: `A XOR B`
    Xor,
    /// `101`: `NOT A`
    Not,
    /// `110`: `A + 1`
    Inc,
    /// `111`: `A - 1`
    Dec,
}

impl AluOperation {
    /// The operation code as a number.
    pub open spec fn code(self) -> nat {
        match self {
            AluOperation::Add => 0,
            AluOperation::Sub => 1,
            AluOperation::And => 2,
            AluOperation::Or => 3,
            AluOperation::Xor => 4,
            AluOperation::Not => 5,
            AluOperation::Inc => 6,
            AluOperation::Dec => 7,
        }
    }

    /// Whether the operation works bit by bit, without the adder.
    pub open spec fn is_logic(self) -> bool {
        self is And || self is Or || self is Xor || self is Not
    }

    /// The 3-bit encoding, most significant bit first.
    #[must_use]
    pub fn to_bits(self) -> (bits: [Bit; 3])
        ensures
            utils::bits_value(bits@.reverse()) == self.code(),
            selected(bits@[0], bits@[1], bits@[2]) == self,
    {
        let bits = match self {
            AluOperation::Add => [Bit::Low, Bit::Low, Bit::Low],
            AluOperation::Sub => [Bit::Low, Bit::Low, Bit::High],
            AluOperation::And => [Bit::Low, Bit::High, Bit::Low],
            AluOperation::Or => [Bit::Low, Bit::High, Bit::High],
            AluOperation::Xor => [Bit::High, Bit::Low, Bit::Low],
            AluOperation::Not => [Bit::High, Bit::Low, Bit::High],
            AluOperation::Inc => [Bit::High, Bit::High, Bit::Low],
            AluOperation::Dec => [Bit::High, Bit::High, Bit::High],
        };
        proof {
            reveal_with_fuel(utils::bits_value, 4);
        }
        bits
    }
}

/// The operation that driven op lines select.
pub open spec fn selected(op2: Bit, op1: Bit, op0: Bit) -> AluOperation {
    match (op2, op1, op0) {
        (Bit::Low, Bit::Low, Bit::Low) => AluOperation::Add,
        (Bit::Low, Bit::Low, Bit::High) => AluOperation::Sub,
        (Bit::Low, Bit::High, Bit::Low) => AluOperation::And,
        (Bit::Low, Bit::High, Bit::High) => AluOperation::Or,
        (Bit::High, Bit::Low, Bit::Low) => AluOperation::Xor,
        (Bit::High, Bit::Low, Bit::High) => AluOperation::Not,
        (Bit::High, Bit::High, Bit::Low) => AluOperation::Inc,
        (Bit::High, Bit::High, Bit::High) => AluOperation::Dec,
    }
}

/// What the adder adds to A: B, its complement for SUB, `00000001` for
/// INC and `11111111` for DEC.
pub open spec fn sap2_operand(operation: AluOperation, b: Seq<Signal>) -> Seq<Signal> {
    match operation {
        AluOperation::Sub => Seq::new(b.len(), |i: int| gates::not_signal(b[i])),
        AluOperation::Inc => Seq::new(b.len(), |i: int| Signal::Driven(hardware::bit_of(i == 0))),
        AluOperation::Dec => Seq::new(b.len(), |i: int| Signal::Driven(Bit::High)),
        _ => b,
    }
}

/// The result of an operation, one wire per bit.
pub open spec fn sap2_result(
    operation: AluOperation,
    a: Seq<Signal>,
    b: Seq<Signal>,
) -> Seq<Signal> {
    match operation {
        AluOperation::And => Seq::new(a.len(), |i: int| gates::and_signal(a[i], b[i])),
        AluOperation::Or => Seq::new(a.len(), |i: int| gates::or_signal(a[i], b[i])),
        AluOperation::Xor => Seq::new(a.len(), |i: int| gates::xor_signal(a[i], b[i])),
        AluOperation::Not => Seq::new(a.len(), |i: int| gates::not_signal(a[i])),
        _ => ripple_sum(
            a,
            sap2_operand(operation, b),
            Signal::Driven(hardware::bit_of(operation is Sub)),
        ),
    }
}

/// The carry flag of an operation: the carry of the adder, or Low for a
/// bitwise operation.
pub open spec fn sap2_carry(operation: AluOperation, a: Seq<Signal>, b: Seq<Signal>) -> Signal {
    if operation.is_logic() {
        Signal::Driven(Bit::Low)
    } else {
        ripple_carry(
            a,
            sap2_operand(operation, b),
            Signal::Driven(hardware::bit_of(operation is Sub)),
            a.len(),
        )
    }
}

/// What the SAP-2 ALU answers: the gated result and the two flags of the
/// selected operation, or nothing while an op line floats.
pub open spec fn sap2_response(
    a: Seq<Signal>,
    b: Seq<Signal>,
    op2: Signal,
    op1: Signal,
    op0: Signal,
    load: Signal,
) -> Response<()> {
    match (op2, op1, op0) {
        (Signal::Driven(x), Signal::Driven(y), Signal::Driven(z)) => {
            let operation = selected(x, y, z);
            let result = sap2_result(operation, a, b);
            hardware::steady(
                hardware::gated_row(load, result) + seq![
                    sap2_carry(operation, a, b),
                    zero_signal(result),
                ],
            )
        },
        _ => hardware::steady(hardware::floating(10)),
    }
}

/// The operation on bytes.
pub open spec fn sap2_byte(operation: AluOperation, a: u8, b: u8) -> u8 {
    match operation {
        AluOperation::Add => utils::wrapped(a + b),
        AluOperation::Sub => utils::wrapped(a - b),
        AluOperation::And => a & b,
        AluOperation::Or => a | b,
        AluOperation::Xor => a ^ b,
        AluOperation::Not => !a,
        AluOperation::Inc => utils::wrapped(a + 1),
        AluOperation::Dec => utils::wrapped(a - 1),
    }
}

/// The carry flag of the operation on bytes: an addition that leaves the
/// byte, a subtraction that does not borrow.
pub open spec fn sap2_byte_carry(operation: AluOperation, a: u8, b: u8) -> bool {
    match operation {
        AluOperation::Add => a + b > 255,
        AluOperation::Sub => a >= b,
        AluOperation::Inc => a == 255,
        AluOperation::Dec => a >= 1,
        _ => false,
    }
}

/// The enable lines of the operation decoder: the line of the selected
/// operation is High and every other is Low; while an op line floats, no
/// line is High.
spec fn decoded_operation(enables: Seq<Signal>, op2: Signal, op1: Signal, op0: Signal) -> bool {
    match (op2, op1, op0) {
        (Signal::Driven(x), Signal::Driven(y), Signal::Driven(z)) => enables == hardware::driven(
            decoder::one_hot(8, selected(x, y, z).code()),
        ),
        _ => enables.len() == 8 && forall|k: int|
            0 <= k < 8 ==> #[trigger] enables[k] != Signal::Driven(Bit::High),
    }
}

/// The B input of the adder behind its three forcing levels.
spec fn forced_operand(b: Seq<Signal>, sub: Signal, inc: Signal, dec: Signal) -> Seq<Signal> {
    Seq::new(
        b.len(),
        |i: int|
            mux::mux_signal(
                mux::mux_signal(
                    gates::xor_signal(b[i], sub),
                    Signal::Driven(hardware::bit_of(i == 0)),
                    inc,
                ),
                Signal::Driven(Bit::High),
                dec,
            ),
    )
}

/// The result that an enabled function puts on the internal bus.
spec fn candidate_row(
    function: int,
    a: Seq<Signal>,
    b: Seq<Signal>,
    sum: Seq<Signal>,
) -> Seq<Signal> {
    if function == 2 {
        Seq::new(8, |i: int| gates::and_signal(a[i], b[i]))
    } else if function == 3 {
        Seq::new(8, |i: int| gates::or_signal(a[i], b[i]))
    } else if function == 4 {
        Seq::new(8, |i: int| gates::xor_signal(a[i], b[i]))
    } else if function == 5 {
        Seq::new(8, |i: int| gates::not_signal(a[i]))
    } else {
        sum
    }
}

/// A decoded operation forces exactly the operand that it needs.
proof fn lemma_forced_operand(operation: AluOperation, b: Seq<Signal>)
    ensures
        ({
            let enables = hardware::driven(decoder::one_hot(8, operation.code()));
            forced_operand(b, enables[1], enables[6], enables[7]) == sap2_operand(operation, b)
        }),
{
    let enables = hardware::driven(decoder::one_hot(8, operation.code()));
    assert(forced_operand(b, enables[1], enables[6], enables[7]) =~= sap2_operand(operation, b));
}

/// The second operand of an arithmetic operation as levels.
spec fn operand_bits(operation: AluOperation, b: u8) -> Seq<Bit> {
    match operation {
        AluOperation::Sub => utils::complement(utils::byte_bits(b)),
        AluOperation::Inc => utils::byte_bits(1),
        AluOperation::Dec => utils::byte_bits(255),
        _ => utils::byte_bits(b),
    }
}

/// The second operand of an arithmetic operation as a number.
spec fn operand_value(operation: AluOperation, b: u8) -> int {
    match operation {
        AluOperation::Sub => 255 - b,
        AluOperation::Inc => 1,
        AluOperation::Dec => 255,
        _ => b as int,
    }
}

/// The second operand of an arithmetic operation is eight driven lines with
/// its value.
proof fn lemma_operand_bits(operation: AluOperation, b: u8)
    ensures
        operand_bits(operation, b).len() == 8,
        utils::bits_value(operand_bits(operation, b)) == operand_value(operation, b),
        sap2_operand(operation, hardware::driven(utils::byte_bits(b))) == hardware::driven(
            operand_bits(operation, b),
        ),
{
    let y = hardware::driven(utils::byte_bits(b));
    utils::law_byte_unpacked(b);
    assert(operand_bits(operation, b).len() == 8 && utils::bits_value(operand_bits(operation, b))
        == operand_value(operation, b)) by {
        utils::law_byte_unpacked(1);
        utils::law_byte_unpacked(255);
        utils::lemma_complement_value(utils::byte_bits(b));
        power2::lemma2_to64();
    }
    assert(sap2_operand(operation, y) =~= hardware::driven(operand_bits(operation, b))) by {
        utils::lemma_constant_bytes();
    }
}

/// The total of an arithmetic operation, its byte and its carry.
proof fn lemma_operand_total(operation: AluOperation, a: u8, b: u8)
    requires
        !operation.is_logic(),
    ensures
        ({
            let carry = utils::bit_value(hardware::bit_of(operation is Sub));
            let total = a + operand_value(operation, b) + carry;
            &&& utils::wrapped(total) == sap2_byte(operation, a, b)
            &&& (total >= 256) == sap2_byte_carry(operation, a, b)
        }),
{
    match operation {
        AluOperation::Sub => {
            assert((a - b + 256) % 256 == (a - b) % 256);
        },
        AluOperation::Dec => {
            assert((a + 255) % 256 == (a - 1) % 256);
        },
        _ => {},
    }
}

/// The arithmetic operations on bytes.
proof fn lemma_sap2_arithmetic(operation: AluOperation, a: u8, b: u8)
    requires
        !operation.is_logic(),
    ensures
        ({
            let x = hardware::driven(utils::byte_bits(a));
            let y = hardware::driven(utils::byte_bits(b));
            &&& sap2_result(operation, x, y) == hardware::driven(
                utils::byte_bits(sap2_byte(operation, a, b)),
            )
            &&& sap2_carry(operation, x, y) == Signal::Driven(
                hardware::bit_of(sap2_byte_carry(operation, a, b)),
            )
        }),
{
    assert(utils::byte_bits(a).len() == 8) by {
        utils::law_byte_unpacked(a);
    }
    lemma_operand_bits(operation, b);
    lemma_byte_sum(a, operand_bits(operation, b), hardware::bit_of(operation is Sub));
    lemma_operand_total(operation, a, b);
}

/// The bitwise operations on bytes.
proof fn lemma_sap2_logic(operation: AluOperation, a: u8, b: u8)
    requires
        operation.is_logic(),
    ensures
        ({
            let x = hardware::driven(utils::byte_bits(a));
            let y = hardware::driven(utils::byte_bits(b));
            sap2_result(operation, x, y) == hardware::driven(
                utils::byte_bits(sap2_byte(operation, a, b)),
            )
        }),
{
    let x = hardware::driven(utils::byte_bits(a));
    let y = hardware::driven(utils::byte_bits(b));
    utils::law_byte_unpacked(a);
    utils::law_byte_unpacked(b);
    utils::lemma_bitwise(a, b);
    assert(sap2_result(operation, x, y) =~= hardware::driven(
        utils::byte_bits(sap2_byte(operation, a, b)),
    ));
}

/// The SAP-2 ALU computes on bytes: with driven operands the result, the
/// carry and the zero flag are those of the operation.
pub proof fn law_sap2_computes(operation: AluOperation, a: u8, b: u8)
    ensures
        ({
            let x = hardware::driven(utils::byte_bits(a));
            let y = hardware::driven(utils::byte_bits(b));
            let result = sap2_byte(operation, a, b);
            &&& sap2_result(operation, x, y) == hardware::driven(utils::byte_bits(result))
            &&& sap2_carry(operation, x, y) == Signal::Driven(
                hardware::bit_of(sap2_byte_carry(operation, a, b)),
            )
            &&& zero_signal(sap2_result(operation, x, y)) == Signal::Driven(
                hardware::bit_of(result == 0),
            )
        }),
{
    let result = sap2_byte(operation, a, b);
    if operation.is_logic() {
        lemma_sap2_logic(operation, a, b);
    } else {
        lemma_sap2_arithmetic(operation, a, b);
    }
    assert(zero_signal(hardware::driven(utils::byte_bits(result))) == Signal::Driven(
        hardware::bit_of(result == 0),
    )) by {
        utils::law_byte_unpacked(result);
        law_zero_signal(utils::byte_bits(result));
    }
}

/// The SAP-2 arithmetic and logic unit.
///
/// The operation decoder is pure hardware: the three op lines feed three
/// inverters, and each of the eight operation enable lines is an AND chain
/// wired to either the direct line or its inverted copy.
#[derive(Debug, Clone, Copy)]
pub struct AluSap2 {
    /// Shared arithmetic path.
    adder: Adder8Bits,
    b_xors: [XorGate; 8],
    /// Operation decoder: one inverter per op line, then two AND gates per
    /// enable line; INC and DEC share their upper term.
    not_op0: NotGate,
    not_op1: NotGate,
    not_op2: NotGate,
    decode_ands: [AndGate; 15],
    /// INC and DEC force the adder's B input to `00000001` / `11111111`: one
    /// mux level per force, per bit.
    inc_muxes: [Mux2x1; 8],
    dec_muxes: [Mux2x1; 8],
    /// Per-bit logic units.
    and_gates: [AndGate; 8],
    or_gates: [OrGate; 8],
    xor_gates: [XorGate; 8],
    not_gates: [NotGate; 8],
    /// Tri-state drivers: eight function slots per bit (ADD, SUB, INC and DEC
    /// all drive the adder sum), one for the carry and eight for the `load`
    /// output buffer.
    output_nmos: [[Nmos; 8]; 8],
    carry_nmos: Nmos,
    load_buffer_nmos: [Nmos; 8],
    /// Flag path, computed on the resolved internal bus.
    zero_detector: ZeroDetector8Bits,
    /// The carry is exposed when an arithmetic function is selected.
    arith_or: OrGate,
    arith_or_inc_dec: OrGate,
    arith_or_final: OrGate,
    /// A pull-down clears the carry for the bitwise operations.
    logic_or_low: OrGate,
    logic_or_high: OrGate,
    logic_or: OrGate,
    carry_pulldown: Nmos,
}

impl Default for AluSap2 {
    fn default() -> (alu: AluSap2)
        ensures
            alu.wf(),
    {
        AluSap2 {
            adder: Adder8Bits::default(),
            b_xors: [XorGate::default(); 8],
            not_op0: NotGate::default(),
            not_op1: NotGate::default(),
            not_op2: NotGate::default(),
            decode_ands: [AndGate::default(); 15],
            inc_muxes: [Mux2x1::default(); 8],
            dec_muxes: [Mux2x1::default(); 8],
            and_gates: [AndGate::default(); 8],
            or_gates: [OrGate::default(); 8],
            xor_gates: [XorGate::default(); 8],
            not_gates: [NotGate::default(); 8],
            output_nmos: [[Nmos::default(); 8]; 8],
            carry_nmos: Nmos::default(),
            load_buffer_nmos: [Nmos::default(); 8],
            zero_detector: ZeroDetector8Bits::default(),
            arith_or: OrGate::default(),
            arith_or_inc_dec: OrGate::default(),
            arith_or_final: OrGate::default(),
            logic_or_low: OrGate::default(),
            logic_or_high: OrGate::default(),
            logic_or: OrGate::default(),
            carry_pulldown: Nmos::default(),
        }
    }
}

impl View for AluSap2 {
    type V = ();

    open spec fn view(&self) -> () {
        ()
    }
}

impl AluSap2 {
    /// The operation decoder: one enable line per operation.
    fn decode(&mut self, op2: Signal, op1: Signal, op0: Signal) -> (r: Result<
        [Signal; 8],
        HardwareError,
    >)
        ensures
            r is Ok,
            decoded_operation(r->Ok_0@, op2, op1, op0),
    {
        let mut single = [Signal::HighImpedance];

        self.not_op2.conduct_into(&[op2], &mut single)?;
        let not_op2 = single[0];
        self.not_op1.conduct_into(&[op1], &mut single)?;
        let not_op1 = single[0];
        self.not_op0.conduct_into(&[op0], &mut single)?;
        let not_op0 = single[0];

        self.decode_ands[0].conduct_into(&[not_op2, not_op1], &mut single)?;
        let upper_add = single[0];
        self.decode_ands[1].conduct_into(&[upper_add, not_op0], &mut single)?;
        let enable_add = single[0];

        self.decode_ands[2].conduct_into(&[not_op2, not_op1], &mut single)?;
        let upper_sub = single[0];
        self.decode_ands[3].conduct_into(&[upper_sub, op0], &mut single)?;
        let enable_sub = single[0];

        self.decode_ands[4].conduct_into(&[not_op2, op1], &mut single)?;
        let upper_and = single[0];
        self.decode_ands[5].conduct_into(&[upper_and, not_op0], &mut single)?;
        let enable_and = single[0];

        self.decode_ands[6].conduct_into(&[not_op2, op1], &mut single)?;
        let upper_or = single[0];
        self.decode_ands[7].conduct_into(&[upper_or, op0], &mut single)?;
        let enable_or = single[0];

        self.decode_ands[8].conduct_into(&[op2, not_op1], &mut single)?;
        let upper_xor = single[0];
        self.decode_ands[9].conduct_into(&[upper_xor, not_op0], &mut single)?;
        let enable_xor = single[0];

        self.decode_ands[10].conduct_into(&[op2, not_op1], &mut single)?;
        let upper_not = single[0];
        self.decode_ands[11].conduct_into(&[upper_not, op0], &mut single)?;
        let enable_not = single[0];

        self.decode_ands[12].conduct_into(&[op2, op1], &mut single)?;
        let upper_inc_dec = single[0];
        self.decode_ands[13].conduct_into(&[upper_inc_dec, not_op0], &mut single)?;
        let enable_inc = single[0];
        self.decode_ands[14].conduct_into(&[upper_inc_dec, op0], &mut single)?;
        let enable_dec = single[0];

        let enables = [
            enable_add,
            enable_sub,
            enable_and,
            enable_or,
            enable_xor,
            enable_not,
            enable_inc,
            enable_dec,
        ];
        proof {
            match (op2, op1, op0) {
                (Signal::Driven(x), Signal::Driven(y), Signal::Driven(z)) => {
                    assert(enables@ =~= hardware::driven(
                        decoder::one_hot(8, selected(x, y, z).code()),
                    ));
                },
                _ => {},
            }
        }
        Ok(enables)
    }

    /// The adder behind the operand that the operation forces on it:
    /// `B XOR sub`, `00000001` for INC, `11111111` for DEC.
    fn arithmetic_path(
        &mut self,
        inputs: &[Signal],
        enable_sub: Signal,
        enable_inc: Signal,
        enable_dec: Signal,
    ) -> (r: Result<[Signal; 9], HardwareError>)
        requires
            inputs@.len() == 20,
        ensures
            r is Ok,
            ({
                let a = inputs@.subrange(0, 8);
                let b = forced_operand(
                    inputs@.subrange(8, 16),
                    enable_sub,
                    enable_inc,
                    enable_dec,
                );
                r->Ok_0@ == ripple_sum(a, b, enable_sub).push(ripple_carry(a, b, enable_sub, 8))
            }),
    {
        let ghost b = forced_operand(inputs@.subrange(8, 16), enable_sub, enable_inc, enable_dec);
        let mut operand = [Signal::HighImpedance; 8];
        for index in 0..8
            invariant
                inputs@.len() == 20,
                b == forced_operand(inputs@.subrange(8, 16), enable_sub, enable_inc, enable_dec),
                forall|k: int| 0 <= k < index ==> #[trigger] operand@[k] == b[k],
        {
            let mut single = [Signal::HighImpedance];
            self.b_xors[index].conduct_into(&[inputs[8 + index], enable_sub], &mut single)?;
            let one = if index == 0 {
                Bit::High
            } else {
                Bit::Low
            };
            let modified_b = single[0];
            self.inc_muxes[index].conduct_into(
                &[modified_b, Signal::Driven(one), enable_inc],
                &mut single,
            )?;
            let incremented = single[0];
            self.dec_muxes[index].conduct_into(
                &[incremented, Signal::Driven(Bit::High), enable_dec],
                &mut single,
            )?;
            operand[index] = single[0];
        }
        assert(operand@ =~= b);
        let adder_inputs = operand_lines(inputs, &operand, enable_sub);
        assert(adder_inputs@.subrange(0, 8) =~= inputs@.subrange(0, 8));
        let mut adder_output = [Signal::HighImpedance; 9];
        self.adder.conduct_into(&adder_inputs, &mut adder_output)?;
        Ok(adder_output)
    }

    /// One candidate result per function, each behind its own tri-state
    /// drivers on the internal bus. ADD, SUB, INC and DEC share the sum.
    fn drive_bus(&mut self, inputs: &[Signal], sum: &[Signal; 8], enables: &[Signal; 8]) -> (r:
        Result<[Signal; 8], HardwareError>)
        requires
            inputs@.len() == 20,
            (exists|function: nat|
                function < 8 && enables@ == hardware::driven(
                    #[trigger] decoder::one_hot(8, function),
                )) || (forall|k: int|
                0 <= k < 8 ==> #[trigger] enables@[k] != Signal::Driven(Bit::High)),
        ensures
            r is Ok,
            forall|function: nat|
                function < 8 && enables@ == hardware::driven(
                    #[trigger] decoder::one_hot(8, function),
                ) ==> r->Ok_0@ == candidate_row(
                    function as int,
                    inputs@.subrange(0, 8),
                    inputs@.subrange(8, 16),
                    sum@,
                ),
            (forall|k: int| 0 <= k < 8 ==> #[trigger] enables@[k] != Signal::Driven(Bit::High))
                ==> r->Ok_0@ == hardware::floating(8),
    {
        let ghost a = inputs@.subrange(0, 8);
        let ghost b = inputs@.subrange(8, 16);
        let mut ands = [Signal::HighImpedance; 8];
        let mut ors = [Signal::HighImpedance; 8];
        let mut xors = [Signal::HighImpedance; 8];
        let mut nots = [Signal::HighImpedance; 8];
        for index in 0..8
            invariant
                inputs@.len() == 20,
                a == inputs@.subrange(0, 8),
                b == inputs@.subrange(8, 16),
                forall|k: int|
                    0 <= k < index ==> #[trigger] ands@[k] == gates::and_signal(a[k], b[k]),
                forall|k: int|
                    0 <= k < index ==> #[trigger] ors@[k] == gates::or_signal(a[k], b[k]),
                forall|k: int|
                    0 <= k < index ==> #[trigger] xors@[k] == gates::xor_signal(a[k], b[k]),
                forall|k: int| 0 <= k < index ==> #[trigger] nots@[k] == gates::not_signal(a[k]),
        {
            let pair = [inputs[index], inputs[8 + index]];
            assert(a[index as int] == pair@[0] && b[index as int] == pair@[1]);
            let mut single = [Signal::HighImpedance];
            self.and_gates[index].conduct_into(&pair, &mut single)?;
            ands[index] = single[0];
            self.or_gates[index].conduct_into(&pair, &mut single)?;
            ors[index] = single[0];
            self.xor_gates[index].conduct_into(&pair, &mut single)?;
            xors[index] = single[0];
            self.not_gates[index].conduct_into(&[inputs[index]], &mut single)?;
            nots[index] = single[0];
        }
        let candidates = [*sum, *sum, ands, ors, xors, nots, *sum, *sum];
        assert forall|function: int| 0 <= function < 8 implies (#[trigger] candidates@[function])@
            == candidate_row(function, a, b, sum@) by {
            assert(candidates@[function]@ =~= candidate_row(function, a, b, sum@));
        }

        let mut drivers = [[Signal::HighImpedance; 8]; 8];
        for function in 0..8
            invariant
                forall|f: int|
                    0 <= f < function ==> (#[trigger] drivers@[f])@ == hardware::gated_row(
                        enables@[f],
                        candidates@[f]@,
                    ),
        {
            let mut row = [Signal::HighImpedance; 8];
            for index in 0..8
                invariant
                    function < 8,
                    forall|k: int|
                        0 <= k < index ==> #[trigger] row@[k] == hardware::gated(
                            enables@[function as int],
                            candidates@[function as int]@[k],
                        ),
            {
                let mut nmos = self.output_nmos[index][function];
                let mut single = [Signal::HighImpedance];
                nmos.conduct_into(&[enables[function], candidates[function][index]], &mut single)?;
                row[index] = single[0];
            }
            assert(row@ =~= hardware::gated_row(
                enables@[function as int],
                candidates@[function as int]@,
            ));
            drivers[function] = row;
        }
        proof {
            assert forall|f: int|
                0 <= f < 8 && #[trigger] enables@[f] != Signal::Driven(Bit::High) implies (
            #[trigger] drivers@[f])@ == hardware::floating(8) by {
                assert(drivers@[f]@ =~= hardware::floating(8));
            }
            if forall|k: int| 0 <= k < 8 ==> #[trigger] enables@[k] != Signal::Driven(Bit::High) {
                assert forall|f: int| 0 <= f < 8 implies (#[trigger] drivers@[f])@
                    == hardware::floating(8) by {
                    assert(enables@[f] != Signal::Driven(Bit::High));
                }
                hardware::law_bus_idle(drivers@);
                assert forall|function: nat| function < 8 implies enables@ != hardware::driven(
                    #[trigger] decoder::one_hot(8, function),
                ) by {
                    assert(hardware::driven(decoder::one_hot(8, function))[function as int]
                        == Signal::Driven(Bit::High));
                    assert(enables@[function as int] != Signal::Driven(Bit::High));
                }
            } else {
                let function = choose|function: nat|
                    function < 8 && enables@ == hardware::driven(
                        #[trigger] decoder::one_hot(8, function),
                    );
                assert forall|f: int| 0 <= f < 8 && f != function implies (#[trigger] drivers@[f])@
                    == hardware::floating(8) by {
                    assert(enables@[f] == Signal::Driven(Bit::Low));
                }
                hardware::law_bus_single_driver(drivers@, function as int);
                assert(enables@[function as int] == Signal::Driven(Bit::High));
                assert(drivers@[function as int]@ =~= candidates@[function as int]@);
                assert forall|other: nat|
                    other < 8 && enables@ == hardware::driven(
                        #[trigger] decoder::one_hot(8, other),
                    ) implies other == function by {
                    assert(enables@[function as int] == hardware::driven(
                        decoder::one_hot(8, other),
                    )[function as int]);
                }
            }
        }
        bus8(&drivers)
    }

    /// The carry flag: the adder's carry behind the arithmetic select, and
    /// a grounded pull-down behind the bitwise one.
    fn carry_path(&mut self, enables: &[Signal; 8], raw_carry: Signal) -> (r: Result<
        Signal,
        HardwareError,
    >)
        requires
            (exists|function: nat|
                function < 8 && enables@ == hardware::driven(
                    #[trigger] decoder::one_hot(8, function),
                )) || (forall|k: int|
                0 <= k < 8 ==> #[trigger] enables@[k] != Signal::Driven(Bit::High)),
        ensures
            r is Ok,
            forall|function: nat|
                function < 8 && enables@ == hardware::driven(
                    #[trigger] decoder::one_hot(8, function),
                ) ==> r->Ok_0 == if 2 <= function < 6 {
                    Signal::Driven(Bit::Low)
                } else {
                    raw_carry
                },
            (forall|k: int| 0 <= k < 8 ==> #[trigger] enables@[k] != Signal::Driven(Bit::High))
                ==> r->Ok_0 is HighImpedance,
    {
        let mut single = [Signal::HighImpedance];
        self.arith_or.conduct_into(&[enables[0], enables[1]], &mut single)?;
        let carry_low = single[0];
        self.arith_or_inc_dec.conduct_into(&[enables[6], enables[7]], &mut single)?;
        let carry_high = single[0];
        self.arith_or_final.conduct_into(&[carry_low, carry_high], &mut single)?;
        let carry_enable = single[0];
        self.carry_nmos.conduct_into(&[carry_enable, raw_carry], &mut single)?;
        let carry_arith = single[0];
        self.logic_or_low.conduct_into(&[enables[2], enables[3]], &mut single)?;
        let logic_low = single[0];
        self.logic_or_high.conduct_into(&[enables[4], enables[5]], &mut single)?;
        let logic_high = single[0];
        self.logic_or.conduct_into(&[logic_low, logic_high], &mut single)?;
        let logic_enable = single[0];
        self.carry_pulldown.conduct_into(&[logic_enable, Signal::Driven(Bit::Low)], &mut single)?;
        let pair = [carry_arith, single[0]];
        proof {
            gates::lemma_wired_pair(pair@[0], pair@[1]);
            assert(pair@ =~= seq![pair@[0], pair@[1]]);
            if forall|k: int| 0 <= k < 8 ==> #[trigger] enables@[k] != Signal::Driven(Bit::High) {
                assert(carry_enable != Signal::Driven(Bit::High));
                assert(logic_enable != Signal::Driven(Bit::High));
                assert forall|function: nat| function < 8 implies enables@ != hardware::driven(
                    #[trigger] decoder::one_hot(8, function),
                ) by {
                    assert(hardware::driven(decoder::one_hot(8, function))[function as int]
                        == Signal::Driven(Bit::High));
                    assert(enables@[function as int] != Signal::Driven(Bit::High));
                }
            }
        }
        wire(&pair)
    }

    /// Run one operation on integer operands and return
    /// `(result, carry, zero)`; a result that `load` keeps off the bus
    /// reads as zero.
    pub fn evaluate(&mut self, a: u8, b: u8, operation: AluOperation, load: bool) -> (r: Result<
        (u8, bool, bool),
        HardwareError,
    >)
        ensures
            r == Ok::<(u8, bool, bool), HardwareError>(
                (
                    if load {
                        sap2_byte(operation, a, b)
                    } else {
                        0
                    },
                    sap2_byte_carry(operation, a, b),
                    sap2_byte(operation, a, b) == 0,
                ),
            ),
    {
        let a_bits = int_to_bits(a);
        let b_bits = int_to_bits(b);
        let op_bits = operation.to_bits();
        let enable = if load {
            Bit::High
        } else {
            Bit::Low
        };
        let inputs = operation_lines(&a_bits, &b_bits, &op_bits, enable);
        let ghost result = sap2_byte(operation, a, b);
        proof {
            assert(inputs@.subrange(0, 8) =~= hardware::driven(utils::byte_bits(a)));
            assert(inputs@.subrange(8, 16) =~= hardware::driven(utils::byte_bits(b)));
            law_sap2_computes(operation, a, b);
            utils::law_byte_unpacked(result);
        }
        let output = match self.conduct(&inputs) {
            Ok(output) => output,
            Err(error) => return Err(error),
        };
        assert(output@ == hardware::gated_row(
            Signal::Driven(enable),
            hardware::driven(utils::byte_bits(result)),
        ) + seq![
            Signal::Driven(hardware::bit_of(sap2_byte_carry(operation, a, b))),
            Signal::Driven(hardware::bit_of(result == 0)),
        ]);
        assert(output@.take(8) =~= hardware::gated_row(
            Signal::Driven(enable),
            hardware::driven(utils::byte_bits(result)),
        ));
        Ok(
            (
                read_result(&output, enable, Ghost(result)),
                output[8] == Signal::Driven(Bit::High),
                output[9] == Signal::Driven(Bit::High),
            ),
        )
    }
}

impl Component for AluSap2 {
    /// Inputs:
    ///
    /// - 0..8   : A, least significant bit first
    /// - 8..16  : B, least significant bit first
    /// - 16     : op2 (most significant bit of the operation code)
    /// - 17     : op1
    /// - 18     : op0 (least significant bit of the operation code)
    /// - 19     : load
    ///
    /// Outputs:
    ///
    /// - 0..8   : result, least significant bit first, gated by `load`
    /// - 8      : carry flag, Low for the bitwise operations
    /// - 9      : zero flag
    const INPUTS: usize = 20;

    const OUTPUTS: usize = 10;

    open spec fn fan_in() -> nat {
        20
    }

    open spec fn fan_out() -> nat {
        10
    }

    proof fn arity() {
    }

    open spec fn wf(&self) -> bool {
        true
    }

    open spec fn admits(state: (), inputs: Seq<Signal>, slots: nat) -> bool {
        slots == 10
    }

    open spec fn respond(state: (), inputs: Seq<Signal>, outputs: Seq<Signal>) -> Response<()> {
        sap2_response(
            inputs.subrange(0, 8),
            inputs.subrange(8, 16),
            inputs[16],
            inputs[17],
            inputs[18],
            inputs[19],
        )
    }

    open spec fn transistors() -> nat {
        1338
    }

    fn conduct_into(&mut self, inputs: &[Signal], outputs: &mut [Signal]) -> (r: Result<
        (),
        HardwareError,
    >) {
        if inputs.len() != 20 {
            return Err(
                HardwareError::InvalidInputCount { expected: 20, actual: inputs.len() },
            );
        }
        let load = inputs[19];
        let ghost a = inputs@.subrange(0, 8);
        let ghost b = inputs@.subrange(8, 16);

        let enables = self.decode(inputs[16], inputs[17], inputs[18])?;
        let adder_output = self.arithmetic_path(inputs, enables[1], enables[6], enables[7])?;
        let resolved = self.drive_bus(inputs, &first_eight(&adder_output), &enables)?;

        // The flags do not depend on `load`.
        let mut zero_flag = [Signal::HighImpedance];
        self.zero_detector.conduct_into(&resolved, &mut zero_flag)?;
        let carry_flag = self.carry_path(&enables, adder_output[8])?;

        for index in 0..8
            invariant
                outputs@.len() == 10,
                forall|k: int|
                    0 <= k < index ==> #[trigger] outputs@[k] == hardware::gated(
                        load,
                        resolved@[k],
                    ),
        {
            let mut single = [Signal::HighImpedance];
            self.load_buffer_nmos[index].conduct_into(&[load, resolved[index]], &mut single)?;
            outputs[index] = single[0];
        }
        outputs[8] = carry_flag;
        outputs[9] = zero_flag[0];
        proof {
            match (inputs@[16], inputs@[17], inputs@[18]) {
                (Signal::Driven(x), Signal::Driven(y), Signal::Driven(z)) => {
                    let operation = selected(x, y, z);
                    lemma_forced_operand(operation, b);
                    assert(decoder::one_hot(8, operation.code())[operation.code() as int]
                        == Bit::High);
                    let carry = Signal::Driven(hardware::bit_of(operation is Sub));
                    assert(enables@[1] == carry);
                    assert(adder_output@.take(8) =~= ripple_sum(
                        a,
                        sap2_operand(operation, b),
                        carry,
                    ));
                    assert(resolved@ =~= sap2_result(operation, a, b));
                    assert(carry_flag == sap2_carry(operation, a, b));
                },
                _ => {
                    assert(resolved@ == hardware::floating(8));
                    assert(resolved@[0] is HighImpedance);
                },
            }
            let response = sap2_response(a, b, inputs@[16], inputs@[17], inputs@[18], load);
            assert(outputs@ =~= response.outputs);
        }
        Ok(())
    }

    fn transistor_count(&self) -> (count: usize) {
        let mut b_xors: usize = 0;
        for index in 0..8
            invariant
                b_xors == 16 * index,
        {
            b_xors += self.b_xors[index].transistor_count();
        }
        let mut decode_ands: usize = 0;
        for index in 0..15
            invariant
                decode_ands == 6 * index,
        {
            decode_ands += self.decode_ands[index].transistor_count();
        }
        let mut inc_muxes: usize = 0;
        for index in 0..8
            invariant
                inc_muxes == 20 * index,
        {
            inc_muxes += self.inc_muxes[index].transistor_count();
        }
        let mut dec_muxes: usize = 0;
        for index in 0..8
            invariant
                dec_muxes == 20 * index,
        {
            dec_muxes += self.dec_muxes[index].transistor_count();
        }
        let mut and_gates: usize = 0;
        for index in 0..8
            invariant
                and_gates == 6 * index,
        {
            and_gates += self.and_gates[index].transistor_count();
        }
        let mut or_gates: usize = 0;
        for index in 0..8
            invariant
                or_gates == 6 * index,
        {
            or_gates += self.or_gates[index].transistor_count();
        }
        let mut xor_gates: usize = 0;
        for index in 0..8
            invariant
                xor_gates == 16 * index,
        {
            xor_gates += self.xor_gates[index].transistor_count();
        }
        let mut not_gates: usize = 0;
        for index in 0..8
            invariant
                not_gates == 2 * index,
        {
            not_gates += self.not_gates[index].transistor_count();
        }
        let mut load_buffer_nmos: usize = 0;
        for index in 0..8
            invariant
                load_buffer_nmos == 1 * index,
        {
            load_buffer_nmos += self.load_buffer_nmos[index].transistor_count();
        }
        let mut drivers: usize = 0;
        for index in 0..8usize
            invariant
                drivers == 8 * index,
        {
            for function in 0..8
                invariant
                    index < 8,
                    drivers == 8 * index + function,
            {
                drivers += self.output_nmos[index][function].transistor_count();
            }
        }
        self.adder.transistor_count() + b_xors + self.not_op0.transistor_count()
            + self.not_op1.transistor_count() + self.not_op2.transistor_count() + decode_ands
            + inc_muxes + dec_muxes + and_gates + or_gates + xor_gates + not_gates + drivers
            + self.carry_nmos.transistor_count() + load_buffer_nmos
            + self.arith_or.transistor_count() + self.arith_or_inc_dec.transistor_count()
            + self.arith_or_final.transistor_count() + self.logic_or_low.transistor_count()
            + self.logic_or_high.transistor_count() + self.logic_or.transistor_count()
            + self.carry_pulldown.transistor_count() + self.zero_detector.transistor_count()
    }
}

/// The half and the full adder add: the sum line counts for one, the carry
/// line for two, and together they are the number of High inputs.
pub proof fn law_bit_adders(a: Bit, b: Bit, carry: Bit, outputs: Seq<Signal>)
    ensures
        ({
            let half = HalfAdder::respond(
                (),
                seq![Signal::Driven(a), Signal::Driven(b)],
                outputs,
            );
            let full = FullAdder::respond(
                (),
                seq![Signal::Driven(a), Signal::Driven(b), Signal::Driven(carry)],
                outputs,
            );
            let x = utils::bit_value(a);
            let y = utils::bit_value(b);
            &&& half.result is Ok && half.outputs.len() == 2 && hardware::all_driven(half.outputs)
            &&& utils::bit_value(half.outputs[0]->Driven_0) + 2 * utils::bit_value(
                half.outputs[1]->Driven_0,
            ) == x + y
            &&& full.result is Ok && full.outputs.len() == 2 && hardware::all_driven(full.outputs)
            &&& utils::bit_value(full.outputs[0]->Driven_0) + 2 * utils::bit_value(
                full.outputs[1]->Driven_0,
            ) == x + y + utils::bit_value(carry)
        }),
{
}

/// The 8-bit adder adds bytes: its first eight outputs are a byte, its last
/// one counts for 256, and together they are the sum of the two bytes and
/// the carry input.
pub proof fn law_byte_adder(a: u8, b: u8, carry: Bit, inputs: Seq<Signal>, outputs: Seq<Signal>)
    requires
        inputs.len() == 17,
        inputs.subrange(0, 8) == hardware::driven(utils::byte_bits(a)),
        inputs.subrange(8, 16) == hardware::driven(utils::byte_bits(b)),
        inputs[16] == Signal::Driven(carry),
    ensures
        ({
            let response = Adder8Bits::respond((), inputs, outputs);
            &&& response.result is Ok
            &&& response.outputs.len() == 9
            &&& hardware::all_driven(response.outputs)
            &&& utils::byte_of(hardware::levels(response.outputs.take(8))) + 256
                * utils::bit_value(response.outputs[8]->Driven_0) == a + b + utils::bit_value(
                carry,
            )
        }),
{
    let x = utils::byte_bits(a);
    let y = utils::byte_bits(b);
    utils::law_byte_unpacked(a);
    utils::law_byte_unpacked(b);
    law_ripple_adds(x, y, carry);
    power2::lemma2_to64();
    let sum = ripple_sum(hardware::driven(x), hardware::driven(y), Signal::Driven(carry));
    let response = Adder8Bits::respond((), inputs, outputs);
    assert(response.outputs.take(8) =~= sum);
    utils::law_byte_packed(hardware::levels(sum));
    assert forall|i: int| 0 <= i < 9 implies (#[trigger] response.outputs[i]) is Driven by {
        if i < 8 {
            assert(response.outputs[i] == sum[i]);
        }
    }
}

/// The detectors on a driven byte: one tells whether it is zero, the other
/// whether it is 128 or more.
pub proof fn law_detectors(byte: u8, outputs: Seq<Signal>)
    ensures
        ({
            let inputs = hardware::driven(utils::byte_bits(byte));
            let zero = ZeroDetector8Bits::respond((), inputs, outputs);
            let sign = SignDetector8Bits::respond((), inputs, outputs);
            &&& zero.result is Ok && zero.outputs.len() == 1
            &&& sign.result is Ok && sign.outputs.len() == 1
            &&& zero.outputs[0] == Signal::Driven(
                if byte == 0 {
                    Bit::High
                } else {
                    Bit::Low
                },
            )
            &&& sign.outputs[0] == Signal::Driven(
                if byte >= 128 {
                    Bit::High
                } else {
                    Bit::Low
                },
            )
        }),
{
    utils::law_byte_unpacked(byte);
    law_zero_signal(utils::byte_bits(byte));
    utils::lemma_byte_bit(byte, 7);
    assert(((byte >> 7u8) & 1 == 1) == (byte >= 128)) by (bit_vector);
}

/// The detectors on any wires: one High wire is enough for a value that is
/// not zero, and zero takes eight Low wires. The sign is the last wire, also
/// where that one floats.
pub proof fn law_detectors_floating(inputs: Seq<Signal>, outputs: Seq<Signal>)
    requires
        inputs.len() == 8,
    ensures
        ({
            let zero = ZeroDetector8Bits::respond((), inputs, outputs).outputs[0];
            &&& inputs.contains(Signal::Driven(Bit::High)) ==> zero == Signal::Driven(Bit::Low)
            &&& zero == Signal::Driven(Bit::High) ==> inputs == hardware::driven(
                Seq::new(8, |i: int| Bit::Low),
            )
            &&& !inputs.contains(Signal::Driven(Bit::High)) && inputs.contains(
                Signal::HighImpedance,
            ) ==> zero is HighImpedance
            &&& SignDetector8Bits::respond((), inputs, outputs).outputs[0] == inputs[7]
        }),
{
    let zero = ZeroDetector8Bits::respond((), inputs, outputs).outputs[0];
    if inputs.contains(Signal::Driven(Bit::High)) {
        let i = choose|i: int| 0 <= i < 8 && inputs[i] == Signal::Driven(Bit::High);
        assert(inputs[i] == Signal::Driven(Bit::High));
    } else {
        assert forall|i: int| 0 <= i < 8 implies #[trigger] inputs[i] != Signal::Driven(
            Bit::High,
        ) by {
            assert(inputs.contains(inputs[i]));
        }
        if zero == Signal::Driven(Bit::High) {
            assert(inputs =~= hardware::driven(Seq::new(8, |i: int| Bit::Low)));
        }
        if inputs.contains(Signal::HighImpedance) {
            let i = choose|i: int| 0 <= i < 8 && inputs[i] == Signal::HighImpedance;
            assert(inputs[i] != Signal::Driven(Bit::Low));
        }
    }
}

/// The SAP-1 ALU adds and subtracts bytes. Its carry says that 256 was taken
/// off a sum, or that nothing was borrowed for a difference, and its last
/// output says that the result is zero. With a Low `load` all outputs float.
pub proof fn law_sap1_alu(
    a: u8,
    b: u8,
    subtract: Bit,
    load: Signal,
    inputs: Seq<Signal>,
    outputs: Seq<Signal>,
)
    requires
        inputs.len() == 18,
        inputs.subrange(0, 8) == hardware::driven(utils::byte_bits(a)),
        inputs.subrange(8, 16) == hardware::driven(utils::byte_bits(b)),
        inputs[16] == Signal::Driven(subtract),
        inputs[17] == load,
    ensures
        ({
            let response = AluSap1::respond((), inputs, outputs);
            let lines = response.outputs;
            let result = utils::byte_of(hardware::levels(lines.take(8)));
            let carry = utils::bit_value(lines[8]->Driven_0);
            &&& response.result is Ok
            &&& lines.len() == 10
            &&& load == Signal::Driven(Bit::High) ==> {
                &&& hardware::all_driven(lines)
                &&& subtract == Bit::Low ==> result + 256 * carry == a + b
                &&& subtract == Bit::High ==> result + b == a + 256 * (1 - carry)
                &&& lines[9] == Signal::Driven(Bit::High) <==> result == 0
            }
            &&& load == Signal::Driven(Bit::Low) ==> forall|i: int|
                0 <= i < 10 ==> (#[trigger] lines[i]) is HighImpedance
        }),
{
    law_sap1_computes(a, b, subtract == Bit::High);
    if load == Signal::Driven(Bit::High) {
        let total = if subtract == Bit::High {
            a - b
        } else {
            a + b
        };
        let bits = utils::byte_bits(utils::wrapped(total));
        utils::law_byte_unpacked(utils::wrapped(total));
        let lines = AluSap1::respond((), inputs, outputs).outputs;
        assert(hardware::levels(lines.take(8)) =~= bits);
    }
}

/// The SAP-2 ALU on bytes, by the number that its three operation lines
/// spell, the first one the highest: 0 adds, 1 subtracts, 2 to 4 are AND, OR
/// and XOR, 5 inverts, 6 counts up and 7 counts down. The carry says that 256
/// was taken off, or that nothing was borrowed, and is Low for logic. The
/// last output says that the result is zero. While `load` is not High the
/// byte floats and the flags stay.
pub proof fn law_sap2_alu(
    a: u8,
    b: u8,
    op2: Bit,
    op1: Bit,
    op0: Bit,
    inputs: Seq<Signal>,
    outputs: Seq<Signal>,
)
    requires
        inputs.len() == 20,
        inputs.subrange(0, 8) == hardware::driven(utils::byte_bits(a)),
        inputs.subrange(8, 16) == hardware::driven(utils::byte_bits(b)),
        inputs[16] == Signal::Driven(op2),
        inputs[17] == Signal::Driven(op1),
        inputs[18] == Signal::Driven(op0),
    ensures
        ({
            let open = AluSap2::respond(
                (),
                inputs.update(19, Signal::Driven(Bit::High)),
                outputs,
            );
            let response = AluSap2::respond((), inputs, outputs);
            let lines = open.outputs;
            let code = 4 * utils::bit_value(op2) + 2 * utils::bit_value(op1) + utils::bit_value(
                op0,
            );
            let result = utils::byte_of(hardware::levels(lines.take(8)));
            let carry = utils::bit_value(lines[8]->Driven_0);
            &&& open.result is Ok && lines.len() == 10 && hardware::all_driven(lines)
            &&& code == 0 ==> result + 256 * carry == a + b
            &&& code == 1 ==> result + b == a + 256 * (1 - carry)
            &&& code == 2 ==> result == a & b
            &&& code == 3 ==> result == a | b
            &&& code == 4 ==> result == a ^ b
            &&& code == 5 ==> result == !a
            &&& 2 <= code <= 5 ==> carry == 0
            &&& code == 6 ==> result + 256 * carry == a + 1
            &&& code == 7 ==> result + 1 == a + 256 * (1 - carry)
            &&& lines[9] == Signal::Driven(Bit::High) <==> result == 0
            &&& response.result is Ok && response.outputs.len() == 10
            &&& response.outputs[8] == lines[8] && response.outputs[9] == lines[9]
            &&& inputs[19] == Signal::Driven(Bit::High) ==> response.outputs == lines
            &&& inputs[19] != Signal::Driven(Bit::High) ==> forall|i: int|
                0 <= i < 8 ==> (#[trigger] response.outputs[i]) is HighImpedance
        }),
{
    let operation = selected(op2, op1, op0);
    let result = sap2_byte(operation, a, b);
    let bits = utils::byte_bits(result);
    law_sap2_computes(operation, a, b);
    utils::law_byte_unpacked(result);
    let loaded = inputs.update(19, Signal::Driven(Bit::High));
    assert(loaded.subrange(0, 8) =~= inputs.subrange(0, 8));
    assert(loaded.subrange(8, 16) =~= inputs.subrange(8, 16));
    let lines = AluSap2::respond((), loaded, outputs).outputs;
    assert(hardware::levels(lines.take(8)) =~= bits);
    if inputs[19] == Signal::Driven(Bit::High) {
        assert(loaded =~= inputs);
    }
}

/// The SAP-2 ALU answers nothing while one of its operation lines floats.
pub proof fn law_sap2_alu_undecided(inputs: Seq<Signal>, outputs: Seq<Signal>, line: int)
    requires
        inputs.len() == 20,
        inputs[16] is HighImpedance || inputs[17] is HighImpedance || inputs[18] is HighImpedance,
        0 <= line < 10,
    ensures
        AluSap2::respond((), inputs, outputs).result is Ok,
        AluSap2::respond((), inputs, outputs).outputs[line] is HighImpedance,
{
}

/// An operation and its 3-bit code, most significant bit first: the codes
/// count the operations from 0 to 7.
pub proof fn law_operation_codes(operation: AluOperation, bits: [Bit; 3])
    requires
        AluOperation::to_bits.ensures((operation,), bits),
    ensures
        4 * utils::bit_value(bits@[0]) + 2 * utils::bit_value(bits@[1]) + utils::bit_value(bits@[2])
            == match operation {
            AluOperation::Add => 0nat,
            AluOperation::Sub => 1,
            AluOperation::And => 2,
            AluOperation::Or => 3,
            AluOperation::Xor => 4,
            AluOperation::Not => 5,
            AluOperation::Inc => 6,
            AluOperation::Dec => 7,
        },
{
    reveal_with_fuel(utils::bits_value, 4);
    assert(bits@.reverse() =~= seq![bits@[2], bits@[1], bits@[0]]);
}

/// The SAP-2 ALU on integers, operation by operation: the result and the
/// carry make up the sum or the difference, the bitwise operations clear the
/// carry, and the last answer says that the result is zero. A result that
/// `load` keeps off the bus reads as zero, and the flags do not depend on it.
pub proof fn law_sap2_evaluates(
    alu: &mut AluSap2,
    a: u8,
    b: u8,
    operation: AluOperation,
    loaded: Result<(u8, bool, bool), HardwareError>,
    unloaded: Result<(u8, bool, bool), HardwareError>,
)
    requires
        AluSap2::evaluate.ensures((alu, a, b, operation, true), loaded),
        AluSap2::evaluate.ensures((alu, a, b, operation, false), unloaded),
    ensures
        loaded is Ok,
        ({
            let (result, carried, zero) = loaded->Ok_0;
            let carry: int = if carried {
                1
            } else {
                0
            };
            &&& match operation {
                AluOperation::Add => result + 256 * carry == a + b,
                AluOperation::Sub => result + b == a + 256 * (1 - carry),
                AluOperation::And => result == a & b && carry == 0,
                AluOperation::Or => result == a | b && carry == 0,
                AluOperation::Xor => result == a ^ b && carry == 0,
                AluOperation::Not => result == !a && carry == 0,
                AluOperation::Inc => result + 256 * carry == a + 1,
                AluOperation::Dec => result + 1 == a + 256 * (1 - carry),
            }
            &&& zero <==> result == 0
            &&& unloaded == Ok::<(u8, bool, bool), HardwareError>((0, carried, zero))
        }),
{
}

/// The adders on any wires are made of gates: the half adder is an XOR and
/// an AND, and the full adder is two half adders with an OR for the carry.
pub proof fn law_adder_gates(a: Signal, b: Signal, carry: Signal, outputs: Seq<Signal>)
    ensures
        ({
            let one = seq![Signal::HighImpedance];
            let half = HalfAdder::respond((), seq![a, b], outputs);
            let rest = HalfAdder::respond((), seq![half.outputs[0], carry], outputs);
            let full = FullAdder::respond((), seq![a, b, carry], outputs);
            &&& half.outputs[0] == XorGate::respond((), seq![a, b], one).outputs[0]
            &&& half.outputs[1] == AndGate::respond((), seq![a, b], one).outputs[0]
            &&& full.outputs[0] == rest.outputs[0]
            &&& full.outputs[1] == OrGate::respond(
                (),
                seq![half.outputs[1], rest.outputs[1]],
                one,
            ).outputs[0]
        }),
{
}

/// The carries of an adder on any wires: the carry input, and then the carry
/// of each full adder.
pub open spec fn is_carry_chain(
    carries: Seq<Signal>,
    inputs: Seq<Signal>,
    outputs: Seq<Signal>,
) -> bool {
    &&& carries.len() == 9
    &&& carries[0] == inputs[16]
    &&& carries[8] == outputs[8]
    &&& forall|i: int|
        0 <= i < 8 ==> {
            let bit = FullAdder::respond(
                (),
                seq![inputs[i], inputs[8 + i], #[trigger] carries[i]],
                hardware::floating(2),
            );
            bit.outputs[0] == outputs[i] && bit.outputs[1] == carries[i + 1]
        }
}

/// The 8-bit adder on any wires is a chain of full adders, each of which gets
/// the carry of the one before.
pub proof fn law_adder_chain(inputs: Seq<Signal>, outputs: Seq<Signal>)
    requires
        inputs.len() == 17,
    ensures
        exists|carries: Seq<Signal>| #[trigger]
            is_carry_chain(carries, inputs, Adder8Bits::respond((), inputs, outputs).outputs),
{
    let a = inputs.subrange(0, 8);
    let b = inputs.subrange(8, 16);
    let carries = Seq::new(9, |i: int| ripple_carry(a, b, inputs[16], i as nat));
    let response = Adder8Bits::respond((), inputs, outputs);
    assert forall|i: int| 0 <= i < 8 implies {
        let bit = FullAdder::respond(
            (),
            seq![inputs[i], inputs[8 + i], #[trigger] carries[i]],
            hardware::floating(2),
        );
        bit.outputs[0] == response.outputs[i] && bit.outputs[1] == carries[i + 1]
    } by {
        assert(a[i] == inputs[i] && b[i] == inputs[8 + i]);
    }
    assert(is_carry_chain(carries, inputs, response.outputs));
}

/// The SAP-1 ALU on any wires, with a `load` that is not Low: it is an adder
/// whose second operand and carry input go through the subtract line, and a
/// zero detector behind it. `load` gates the byte and not the flags.
pub proof fn law_sap1_wires(inputs: Seq<Signal>, outputs: Seq<Signal>, index: int)
    requires
        inputs.len() == 18,
        inputs[17] != Signal::Driven(Bit::Low),
        0 <= index < 8,
    ensures
        ({
            let one = seq![Signal::HighImpedance];
            let operand = Seq::new(
                8,
                |i: int| XorGate::respond((), seq![inputs[8 + i], inputs[16]], one).outputs[0],
            );
            let sum = Adder8Bits::respond(
                (),
                inputs.take(8) + operand + seq![inputs[16]],
                hardware::floating(9),
            ).outputs;
            let lines = AluSap1::respond((), inputs, outputs).outputs;
            &&& lines.len() == 10
            &&& lines[index] == if inputs[17] == Signal::Driven(Bit::High) {
                sum[index]
            } else {
                Signal::HighImpedance
            }
            &&& lines[8] == sum[8]
            &&& lines[9] == ZeroDetector8Bits::respond((), sum.take(8), one).outputs[0]
        }),
{
    let one = seq![Signal::HighImpedance];
    let operand = Seq::new(
        8,
        |i: int| XorGate::respond((), seq![inputs[8 + i], inputs[16]], one).outputs[0],
    );
    let whole = inputs.take(8) + operand + seq![inputs[16]];
    let a = inputs.subrange(0, 8);
    assert(whole.subrange(0, 8) =~= a);
    assert(whole.subrange(8, 16) =~= operand);
    assert(xor_row(inputs.subrange(8, 16), inputs[16]) =~= operand);
    let sum = Adder8Bits::respond((), whole, hardware::floating(9)).outputs;
    assert(sum.take(8) =~= ripple_sum(a, operand, inputs[16]));
}

/// The SAP-2 ALU on any operand wires, with driven operation lines and
/// `load` High: the codes from 2 to 5 are gates, bit by bit; the others are
/// an adder whose second operand is B, B inverted, one or 255, with a carry
/// input for the subtraction alone.
pub proof fn law_sap2_wires(inputs: Seq<Signal>, outputs: Seq<Signal>, code: int, index: int)
    requires
        inputs.len() == 20,
        0 <= code < 8,
        inputs[16] == Signal::Driven(hardware::bit_of(code / 4 == 1)),
        inputs[17] == Signal::Driven(hardware::bit_of((code / 2) % 2 == 1)),
        inputs[18] == Signal::Driven(hardware::bit_of(code % 2 == 1)),
        inputs[19] == Signal::Driven(Bit::High),
        0 <= index < 8,
    ensures
        ({
            let one = seq![Signal::HighImpedance];
            let two = seq![inputs[index], inputs[8 + index]];
            let lines = AluSap2::respond((), inputs, outputs).outputs;
            let operand = Seq::new(
                8,
                |i: int|
                    if code == 1 {
                        NotGate::respond((), seq![inputs[8 + i]], one).outputs[0]
                    } else if code == 6 {
                        Signal::Driven(hardware::bit_of(i == 0))
                    } else if code == 7 {
                        Signal::Driven(Bit::High)
                    } else {
                        inputs[8 + i]
                    },
            );
            let sum = Adder8Bits::respond(
                (),
                inputs.take(8) + operand + seq![Signal::Driven(hardware::bit_of(code == 1))],
                hardware::floating(9),
            ).outputs;
            &&& lines.len() == 10
            &&& code == 2 ==> lines[index] == AndGate::respond((), two, one).outputs[0]
            &&& code == 3 ==> lines[index] == OrGate::respond((), two, one).outputs[0]
            &&& code == 4 ==> lines[index] == XorGate::respond((), two, one).outputs[0]
            &&& code == 5 ==> lines[index] == NotGate::respond(
                (),
                seq![inputs[index]],
                one,
            ).outputs[0]
            &&& 2 <= code <= 5 ==> lines[8] == Signal::Driven(Bit::Low)
            &&& code < 2 || code > 5 ==> lines[index] == sum[index] && lines[8] == sum[8]
            &&& lines[9] == ZeroDetector8Bits::respond((), lines.take(8), one).outputs[0]
        }),
{
    let one = seq![Signal::HighImpedance];
    let a = inputs.subrange(0, 8);
    let b = inputs.subrange(8, 16);
    let operation = selected(
        hardware::bit_of(code / 4 == 1),
        hardware::bit_of((code / 2) % 2 == 1),
        hardware::bit_of(code % 2 == 1),
    );
    let lines = AluSap2::respond((), inputs, outputs).outputs;
    assert(lines.take(8) =~= sap2_result(operation, a, b));
    assert(a[index] == inputs[index] && b[index] == inputs[8 + index]);
    if code < 2 || code > 5 {
        let operand = sap2_operand(operation, b);
        let carry = Signal::Driven(hardware::bit_of(code == 1));
        let listed = Seq::new(
            8,
            |i: int|
                if code == 1 {
                    NotGate::respond((), seq![inputs[8 + i]], one).outputs[0]
                } else if code == 6 {
                    Signal::Driven(hardware::bit_of(i == 0))
                } else if code == 7 {
                    Signal::Driven(Bit::High)
                } else {
                    inputs[8 + i]
                },
        );
        assert(listed =~= operand);
        let whole = inputs.take(8) + listed + seq![carry];
        assert(whole.subrange(0, 8) =~= a);
        assert(whole.subrange(8, 16) =~= operand);
    }
}

} // verus!
