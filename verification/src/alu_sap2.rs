//! The six-operation SAP-2 arithmetic and logic unit.
//!
//! [`Alu8BitsSap2`] supports addition, subtraction and the bitwise
//! operations AND, OR, XOR and NOT, selected by a 3-bit operation code.
//! Every candidate result drives the internal bus through its own
//! tri-state transistor. The two unused operation codes select nothing.

use vstd::prelude::*;

use crate::arithmetic::{
    self, first_eight, operand_lines, operation_lines, read_result, Adder8Bits, ZeroDetector8Bits,
};
use crate::decoder;
use crate::gates::{self, AndGate, NotGate, OrGate, XorGate};
use crate::hardware::{
    self, bus8, Bit, Component, HardwareError, Nmos, Propagate, Response, Signal,
};
use crate::utils::{self, int_to_bits};

verus! {

/// Operation codes accepted by [`Alu8BitsSap2`], encoded on the three
/// `op` lines (`op2 op1 op0`, most significant bit first).
#[derive(Debug, Clone, Copy, PartialEq, Eq, Structural)]
pub enum AluOperation {
    /// `000`: `A + B`
    Add,
    /// `001`: `A - B` (two's complement: `A + NOT(B) + 1`)
    Sub,
    /// `010`: `A AND B`
    And,
    /// `011`: `A OR B`
    Or,
    /// `100`: `A XOR B`
    Xor,
    /// `101`: `NOT A`
    Not,
}

impl AluOperation {
    /// The same operation of the eight-operation unit.
    pub open spec fn widened(self) -> arithmetic::AluOperation {
        match self {
            AluOperation::Add => arithmetic::AluOperation::Add,
            AluOperation::Sub => arithmetic::AluOperation::Sub,
            AluOperation::And => arithmetic::AluOperation::And,
            AluOperation::Or => arithmetic::AluOperation::Or,
            AluOperation::Xor => arithmetic::AluOperation::Xor,
            AluOperation::Not => arithmetic::AluOperation::Not,
        }
    }

    /// The 3-bit encoding, most significant bit first.
    #[must_use]
    pub fn to_bits(self) -> (bits: [Bit; 3])
        ensures
            utils::bits_value(bits@.reverse()) == self.widened().code(),
            arithmetic::selected(bits@[0], bits@[1], bits@[2]) == self.widened(),
    {
        let bits = match self {
            AluOperation::Add => [Bit::Low, Bit::Low, Bit::Low],
            AluOperation::Sub => [Bit::Low, Bit::Low, Bit::High],
            AluOperation::And => [Bit::Low, Bit::High, Bit::Low],
            AluOperation::Or => [Bit::Low, Bit::High, Bit::High],
            AluOperation::Xor => [Bit::High, Bit::Low, Bit::Low],
            AluOperation::Not => [Bit::High, Bit::Low, Bit::High],
        };
        proof {
            reveal_with_fuel(utils::bits_value, 4);
        }
        bits
    }
}

/// What the six-operation ALU answers: the gated result of the selected
/// operation, the adder's carry or a floating one for a bitwise
/// operation, and the zero flag; nothing for an unused code or while an
/// op line floats.
pub open spec fn six_response(
    a: Seq<Signal>,
    b: Seq<Signal>,
    op2: Signal,
    op1: Signal,
    op0: Signal,
    load: Signal,
) -> Response<()> {
    match (op2, op1, op0) {
        (Signal::Driven(x), Signal::Driven(y), Signal::Driven(z)) => {
            let operation = arithmetic::selected(x, y, z);
            if operation.code() < 6 {
                let result = arithmetic::sap2_result(operation, a, b);
                let carry = if operation.is_logic() {
                    Signal::HighImpedance
                } else {
                    arithmetic::sap2_carry(operation, a, b)
                };
                hardware::steady(
                    hardware::gated_row(load, result) + seq![
                        carry,
                        arithmetic::zero_signal(result),
                    ],
                )
            } else {
                hardware::steady(hardware::floating(10))
            }
        },
        _ => hardware::steady(hardware::floating(10)),
    }
}

/// The enable lines of the operation decoder: the line of the selected
/// operation is High and every other is Low; for an unused code or a
/// floating op line, no line is High.
spec fn decoded_operation(enables: Seq<Signal>, op2: Signal, op1: Signal, op0: Signal) -> bool {
    let idle = enables.len() == 6 && forall|k: int|
        0 <= k < 6 ==> #[trigger] enables[k] != Signal::Driven(Bit::High);
    match (op2, op1, op0) {
        (Signal::Driven(x), Signal::Driven(y), Signal::Driven(z)) => {
            let code = arithmetic::selected(x, y, z).code();
            if code < 6 {
                enables == hardware::driven(decoder::one_hot(6, code))
            } else {
                idle
            }
        },
        _ => idle,
    }
}

/// The result that an enabled function puts on the internal bus.
spec fn candidate_row(
    function: int,
    a: Seq<Signal>,
    b: Seq<Signal>,
    sum: Seq<Signal>,
) -> Seq<Signal> {
    if function == 2 {
        Seq::new(8, |i: int| gates::and_signal(a[i], b[i]))
    } else if function == 3 {
        Seq::new(8, |i: int| gates::or_signal(a[i], b[i]))
    } else if function == 4 {
        Seq::new(8, |i: int| gates::xor_signal(a[i], b[i]))
    } else if function == 5 {
        Seq::new(8, |i: int| gates::not_signal(a[i]))
    } else {
        sum
    }
}

/// The SAP-2 arithmetic and logic unit.
///
/// The operation decoder is pure hardware: the three op lines feed three
/// inverters, and each of the six operation enable lines is an AND chain
/// wired to either the direct line or its inverted copy.
#[derive(Debug, Clone, Copy)]
pub struct Alu8BitsSap2 {
    /// Shared arithmetic path.
    adder: Adder8Bits,
    b_xors: [XorGate; 8],
    /// Operation decoder: one inverter per op line, then two AND gates per
    /// enable line.
    not_op0: NotGate,
    not_op1: NotGate,
    not_op2: NotGate,
    decode_ands: [AndGate; 12],
    /// Per-bit logic units.
    and_gates: [AndGate; 8],
    or_gates: [OrGate; 8],
    xor_gates: [XorGate; 8],
    not_gates: [NotGate; 8],
    /// Tri-state drivers: six function slots per bit (ADD and SUB both
    /// drive the adder sum), one for the carry and eight for the `load`
    /// output buffer.
    output_nmos: [[Nmos; 6]; 8],
    carry_nmos: Nmos,
    load_buffer_nmos: [Nmos; 8],
    /// Flag path, computed on the resolved internal bus.
    zero_detector: ZeroDetector8Bits,
    /// The carry is exposed when an arithmetic function is selected.
    arith_or: OrGate,
}

impl Default for Alu8BitsSap2 {
    fn default() -> (alu: Alu8BitsSap2)
        ensures
            alu.wf(),
    {
        Alu8BitsSap2 {
            adder: Adder8Bits::default(),
            b_xors: [XorGate::default(); 8],
            not_op0: NotGate::default(),
            not_op1: NotGate::default(),
            not_op2: NotGate::default(),
            decode_ands: [AndGate::default(); 12],
            and_gates: [AndGate::default(); 8],
            or_gates: [OrGate::default(); 8],
            xor_gates: [XorGate::default(); 8],
            not_gates: [NotGate::default(); 8],
            output_nmos: [[Nmos::default(); 6]; 8],
            carry_nmos: Nmos::default(),
            load_buffer_nmos: [Nmos::default(); 8],
            zero_detector: ZeroDetector8Bits::default(),
            arith_or: OrGate::default(),
        }
    }
}

impl View for Alu8BitsSap2 {
    type V = ();

    open spec fn view(&self) -> () {
        ()
    }
}

impl Alu8BitsSap2 {
    /// The operation decoder: one enable line per operation.
    fn decode(&mut self, op2: Signal, op1: Signal, op0: Signal) -> (r: Result<
        [Signal; 6],
        HardwareError,
    >)
        ensures
            r is Ok,
            decoded_operation(r->Ok_0@, op2, op1, op0),
    {
        let mut single = [Signal::HighImpedance];

        self.not_op2.conduct_into(&[op2], &mut single)?;
        let not_op2 = single[0];
        self.not_op1.conduct_into(&[op1], &mut single)?;
        let not_op1 = single[0];
        self.not_op0.conduct_into(&[op0], &mut single)?;
        let not_op0 = single[0];

        self.decode_ands[0].conduct_into(&[not_op2, not_op1], &mut single)?;
        let upper_add = single[0];
        self.decode_ands[1].conduct_into(&[upper_add, not_op0], &mut single)?;
        let enable_add = single[0];

        self.decode_ands[2].conduct_into(&[not_op2, not_op1], &mut single)?;
        let upper_sub = single[0];
        self.decode_ands[3].conduct_into(&[upper_sub, op0], &mut single)?;
        let enable_sub = single[0];

        self.decode_ands[4].conduct_into(&[not_op2, op1], &mut single)?;
        let upper_and = single[0];
        self.decode_ands[5].conduct_into(&[upper_and, not_op0], &mut single)?;
        let enable_and = single[0];

        self.decode_ands[6].conduct_into(&[not_op2, op1], &mut single)?;
        let upper_or = single[0];
        self.decode_ands[7].conduct_into(&[upper_or, op0], &mut single)?;
        let enable_or = single[0];

        self.decode_ands[8].conduct_into(&[op2, not_op1], &mut single)?;
        let upper_xor = single[0];
        self.decode_ands[9].conduct_into(&[upper_xor, not_op0], &mut single)?;
        let enable_xor = single[0];

        self.decode_ands[10].conduct_into(&[op2, not_op1], &mut single)?;
        let upper_not = single[0];
        self.decode_ands[11].conduct_into(&[upper_not, op0], &mut single)?;
        let enable_not = single[0];

        let enables = [
            enable_add,
            enable_sub,
            enable_and,
            enable_or,
            enable_xor,
            enable_not,
        ];
        proof {
            match (op2, op1, op0) {
                (Signal::Driven(x), Signal::Driven(y), Signal::Driven(z)) => {
                    let code = arithmetic::selected(x, y, z).code();
                    if code < 6 {
                        assert(enables@ =~= hardware::driven(decoder::one_hot(6, code)));
                    }
                },
                _ => {},
            }
        }
        Ok(enables)
    }

    /// The adder behind the row that inverts B for SUB.
    fn arithmetic_path(&mut self, inputs: &[Signal], enable_sub: Signal) -> (r: Result<
        [Signal; 9],
        HardwareError,
    >)
        requires
            inputs@.len() == 20,
        ensures
            r is Ok,
            ({
                let a = inputs@.subrange(0, 8);
                let b = arithmetic::xor_row(inputs@.subrange(8, 16), enable_sub);
                r->Ok_0@ == arithmetic::ripple_sum(a, b, enable_sub).push(
                    arithmetic::ripple_carry(a, b, enable_sub, 8),
                )
            }),
    {
        let ghost b = arithmetic::xor_row(inputs@.subrange(8, 16), enable_sub);
        let mut operand = [Signal::HighImpedance; 8];
        for index in 0..8
            invariant
                inputs@.len() == 20,
                b == arithmetic::xor_row(inputs@.subrange(8, 16), enable_sub),
                forall|k: int| 0 <= k < index ==> #[trigger] operand@[k] == b[k],
        {
            let mut single = [Signal::HighImpedance];
            self.b_xors[index].conduct_into(&[inputs[8 + index], enable_sub], &mut single)?;
            operand[index] = single[0];
        }
        assert(operand@ =~= b);
        let adder_inputs = operand_lines(inputs, &operand, enable_sub);
        assert(adder_inputs@.subrange(0, 8) =~= inputs@.subrange(0, 8));
        let mut adder_output = [Signal::HighImpedance; 9];
        self.adder.conduct_into(&adder_inputs, &mut adder_output)?;
        Ok(adder_output)
    }

    /// One candidate result per function, each behind its own tri-state
    /// drivers on the internal bus. ADD and SUB share the sum.
    fn drive_bus(&mut self, inputs: &[Signal], sum: &[Signal; 8], enables: &[Signal; 6]) -> (r:
        Result<[Signal; 8], HardwareError>)
        requires
            inputs@.len() == 20,
            (exists|function: nat|
                function < 6 && enables@ == hardware::driven(
                    #[trigger] decoder::one_hot(6, function),
                )) || (forall|k: int|
                0 <= k < 6 ==> #[trigger] enables@[k] != Signal::Driven(Bit::High)),
        ensures
            r is Ok,
            forall|function: nat|
                function < 6 && enables@ == hardware::driven(
                    #[trigger] decoder::one_hot(6, function),
                ) ==> r->Ok_0@ == candidate_row(
                    function as int,
                    inputs@.subrange(0, 8),
                    inputs@.subrange(8, 16),
                    sum@,
                ),
            (forall|k: int| 0 <= k < 6 ==> #[trigger] enables@[k] != Signal::Driven(Bit::High))
                ==> r->Ok_0@ == hardware::floating(8),
    {
        let ghost a = inputs@.subrange(0, 8);
        let ghost b = inputs@.subrange(8, 16);
        let mut ands = [Signal::HighImpedance; 8];
        let mut ors = [Signal::HighImpedance; 8];
        let mut xors = [Signal::HighImpedance; 8];
        let mut nots = [Signal::HighImpedance; 8];
        for index in 0..8
            invariant
                inputs@.len() == 20,
                a == inputs@.subrange(0, 8),
                b == inputs@.subrange(8, 16),
                forall|k: int|
                    0 <= k < index ==> #[trigger] ands@[k] == gates::and_signal(a[k], b[k]),
                forall|k: int|
                    0 <= k < index ==> #[trigger] ors@[k] == gates::or_signal(a[k], b[k]),
                forall|k: int|
                    0 <= k < index ==> #[trigger] xors@[k] == gates::xor_signal(a[k], b[k]),
                forall|k: int| 0 <= k < index ==> #[trigger] nots@[k] == gates::not_signal(a[k]),
        {
            let pair = [inputs[index], inputs[8 + index]];
            assert(a[index as int] == pair@[0] && b[index as int] == pair@[1]);
            let mut single = [Signal::HighImpedance];
            self.and_gates[index].conduct_into(&pair, &mut single)?;
            ands[index] = single[0];
            self.or_gates[index].conduct_into(&pair, &mut single)?;
            ors[index] = single[0];
            self.xor_gates[index].conduct_into(&pair, &mut single)?;
            xors[index] = single[0];
            self.not_gates[index].conduct_into(&[inputs[index]], &mut single)?;
            nots[index] = single[0];
        }
        let candidates = [*sum, *sum, ands, ors, xors, nots];
        assert forall|function: int| 0 <= function < 6 implies (#[trigger] candidates@[function])@
            == candidate_row(function, a, b, sum@) by {
            assert(candidates@[function]@ =~= candidate_row(function, a, b, sum@));
        }

        let mut drivers = [[Signal::HighImpedance; 8]; 6];
        for function in 0..6
            invariant
                forall|f: int|
                    0 <= f < function ==> (#[trigger] drivers@[f])@ == hardware::gated_row(
                        enables@[f],
                        candidates@[f]@,
                    ),
        {
            let mut row = [Signal::HighImpedance; 8];
            for index in 0..8
                invariant
                    function < 6,
                    forall|k: int|
                        0 <= k < index ==> #[trigger] row@[k] == hardware::gated(
                            enables@[function as int],
                            candidates@[function as int]@[k],
                        ),
            {
                let mut nmos = self.output_nmos[index][function];
                let mut single = [Signal::HighImpedance];
                nmos.conduct_into(&[enables[function], candidates[function][index]], &mut single)?;
                row[index] = single[0];
            }
            assert(row@ =~= hardware::gated_row(
                enables@[function as int],
                candidates@[function as int]@,
            ));
            drivers[function] = row;
        }
        proof {
            assert forall|f: int|
                0 <= f < 6 && #[trigger] enables@[f] != Signal::Driven(Bit::High) implies (
            #[trigger] drivers@[f])@ == hardware::floating(8) by {
                assert(drivers@[f]@ =~= hardware::floating(8));
            }
            if forall|k: int| 0 <= k < 6 ==> #[trigger] enables@[k] != Signal::Driven(Bit::High) {
                assert forall|f: int| 0 <= f < 6 implies (#[trigger] drivers@[f])@
                    == hardware::floating(8) by {
                    assert(enables@[f] != Signal::Driven(Bit::High));
                }
                hardware::law_bus_idle(drivers@);
                assert forall|function: nat| function < 6 implies enables@ != hardware::driven(
                    #[trigger] decoder::one_hot(6, function),
                ) by {
                    assert(hardware::driven(decoder::one_hot(6, function))[function as int]
                        == Signal::Driven(Bit::High));
                    assert(enables@[function as int] != Signal::Driven(Bit::High));
                }
            } else {
                let function = choose|function: nat|
                    function < 6 && enables@ == hardware::driven(
                        #[trigger] decoder::one_hot(6, function),
                    );
                assert forall|f: int| 0 <= f < 6 && f != function implies (#[trigger] drivers@[f])@
                    == hardware::floating(8) by {
                    assert(enables@[f] == Signal::Driven(Bit::Low));
                }
                hardware::law_bus_single_driver(drivers@, function as int);
                assert(enables@[function as int] == Signal::Driven(Bit::High));
                assert(drivers@[function as int]@ =~= candidates@[function as int]@);
                assert forall|other: nat|
                    other < 6 && enables@ == hardware::driven(
                        #[trigger] decoder::one_hot(6, other),
                    ) implies other == function by {
                    assert(enables@[function as int] == hardware::driven(
                        decoder::one_hot(6, other),
                    )[function as int]);
                }
            }
        }
        bus8(&drivers)
    }

    /// The carry flag: the adder's carry behind the arithmetic select.
    fn carry_path(&mut self, enables: &[Signal; 6], raw_carry: Signal) -> (r: Result<
        Signal,
        HardwareError,
    >)
        ensures
            r == Ok::<Signal, HardwareError>(
                hardware::gated(gates::or_signal(enables@[0], enables@[1]), raw_carry),
            ),
    {
        let mut single = [Signal::HighImpedance];
        self.arith_or.conduct_into(&[enables[0], enables[1]], &mut single)?;
        let carry_enable = single[0];
        self.carry_nmos.conduct_into(&[carry_enable, raw_carry], &mut single)?;
        Ok(single[0])
    }

    /// Run one operation on integer operands and return
    /// `(result, carry, zero)`; a result that `load` keeps off the bus
    /// reads as zero.
    pub fn evaluate(&mut self, a: u8, b: u8, operation: AluOperation, load: bool) -> (r: Result<
        (u8, bool, bool),
        HardwareError,
    >)
        ensures
            r == Ok::<(u8, bool, bool), HardwareError>(
                (
                    if load {
                        arithmetic::sap2_byte(operation.widened(), a, b)
                    } else {
                        0
                    },
                    arithmetic::sap2_byte_carry(operation.widened(), a, b),
                    arithmetic::sap2_byte(operation.widened(), a, b) == 0,
                ),
            ),
    {
        let a_bits = int_to_bits(a);
        let b_bits = int_to_bits(b);
        let op_bits = operation.to_bits();
        let enable = if load {
            Bit::High
        } else {
            Bit::Low
        };
        let inputs = operation_lines(&a_bits, &b_bits, &op_bits, enable);
        let ghost result = arithmetic::sap2_byte(operation.widened(), a, b);
        proof {
            assert(inputs@.subrange(0, 8) =~= hardware::driven(utils::byte_bits(a)));
            assert(inputs@.subrange(8, 16) =~= hardware::driven(utils::byte_bits(b)));
            arithmetic::law_sap2_computes(operation.widened(), a, b);
            utils::law_byte_unpacked(result);
        }
        let output = match self.conduct(&inputs) {
            Ok(output) => output,
            Err(error) => return Err(error),
        };
        let ghost carry = if operation.widened().is_logic() {
            Signal::HighImpedance
        } else {
            Signal::Driven(
                hardware::bit_of(arithmetic::sap2_byte_carry(operation.widened(), a, b)),
            )
        };
        assert(output@ == hardware::gated_row(
            Signal::Driven(enable),
            hardware::driven(utils::byte_bits(result)),
        ) + seq![carry, Signal::Driven(hardware::bit_of(result == 0))]);
        assert(output@.take(8) =~= hardware::gated_row(
            Signal::Driven(enable),
            hardware::driven(utils::byte_bits(result)),
        ));
        Ok(
            (
                read_result(&output, enable, Ghost(result)),
                output[8] == Signal::Driven(Bit::High),
                output[9] == Signal::Driven(Bit::High),
            ),
        )
    }
}

impl Component for Alu8BitsSap2 {
    /// Inputs:
    ///
    /// - 0..8   : A, least significant bit first
    /// - 8..16  : B, least significant bit first
    /// - 16     : op2 (most significant bit of the operation code)
    /// - 17     : op1
    /// - 18     : op0 (least significant bit of the operation code)
    /// - 19     : load
    ///
    /// Outputs:
    ///
    /// - 0..8   : result, least significant bit first, gated by `load`
    /// - 8      : carry flag, driven only during ADD and SUB
    /// - 9      : zero flag
    const INPUTS: usize = 20;

    const OUTPUTS: usize = 10;

    open spec fn fan_in() -> nat {
        20
    }

    open spec fn fan_out() -> nat {
        10
    }

    proof fn arity() {
    }

    open spec fn wf(&self) -> bool {
        true
    }

    open spec fn admits(state: (), inputs: Seq<Signal>, slots: nat) -> bool {
        slots == 10
    }

    open spec fn respond(state: (), inputs: Seq<Signal>, outputs: Seq<Signal>) -> Response<()> {
        six_response(
            inputs.subrange(0, 8),
            inputs.subrange(8, 16),
            inputs[16],
            inputs[17],
            inputs[18],
            inputs[19],
        )
    }

    open spec fn transistors() -> nat {
        953
    }

    fn conduct_into(&mut self, inputs: &[Signal], outputs: &mut [Signal]) -> (r: Result<
        (),
        HardwareError,
    >) {
        if inputs.len() != 20 {
            return Err(
                HardwareError::InvalidInputCount { expected: 20, actual: inputs.len() },
            );
        }
        let load = inputs[19];
        let ghost a = inputs@.subrange(0, 8);
        let ghost b = inputs@.subrange(8, 16);

        let enables = self.decode(inputs[16], inputs[17], inputs[18])?;
        let adder_output = self.arithmetic_path(inputs, enables[1])?;
        let resolved = self.drive_bus(inputs, &first_eight(&adder_output), &enables)?;

        // The flags do not depend on `load`.
        let mut zero_flag = [Signal::HighImpedance];
        self.zero_detector.conduct_into(&resolved, &mut zero_flag)?;
        let carry_flag = self.carry_path(&enables, adder_output[8])?;

        for index in 0..8
            invariant
                outputs@.len() == 10,
                forall|k: int|
                    0 <= k < index ==> #[trigger] outputs@[k] == hardware::gated(
                        load,
                        resolved@[k],
                    ),
        {
            let mut single = [Signal::HighImpedance];
            self.load_buffer_nmos[index].conduct_into(&[load, resolved[index]], &mut single)?;
            outputs[index] = single[0];
        }
        outputs[8] = carry_flag;
        outputs[9] = zero_flag[0];
        proof {
            let idle = forall|k: int|
                0 <= k < 6 ==> #[trigger] enables@[k] != Signal::Driven(Bit::High);
            if idle {
                assert(enables@[0] != Signal::Driven(Bit::High));
                assert(enables@[1] != Signal::Driven(Bit::High));
                assert(resolved@[0] is HighImpedance);
            }
            match (inputs@[16], inputs@[17], inputs@[18]) {
                (Signal::Driven(x), Signal::Driven(y), Signal::Driven(z)) => {
                    let operation = arithmetic::selected(x, y, z);
                    if operation.code() < 6 {
                        assert(decoder::one_hot(6, operation.code())[operation.code() as int]
                            == Bit::High);
                        let carry = Signal::Driven(hardware::bit_of(operation is Sub));
                        assert(enables@[1] == carry);
                        assert(arithmetic::xor_row(b, carry) =~= arithmetic::sap2_operand(
                            operation,
                            b,
                        ));
                        assert(adder_output@.take(8) =~= arithmetic::ripple_sum(
                            a,
                            arithmetic::sap2_operand(operation, b),
                            carry,
                        ));
                        assert(resolved@ =~= arithmetic::sap2_result(operation, a, b));
                    }
                },
                _ => {},
            }
            let response = six_response(a, b, inputs@[16], inputs@[17], inputs@[18], load);
            assert(outputs@ =~= response.outputs);
        }
        Ok(())
    }

    fn transistor_count(&self) -> (count: usize) {
        let mut b_xors: usize = 0;
        for index in 0..8
            invariant
                b_xors == 16 * index,
        {
            b_xors += self.b_xors[index].transistor_count();
        }
        let mut decode_ands: usize = 0;
        for index in 0..12
            invariant
                decode_ands == 6 * index,
        {
            decode_ands += self.decode_ands[index].transistor_count();
        }
        let mut and_gates: usize = 0;
        for index in 0..8
            invariant
                and_gates == 6 * index,
        {
            and_gates += self.and_gates[index].transistor_count();
        }
        let mut or_gates: usize = 0;
        for index in 0..8
            invariant
                or_gates == 6 * index,
        {
            or_gates += self.or_gates[index].transistor_count();
        }
        let mut xor_gates: usize = 0;
        for index in 0..8
            invariant
                xor_gates == 16 * index,
        {
            xor_gates += self.xor_gates[index].transistor_count();
        }
        let mut not_gates: usize = 0;
        for index in 0..8
            invariant
                not_gates == 2 * index,
        {
            not_gates += self.not_gates[index].transistor_count();
        }
        let mut load_buffer_nmos: usize = 0;
        for index in 0..8
            invariant
                load_buffer_nmos == 1 * index,
        {
            load_buffer_nmos += self.load_buffer_nmos[index].transistor_count();
        }
        let mut drivers: usize = 0;
        for index in 0..8usize
            invariant
                drivers == 6 * index,
        {
            for function in 0..6
                invariant
                    index < 8,
                    drivers == 6 * index + function,
            {
                drivers += self.output_nmos[index][function].transistor_count();
            }
        }
        self.adder.transistor_count() + b_xors + self.not_op0.transistor_count()
            + self.not_op1.transistor_count() + self.not_op2.transistor_count() + decode_ands
            + and_gates + or_gates + xor_gates + not_gates + drivers
            + self.carry_nmos.transistor_count() + load_buffer_nmos
            + self.arith_or.transistor_count() + self.zero_detector.transistor_count()
    }
}

/// The six-function ALU on bytes, by the number that its three operation
/// lines spell, the first one the highest: 0 adds, 1 subtracts, 2 to 4 are
/// AND, OR and XOR, and 5 inverts. The carry says that 256 was taken off, or
/// that nothing was borrowed, and floats for logic. The last output says that
/// the result is zero. While `load` is not High the byte floats and the flags
/// stay.
pub proof fn law_six_functions(
    a: u8,
    b: u8,
    op2: Bit,
    op1: Bit,
    op0: Bit,
    inputs: Seq<Signal>,
    outputs: Seq<Signal>,
)
    requires
        inputs.len() == 20,
        inputs.subrange(0, 8) == hardware::driven(utils::byte_bits(a)),
        inputs.subrange(8, 16) == hardware::driven(utils::byte_bits(b)),
        inputs[16] == Signal::Driven(op2),
        inputs[17] == Signal::Driven(op1),
        inputs[18] == Signal::Driven(op0),
        op2 == Bit::Low || op1 == Bit::Low,
    ensures
        ({
            let open = Alu8BitsSap2::respond(
                (),
                inputs.update(19, Signal::Driven(Bit::High)),
                outputs,
            );
            let response = Alu8BitsSap2::respond((), inputs, outputs);
            let lines = open.outputs;
            let code = 4 * utils::bit_value(op2) + 2 * utils::bit_value(op1) + utils::bit_value(
                op0,
            );
            let result = utils::byte_of(hardware::levels(lines.take(8)));
            let carry = utils::bit_value(lines[8]->Driven_0);
            &&& open.result is Ok && lines.len() == 10 && hardware::all_driven(lines.take(8))
            &&& code == 0 ==> result + 256 * carry == a + b
            &&& code == 1 ==> result + b == a + 256 * (1 - carry)
            &&& code == 2 ==> result == a & b
            &&& code == 3 ==> result == a | b
            &&& code == 4 ==> result == a ^ b
            &&& code == 5 ==> result == !a
            &&& code < 2 ==> lines[8] is Driven
            &&& code >= 2 ==> lines[8] is HighImpedance
            &&& lines[9] == Signal::Driven(
                if result == 0 {
                    Bit::High
                } else {
                    Bit::Low
                },
            )
            &&& response.result is Ok && response.outputs.len() == 10
            &&& response.outputs[8] == lines[8] && response.outputs[9] == lines[9]
            &&& inputs[19] == Signal::Driven(Bit::High) ==> response.outputs == lines
            &&& inputs[19] != Signal::Driven(Bit::High) ==> forall|i: int|
                0 <= i < 8 ==> (#[trigger] response.outputs[i]) is HighImpedance
        }),
{
    let operation = arithmetic::selected(op2, op1, op0);
    let result = arithmetic::sap2_byte(operation, a, b);
    let bits = utils::byte_bits(result);
    arithmetic::law_sap2_computes(operation, a, b);
    utils::law_byte_unpacked(result);
    let loaded = inputs.update(19, Signal::Driven(Bit::High));
    assert(loaded.subrange(0, 8) =~= inputs.subrange(0, 8));
    assert(loaded.subrange(8, 16) =~= inputs.subrange(8, 16));
    let lines = Alu8BitsSap2::respond((), loaded, outputs).outputs;
    assert(hardware::levels(lines.take(8)) =~= bits);
    if inputs[19] == Signal::Driven(Bit::High) {
        assert(loaded =~= inputs);
    }
}

/// The two codes without a function, and a floating operation line, leave
/// all outputs floating.
pub proof fn law_no_function(inputs: Seq<Signal>, outputs: Seq<Signal>, line: int)
    requires
        inputs.len() == 20,
        ({
            ||| inputs[16] == Signal::Driven(Bit::High) && inputs[17] == Signal::Driven(Bit::High)
            ||| inputs[16] is HighImpedance
            ||| inputs[17] is HighImpedance
            ||| inputs[18] is HighImpedance
        }),
        0 <= line < 10,
    ensures
        Alu8BitsSap2::respond((), inputs, outputs).result is Ok,
        Alu8BitsSap2::respond((), inputs, outputs).outputs[line] is HighImpedance,
{
}

/// An operation and its 3-bit code, most significant bit first: the codes
/// count the operations from 0 to 5.
pub proof fn law_six_codes(operation: AluOperation, bits: [Bit; 3])
    requires
        AluOperation::to_bits.ensures((operation,), bits),
    ensures
        4 * utils::bit_value(bits@[0]) + 2 * utils::bit_value(bits@[1]) + utils::bit_value(bits@[2])
            == match operation {
            AluOperation::Add => 0nat,
            AluOperation::Sub => 1,
            AluOperation::And => 2,
            AluOperation::Or => 3,
            AluOperation::Xor => 4,
            AluOperation::Not => 5,
        },
{
    reveal_with_fuel(utils::bits_value, 4);
    assert(bits@.reverse() =~= seq![bits@[2], bits@[1], bits@[0]]);
}

/// The six-function ALU on integers, operation by operation: the result and
/// the carry make up the sum or the difference, the bitwise operations have
/// no carry, and the last answer says that the result is zero. A result that
/// `load` keeps off the bus reads as zero, and the flags do not depend on it.
pub proof fn law_six_evaluates(
    alu: &mut Alu8BitsSap2,
    a: u8,
    b: u8,
    operation: AluOperation,
    loaded: Result<(u8, bool, bool), HardwareError>,
    unloaded: Result<(u8, bool, bool), HardwareError>,
)
    requires
        Alu8BitsSap2::evaluate.ensures((alu, a, b, operation, true), loaded),
        Alu8BitsSap2::evaluate.ensures((alu, a, b, operation, false), unloaded),
    ensures
        loaded is Ok,
        ({
            let (result, carried, zero) = loaded->Ok_0;
            let carry: int = if carried {
                1
            } else {
                0
            };
            &&& match operation {
                AluOperation::Add => result + 256 * carry == a + b,
                AluOperation::Sub => result + b == a + 256 * (1 - carry),
                AluOperation::And => result == a & b && carry == 0,
                AluOperation::Or => result == a | b && carry == 0,
                AluOperation::Xor => result == a ^ b && carry == 0,
                AluOperation::Not => result == !a && carry == 0,
            }
            &&& zero <==> result == 0
            &&& unloaded == Ok::<(u8, bool, bool), HardwareError>((0, carried, zero))
        }),
{
}

/// The six-function ALU on any operand wires, with driven operation lines:
/// it does what the eight-function one does for the same code, but for the
/// carry of the bitwise functions, which floats.
pub proof fn law_six_of_eight(inputs: Seq<Signal>, outputs: Seq<Signal>, index: int)
    requires
        inputs.len() == 20,
        inputs[16] is Driven,
        inputs[17] is Driven,
        inputs[18] is Driven,
        inputs[16] == Signal::Driven(Bit::Low) || inputs[17] == Signal::Driven(Bit::Low),
        0 <= index < 10,
    ensures
        ({
            let six = Alu8BitsSap2::respond((), inputs, outputs);
            let eight = arithmetic::AluSap2::respond((), inputs, outputs);
            let arithmetic = inputs[16] == Signal::Driven(Bit::Low) && inputs[17]
                == Signal::Driven(Bit::Low);
            &&& six.result is Ok
            &&& six.outputs.len() == 10
            &&& six.outputs[index] == if index == 8 && !arithmetic {
                Signal::HighImpedance
            } else {
                eight.outputs[index]
            }
        }),
{
}

} // verus!
