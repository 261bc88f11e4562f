use bitbybit::alu_sap2::Alu8BitsSap2;
use bitbybit::alu_sap2::AluOperation::{Add, And, Not, Or, Sub, Xor};
use bitbybit::hardware::{Bit, Component, HardwareError, Propagate, Signal};
use bitbybit::utils::int_to_bits;

#[test]
fn test_operation_encodings() {
    assert_eq!(Add.to_bits(), [Bit::Low, Bit::Low, Bit::Low]);
    assert_eq!(Sub.to_bits(), [Bit::Low, Bit::Low, Bit::High]);
    assert_eq!(And.to_bits(), [Bit::Low, Bit::High, Bit::Low]);
    assert_eq!(Or.to_bits(), [Bit::Low, Bit::High, Bit::High]);
    assert_eq!(Xor.to_bits(), [Bit::High, Bit::Low, Bit::Low]);
    assert_eq!(Not.to_bits(), [Bit::High, Bit::Low, Bit::High]);
}

#[test]
fn test_addition() {
    let mut alu = Alu8BitsSap2::default();

    // 9 + 4 = 13, no carry.
    assert_eq!(alu.evaluate(9, 4, Add, true).unwrap(), (13, false, false));

    // 200 + 100 = 300 -> 44 with carry out.
    assert_eq!(
        alu.evaluate(200, 100, Add, true).unwrap(),
        (44, true, false)
    );

    // 0 + 0 = 0 sets the zero flag.
    assert_eq!(alu.evaluate(0, 0, Add, true).unwrap(), (0, false, true));
}

#[test]
fn test_subtraction() {
    let mut alu = Alu8BitsSap2::default();

    // 9 - 4 = 5, carry High (no borrow).
    assert_eq!(alu.evaluate(9, 4, Sub, true).unwrap(), (5, true, false));

    // 3 - 3 = 0, carry High, zero flag set.
    assert_eq!(alu.evaluate(3, 3, Sub, true).unwrap(), (0, true, true));

    // 3 - 4 wraps to 255, carry Low (borrow).
    assert_eq!(
        alu.evaluate(3, 4, Sub, true).unwrap(),
        (255, false, false)
    );
}

#[test]
fn test_logic_operations() {
    let mut alu = Alu8BitsSap2::default();

    let (result, carry, _) =
        alu.evaluate(0b1100_1010, 0b1010_1100, And, true).unwrap();
    assert_eq!(result, 0b1000_1000);
    assert!(!carry); // logic ops do not drive the carry

    let (result, _, _) =
        alu.evaluate(0b1100_1010, 0b1010_1100, Or, true).unwrap();
    assert_eq!(result, 0b1110_1110);

    let (result, _, _) =
        alu.evaluate(0b1100_1010, 0b1010_1100, Xor, true).unwrap();
    assert_eq!(result, 0b0110_0110);

    let (result, _, _) = alu.evaluate(0b1100_1010, 0xFF, Not, true).unwrap();
    assert_eq!(result, 0b0011_0101);
}

#[test]
fn test_load_gates_the_result_but_not_flags() {
    let mut alu = Alu8BitsSap2::default();

    let mut inputs: Vec<Signal> = Vec::with_capacity(20);
    inputs.extend(int_to_bits(9).map(Signal::Driven));
    inputs.extend(int_to_bits(4).map(Signal::Driven));
    inputs.extend(Add.to_bits().map(Signal::Driven));
    inputs.push(Signal::HighImpedance); // load floating

    let output = alu.conduct(&inputs).unwrap();

    // Result floats, flags stay valid.
    for bit in &output[0..8] {
        assert_eq!(*bit, Signal::HighImpedance);
    }
    assert_eq!(output[8], Signal::Driven(Bit::Low)); // no carry
    assert_eq!(output[9], Signal::Driven(Bit::Low)); // result != 0
}

#[test]
fn alu_sap2_test_rejects_wrong_input_count() {
    let mut alu = Alu8BitsSap2::default();
    assert_eq!(
        alu.conduct(&[Signal::HighImpedance; 19]),
        Err(HardwareError::InvalidInputCount {
            expected: 20,
            actual: 19,
        })
    );
}

#[test]
fn test_exhaustive_against_reference() {
    let mut alu = Alu8BitsSap2::default();

    // Stratified sample for the four logic operations: the
    // stepping is a full-period LCG over u8, so ~30 values of each
    // operand cover all bit patterns of the low nibble and a good
    // spread of the high one.
    for step in 0..30_u8 {
        let a_value = step.wrapping_mul(29).wrapping_add(17);
        let b_value = step.wrapping_mul(61).wrapping_add(5);

        assert_eq!(
            alu.evaluate(a_value, b_value, And, true).unwrap().0,
            a_value & b_value,
            "AND failed for {a_value}, {b_value}"
        );
        assert_eq!(
            alu.evaluate(a_value, b_value, Or, true).unwrap().0,
            a_value | b_value,
            "OR failed for {a_value}, {b_value}"
        );
        assert_eq!(
            alu.evaluate(a_value, b_value, Xor, true).unwrap().0,
            a_value ^ b_value,
            "XOR failed for {a_value}, {b_value}"
        );
        assert_eq!(
            alu.evaluate(a_value, b_value, Not, true).unwrap().0,
            !a_value,
            "NOT failed for {a_value}"
        );
    }

    // All ADD / SUB pairs against the reference semantics.
    for delta in 0..=255_u8 {
        let (result, carry, _) = alu.evaluate(delta, 137, Add, true).unwrap();
        let total = u16::from(delta) + 137_u16;
        assert_eq!(result, (total & 0xFF) as u8);
        assert_eq!(carry, total > 0xFF);

        let (result, carry, _) = alu.evaluate(delta, 42, Sub, true).unwrap();
        assert_eq!(result, delta.wrapping_sub(42));
        assert_eq!(carry, delta >= 42);
    }
}

#[test]
fn transistors_and_silent_results() {
    let mut alu = Alu8BitsSap2::default();
    assert_eq!(alu.transistor_count(), 953);
    assert_eq!(alu.evaluate(9, 4, Add, false), Ok((0, false, false)));
    assert_eq!(alu.evaluate(0xF0, 0x0F, And, false), Ok((0, false, true)));
}
