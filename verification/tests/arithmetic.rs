use bitbybit::arithmetic::AluOperation::{Add, And, Dec, Inc, Not, Or, Sub, Xor};
use bitbybit::arithmetic::{
    Adder8Bits, AluSap1, AluSap2, FullAdder, HalfAdder, SignDetector8Bits, ZeroDetector8Bits,
};
use bitbybit::hardware::{Bit, Component, HardwareError, Propagate, Signal};
use bitbybit::utils::{bits_to_int, int_to_bits};

#[test]
fn test_half_adder() {
    let mut adder = HalfAdder::default();
    assert_eq!(
        adder.compute(&[Bit::Low, Bit::Low]),
        Ok(vec![Bit::Low, Bit::Low])
    );
    assert_eq!(
        adder.compute(&[Bit::Low, Bit::High]),
        Ok(vec![Bit::High, Bit::Low])
    );
    assert_eq!(
        adder.compute(&[Bit::High, Bit::Low]),
        Ok(vec![Bit::High, Bit::Low])
    );
    assert_eq!(
        adder.compute(&[Bit::High, Bit::High]),
        Ok(vec![Bit::Low, Bit::High])
    );
    assert_eq!(adder.transistor_count(), 22);
}

#[test]
fn test_full_adder() {
    let mut adder = FullAdder::default();
    assert_eq!(
        adder.compute(&[Bit::Low, Bit::Low, Bit::Low]),
        Ok(vec![Bit::Low, Bit::Low])
    );
    assert_eq!(
        adder.compute(&[Bit::Low, Bit::Low, Bit::High]),
        Ok(vec![Bit::High, Bit::Low])
    );
    assert_eq!(
        adder.compute(&[Bit::Low, Bit::High, Bit::Low]),
        Ok(vec![Bit::High, Bit::Low])
    );
    assert_eq!(
        adder.compute(&[Bit::Low, Bit::High, Bit::High]),
        Ok(vec![Bit::Low, Bit::High])
    );
    assert_eq!(
        adder.compute(&[Bit::High, Bit::Low, Bit::Low]),
        Ok(vec![Bit::High, Bit::Low])
    );
    assert_eq!(
        adder.compute(&[Bit::High, Bit::Low, Bit::High]),
        Ok(vec![Bit::Low, Bit::High])
    );
    assert_eq!(
        adder.compute(&[Bit::High, Bit::High, Bit::Low]),
        Ok(vec![Bit::Low, Bit::High])
    );
    assert_eq!(
        adder.compute(&[Bit::High, Bit::High, Bit::High]),
        Ok(vec![Bit::High, Bit::High])
    );
    assert_eq!(adder.transistor_count(), 50);
}

#[test]
fn test_adder_8_bits() {
    let mut adder = Adder8Bits::default();
    let a = [
        Bit::High,
        Bit::Low,
        Bit::High,
        Bit::Low,
        Bit::High,
        Bit::Low,
        Bit::High,
        Bit::Low,
    ];
    let b = [
        Bit::Low,
        Bit::High,
        Bit::Low,
        Bit::High,
        Bit::Low,
        Bit::High,
        Bit::Low,
        Bit::High,
    ];
    let inputs: Vec<Bit> = a
        .iter()
        .chain(b.iter())
        .cloned()
        .chain([Bit::Low])
        .collect();
    let result = adder
        .compute(&inputs)
        .expect("Adder8Bits computation failed");
    assert_eq!(
        result,
        vec![
            Bit::High,
            Bit::High,
            Bit::High,
            Bit::High,
            Bit::High,
            Bit::High,
            Bit::High,
            Bit::High,
            Bit::Low,
        ]
    );
}

#[test]
fn test_adder_8_bits_with_carry_in() {
    let mut adder = Adder8Bits::default();

    // 0 + 0 + 1 = 1, no carry out
    let inputs = [Bit::Low; 16]
        .iter()
        .cloned()
        .chain([Bit::High])
        .collect::<Vec<Bit>>();
    let mut expected = vec![Bit::Low; 9];
    expected[0] = Bit::High;
    assert_eq!(adder.compute(&inputs), Ok(expected));

    // 255 + 0 + 1 = 256 -> 0 with carry out
    let inputs = [Bit::High; 8]
        .iter()
        .cloned()
        .chain([Bit::Low; 8])
        .chain([Bit::High])
        .collect::<Vec<Bit>>();
    let result = adder
        .compute(&inputs)
        .expect("Adder8Bits computation failed");
    assert_eq!(result[0..8], [Bit::Low; 8]);
    assert_eq!(result[8], Bit::High);
}

#[test]
fn test_alu_sap1_subtraction() {
    let mut alu = AluSap1::default();

    // 9 - 4 = 5, carry High (no borrow: 9 >= 4), zero Low.
    let mut subtract_case = |a_value: u8, b_value: u8| -> Vec<Bit> {
        let mut inputs: Vec<Bit> = Vec::with_capacity(18);
        inputs.extend(int_to_bits(a_value));
        inputs.extend(int_to_bits(b_value));
        inputs.extend([Bit::High, Bit::High]); // subtract, load
        alu.compute(&inputs).expect("ALU computation failed")
    };

    let result = subtract_case(9, 4);
    assert_eq!(bits_to_int(&result[0..8], false), 5);
    assert_eq!(result[8], Bit::High); // no borrow
    assert_eq!(result[9], Bit::Low); // result != 0

    // 3 - 3 = 0, carry High, zero High.
    let result = subtract_case(3, 3);
    assert_eq!(bits_to_int(&result[0..8], false), 0);
    assert_eq!(result[8], Bit::High);
    assert_eq!(result[9], Bit::High);

    // 3 - 4 = 255 (including borrow), carry Low, zero Low.
    let result = subtract_case(3, 4);
    assert_eq!(bits_to_int(&result[0..8], false), 255);
    assert_eq!(result[8], Bit::Low);
    assert_eq!(result[9], Bit::Low);
}

#[test]
fn test_alu_sap1_addition_exhaustive() {
    let mut alu = AluSap1::default();

    // All ADD pairs against the reference semantics.
    for a_value in 0..=255_u8 {
        let mut inputs: Vec<Bit> = Vec::with_capacity(18);
        inputs.extend(int_to_bits(a_value));
        inputs.extend(int_to_bits(137));
        inputs.extend([Bit::Low, Bit::High]); // subtract=Low, load=High
        let result = alu.compute(&inputs).expect("ALU computation failed");

        let total = u16::from(a_value) + 137_u16;
        assert_eq!(
            bits_to_int(&result[0..8], false),
            (total & 0xFF) as u8,
            "ADD failed for {a_value} + 137"
        );
        assert_eq!(result[8] == Bit::High, total > 0xFF, "carry for {a_value}");
    }
}

#[test]
fn test_alu_sap2_operation_encodings() {
    assert_eq!(Add.to_bits(), [Bit::Low, Bit::Low, Bit::Low]);
    assert_eq!(Sub.to_bits(), [Bit::Low, Bit::Low, Bit::High]);
    assert_eq!(And.to_bits(), [Bit::Low, Bit::High, Bit::Low]);
    assert_eq!(Or.to_bits(), [Bit::Low, Bit::High, Bit::High]);
    assert_eq!(Xor.to_bits(), [Bit::High, Bit::Low, Bit::Low]);
    assert_eq!(Not.to_bits(), [Bit::High, Bit::Low, Bit::High]);
    assert_eq!(Inc.to_bits(), [Bit::High, Bit::High, Bit::Low]);
    assert_eq!(Dec.to_bits(), [Bit::High, Bit::High, Bit::High]);
}

#[test]
fn test_alu_sap2_increment_and_decrement() {
    let mut alu = AluSap2::default();

    // 0xFF + 1 = 0x00, carry out, zero set.
    assert_eq!(alu.evaluate(0xFF, 42, Inc, true).unwrap(), (0, true, true));

    // 7 + 1 = 8, no carry, B ignored.
    assert_eq!(alu.evaluate(7, 200, Inc, true).unwrap(), (8, false, false));

    // 0 - 1 = 0xFF, carry Low (borrow), sign bit set.
    let (result, carry, zero) = alu.evaluate(0, 0, Dec, true).unwrap();
    assert_eq!((result, carry, zero), (255, false, false));

    // 5 - 1 = 4, carry High (no borrow).
    assert_eq!(alu.evaluate(5, 200, Dec, true).unwrap(), (4, true, false));
}

#[test]
fn test_alu_sap2_addition() {
    let mut alu = AluSap2::default();

    // 9 + 4 = 13, no carry.
    assert_eq!(alu.evaluate(9, 4, Add, true).unwrap(), (13, false, false));

    // 200 + 100 = 300 -> 44 with carry out.
    assert_eq!(
        alu.evaluate(200, 100, Add, true).unwrap(),
        (44, true, false)
    );

    // 0 + 0 = 0 sets the zero flag.
    assert_eq!(alu.evaluate(0, 0, Add, true).unwrap(), (0, false, true));
}

#[test]
fn test_alu_sap2_subtraction() {
    let mut alu = AluSap2::default();

    // 9 - 4 = 5, carry High (no borrow).
    assert_eq!(alu.evaluate(9, 4, Sub, true).unwrap(), (5, true, false));

    // 4 - 9 = 251 (wrapping), carry Low (borrow).
    assert_eq!(alu.evaluate(4, 9, Sub, true).unwrap(), (251, false, false));

    // 7 - 7 = 0, carry High, zero High.
    assert_eq!(alu.evaluate(7, 7, Sub, true).unwrap(), (0, true, true));
}

#[test]
fn test_alu_sap2_logic_operations() {
    let mut alu = AluSap2::default();

    let (result, carry, _) = alu.evaluate(0b1100_1010, 0b1010_1100, And, true).unwrap();
    assert_eq!(result, 0b1000_1000);
    assert!(!carry); // logic ops do not drive the carry

    let (result, _, _) = alu.evaluate(0b1100_1010, 0b1010_1100, Or, true).unwrap();
    assert_eq!(result, 0b1110_1110);

    let (result, _, _) = alu.evaluate(0b1100_1010, 0b1010_1100, Xor, true).unwrap();
    assert_eq!(result, 0b0110_0110);

    let (result, _, _) = alu.evaluate(0b1100_1010, 0xFF, Not, true).unwrap();
    assert_eq!(result, 0b0011_0101);
}

#[test]
fn test_alu_sap2_load_gates_the_result_but_not_flags() {
    let mut alu = AluSap2::default();

    let mut inputs: Vec<Signal> = Vec::with_capacity(20);
    inputs.extend(int_to_bits(9).map(Signal::Driven));
    inputs.extend(int_to_bits(4).map(Signal::Driven));
    inputs.extend(Add.to_bits().map(Signal::Driven));
    inputs.push(Signal::HighImpedance); // load floating

    let output = alu.conduct(&inputs).unwrap();

    // Result floats, flags stay valid.
    for bit in &output[0..8] {
        assert_eq!(*bit, Signal::HighImpedance);
    }
    assert_eq!(output[8], Signal::Driven(Bit::Low)); // no carry
    assert_eq!(output[9], Signal::Driven(Bit::Low)); // result != 0
}

#[test]
fn test_alu_sap2_rejects_wrong_input_count() {
    let mut alu = AluSap2::default();
    assert_eq!(
        alu.conduct(&[Signal::HighImpedance; 19]),
        Err(HardwareError::InvalidInputCount {
            expected: 20,
            actual: 19,
        })
    );
}

#[test]
fn test_alu_sap2_exhaustive_against_reference() {
    let mut alu = AluSap2::default();

    // Stratified sample for the four logic operations: the
    // stepping is a full-period LCG over u8, so ~30 values of each
    // operand cover all bit patterns of the low nibble and a good
    // spread of the high one.
    for step in 0..30_u8 {
        let a_value = step.wrapping_mul(29).wrapping_add(17);
        let b_value = step.wrapping_mul(61).wrapping_add(5);

        assert_eq!(
            alu.evaluate(a_value, b_value, And, true).unwrap().0,
            a_value & b_value,
            "AND failed for {a_value}, {b_value}"
        );
        assert_eq!(
            alu.evaluate(a_value, b_value, Or, true).unwrap().0,
            a_value | b_value,
            "OR failed for {a_value}, {b_value}"
        );
        assert_eq!(
            alu.evaluate(a_value, b_value, Xor, true).unwrap().0,
            a_value ^ b_value,
            "XOR failed for {a_value}, {b_value}"
        );
        assert_eq!(
            alu.evaluate(a_value, b_value, Not, true).unwrap().0,
            !a_value,
            "NOT failed for {a_value}"
        );
    }

    // All ADD / SUB pairs against the reference semantics.
    for delta in 0..=255_u8 {
        let (result, carry, _) = alu.evaluate(delta, 137, Add, true).unwrap();
        let total = u16::from(delta) + 137_u16;
        assert_eq!(result, (total & 0xFF) as u8);
        assert_eq!(carry, total > 0xFF);

        let (result, carry, _) = alu.evaluate(delta, 42, Sub, true).unwrap();
        assert_eq!(result, delta.wrapping_sub(42));
        assert_eq!(carry, delta >= 42);
    }
}

#[test]
fn test_sign_detector() {
    let mut detector = SignDetector8Bits::default();

    // Positive values: bit 7 Low.
    assert_eq!(detector.compute(&int_to_bits(0)).unwrap(), vec![Bit::Low]);
    assert_eq!(detector.compute(&int_to_bits(127)).unwrap(), vec![Bit::Low]);

    // Negative values (two's complement): bit 7 High.
    assert_eq!(
        detector.compute(&int_to_bits(128)).unwrap(),
        vec![Bit::High]
    );
    assert_eq!(
        detector.compute(&int_to_bits(255)).unwrap(),
        vec![Bit::High]
    );
}

#[test]
fn zero_detector_and_transistor_counts() {
    let mut detector = ZeroDetector8Bits::default();
    assert_eq!(detector.compute(&int_to_bits(0)), Ok(vec![Bit::High]));
    for value in [1, 16, 128, 255] {
        assert_eq!(detector.compute(&int_to_bits(value)), Ok(vec![Bit::Low]));
    }
    assert_eq!(Adder8Bits::default().transistor_count(), 400);
    assert_eq!(AluSap1::default().transistor_count(), 580);
    assert_eq!(AluSap2::default().transistor_count(), 1338);
    assert_eq!(SignDetector8Bits::default().transistor_count(), 1);
}

#[test]
fn sums_are_exact_with_the_carry_as_ninth_bit() {
    let mut adder = Adder8Bits::default();
    for (a, b, carry) in [(255, 255, Bit::High), (137, 118, Bit::High), (200, 55, Bit::Low)] {
        let mut inputs: Vec<Bit> = Vec::new();
        inputs.extend(int_to_bits(a));
        inputs.extend(int_to_bits(b));
        inputs.push(carry);
        let outputs = adder.compute(&inputs).expect("addition failed");
        let total = u16::from(a) + u16::from(b) + u16::from(bool::from(carry));
        assert_eq!(u16::from(bits_to_int(&outputs[0..8], false)), total & 0xFF);
        assert_eq!(outputs[8] == Bit::High, total > 0xFF);
    }
}

#[test]
fn a_silent_alu_keeps_its_result_off_the_bus() {
    let mut alu = AluSap2::default();
    assert_eq!(alu.evaluate(200, 100, Add, false), Ok((0, true, false)));
    assert_eq!(alu.evaluate(5, 5, Sub, false), Ok((0, true, true)));
}
