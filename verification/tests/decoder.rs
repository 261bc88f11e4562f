use bitbybit::decoder::{Decoder2to4, Decoder4to16};
use bitbybit::hardware::{Bit, Component, HardwareError, Propagate, Signal};

#[test]
fn decoder_test_truth_table() {
    let mut decoder = Decoder2to4::default();

    let expected = [
        [Bit::High, Bit::Low, Bit::Low, Bit::Low],
        [Bit::Low, Bit::High, Bit::Low, Bit::Low],
        [Bit::Low, Bit::Low, Bit::High, Bit::Low],
        [Bit::Low, Bit::Low, Bit::Low, Bit::High],
    ];

    for (a_index, a) in [Bit::Low, Bit::High].iter().enumerate() {
        for (b_index, b) in [Bit::Low, Bit::High].iter().enumerate() {
            assert_eq!(
                decoder.compute(&[*a, *b]),
                Ok(expected[2 * a_index + b_index].to_vec())
            );
        }
    }
}

#[test]
fn decoder_test_transistor_count() {
    assert_eq!(Decoder2to4::default().transistor_count(), 28);
    assert_eq!(Decoder4to16::default().transistor_count(), 152);
}

#[test]
fn test_activates_exactly_one_line() {
    let mut decoder = Decoder4to16::default();

    for value in 0u8..16 {
        let bits: Vec<Bit> = (0..4)
            .map(|index| {
                if (value >> index) & 1 == 1 {
                    Bit::High
                } else {
                    Bit::Low
                }
            })
            .collect();

        let outputs = decoder
            .compute(&bits)
            .expect("Decoder4to16 computation failed");

        assert_eq!(outputs[value as usize], Bit::High);
        assert_eq!(
            outputs
                .iter()
                .filter(|output| **output == Bit::High)
                .count(),
            1
        );
    }
}

#[test]
fn test_rejects_inputs_not_4_bits_long() {
    let mut decoder = Decoder4to16::default();

    assert_eq!(
        decoder.conduct(&[Signal::HighImpedance; 3]),
        Err(HardwareError::InvalidInputCount {
            expected: 4,
            actual: 3,
        })
    );

    assert_eq!(
        decoder.conduct(&[Signal::HighImpedance; 5]),
        Err(HardwareError::InvalidInputCount {
            expected: 4,
            actual: 5,
        })
    );
}

#[test]
fn a_floating_input_raises_no_line() {
    let mut inputs = [Signal::Driven(Bit::High); 4];
    inputs[2] = Signal::HighImpedance;
    let outputs = Decoder4to16::default()
        .conduct(&inputs)
        .expect("conduct failed");
    assert!(outputs
        .iter()
        .all(|line| *line != Signal::Driven(Bit::High)));
}
