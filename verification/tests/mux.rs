use bitbybit::hardware::Bit::{self, High, Low};
use bitbybit::hardware::{Component, HardwareError, Propagate, Signal};
use bitbybit::mux::{Mux2x1, Mux8bits2x1};

const A: [Bit; 8] = [Low, High, Low, High, Low, High, Low, High];

const B: [Bit; 8] = [High, Low, High, Low, High, Low, High, Low];

fn inputs(a: [Bit; 8], b: [Bit; 8], select: Bit) -> Vec<Bit> {
    a.into_iter()
        .chain(b)
        .chain(std::iter::once(select))
        .collect()
}

#[test]
fn mux_test_truth_table() {
    let mut mux = Mux2x1::default();

    for a in [Bit::Low, Bit::High] {
        for b in [Bit::Low, Bit::High] {
            for select in [Bit::Low, Bit::High] {
                let expected = if select == Bit::High { b } else { a };
                assert_eq!(mux.compute(&[a, b, select]), Ok(vec![expected]));
            }
        }
    }
}

#[test]
fn mux_test_rejects_wrong_input_count() {
    assert_eq!(
        Mux2x1::default().conduct(&[Signal::HighImpedance, Signal::HighImpedance]),
        Err(HardwareError::InvalidInputCount {
            expected: 3,
            actual: 2,
        })
    );
}

#[test]
fn test_rejects_wrong_input_count() {
    // `conduct_into` itself must reject every wrong length, never
    // panic on a slice index. (`conduct` pre-validates, so call the
    // raw entry point here.)
    let mut outputs = [Signal::HighImpedance; Mux8bits2x1::OUTPUTS];
    for length in [0, 1, 8, 16, 18] {
        let inputs = vec![Signal::HighImpedance; length];
        assert_eq!(
            Mux8bits2x1::default().conduct_into(&inputs, &mut outputs),
            Err(HardwareError::InvalidInputCount {
                expected: 17,
                actual: length,
            }),
            "length {length} must be rejected"
        );
    }

    let inputs = [Signal::HighImpedance; Mux8bits2x1::INPUTS];
    let mut small = [Signal::HighImpedance; Mux8bits2x1::OUTPUTS - 1];
    assert_eq!(
        Mux8bits2x1::default().conduct_into(&inputs, &mut small),
        Err(HardwareError::InvalidInputCount {
            expected: 8,
            actual: 7,
        })
    );
}

#[test]
fn mux_test_transistor_count() {
    assert_eq!(Mux2x1::default().transistor_count(), 20);
    assert_eq!(Mux8bits2x1::default().transistor_count(), 160);
}

#[test]
fn test_selects_a_when_low() {
    let outputs = Mux8bits2x1::default()
        .compute(&inputs(A, B, Bit::Low))
        .expect("Mux8bits2x1 computation failed");

    assert_eq!(outputs, A);
}

#[test]
fn test_selects_b_when_high() {
    let outputs = Mux8bits2x1::default()
        .compute(&inputs(A, B, Bit::High))
        .expect("Mux8bits2x1 computation failed");

    assert_eq!(outputs, B);
}

#[test]
fn a_floating_select_is_decided_by_two_low_inputs() {
    let low = Signal::Driven(Low);
    let high = Signal::Driven(High);
    let floating = Signal::HighImpedance;

    assert_eq!(Mux2x1::default().conduct(&[low, low, floating]), Ok(vec![low]));
    assert_eq!(
        Mux2x1::default().conduct(&[high, high, floating]),
        Ok(vec![floating])
    );
    // An unselected input may float.
    assert_eq!(
        Mux2x1::default().conduct(&[floating, high, high]),
        Ok(vec![high])
    );
}
