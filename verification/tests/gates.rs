use bitbybit::gates::{AndGate, NandGate, NorGate, NotGate, OrGate, XnorGate, XorGate};
use bitbybit::hardware::{Bit, Component, HardwareError, Propagate, Signal};

#[test]
fn test_not() {
    let mut gate = NotGate::default();
    assert_eq!(gate.compute(&[Bit::Low]), Ok(vec![Bit::High]));
    assert_eq!(gate.compute(&[Bit::High]), Ok(vec![Bit::Low]));
    assert_eq!(gate.transistor_count(), 2);
}

#[test]
fn test_nand() {
    let mut gate = NandGate::default();
    assert_eq!(gate.compute(&[Bit::Low, Bit::Low]), Ok(vec![Bit::High]));
    assert_eq!(gate.compute(&[Bit::Low, Bit::High]), Ok(vec![Bit::High]));
    assert_eq!(gate.compute(&[Bit::High, Bit::Low]), Ok(vec![Bit::High]));
    assert_eq!(gate.compute(&[Bit::High, Bit::High]), Ok(vec![Bit::Low]));
    assert_eq!(gate.transistor_count(), 4);
}

#[test]
fn test_nor() {
    let mut gate = NorGate::default();
    assert_eq!(gate.compute(&[Bit::Low, Bit::Low]), Ok(vec![Bit::High]));
    assert_eq!(gate.compute(&[Bit::Low, Bit::High]), Ok(vec![Bit::Low]));
    assert_eq!(gate.compute(&[Bit::High, Bit::Low]), Ok(vec![Bit::Low]));
    assert_eq!(gate.compute(&[Bit::High, Bit::High]), Ok(vec![Bit::Low]));
    assert_eq!(gate.transistor_count(), 4);
}

#[test]
fn test_and() {
    let mut gate = AndGate::default();
    assert_eq!(gate.compute(&[Bit::Low, Bit::Low]), Ok(vec![Bit::Low]));
    assert_eq!(gate.compute(&[Bit::Low, Bit::High]), Ok(vec![Bit::Low]));
    assert_eq!(gate.compute(&[Bit::High, Bit::Low]), Ok(vec![Bit::Low]));
    assert_eq!(gate.compute(&[Bit::High, Bit::High]), Ok(vec![Bit::High]));
    assert_eq!(gate.transistor_count(), 6);
}

#[test]
fn test_or() {
    let mut gate = OrGate::default();
    assert_eq!(gate.compute(&[Bit::Low, Bit::Low]), Ok(vec![Bit::Low]));
    assert_eq!(gate.compute(&[Bit::Low, Bit::High]), Ok(vec![Bit::High]));
    assert_eq!(gate.compute(&[Bit::High, Bit::Low]), Ok(vec![Bit::High]));
    assert_eq!(gate.compute(&[Bit::High, Bit::High]), Ok(vec![Bit::High]));
    assert_eq!(gate.transistor_count(), 6);
}

#[test]
fn test_xor() {
    let mut gate = XorGate::default();
    assert_eq!(gate.compute(&[Bit::Low, Bit::Low]), Ok(vec![Bit::Low]));
    assert_eq!(gate.compute(&[Bit::Low, Bit::High]), Ok(vec![Bit::High]));
    assert_eq!(gate.compute(&[Bit::High, Bit::Low]), Ok(vec![Bit::High]));
    assert_eq!(gate.compute(&[Bit::High, Bit::High]), Ok(vec![Bit::Low]));
    assert_eq!(gate.transistor_count(), 16);
}

#[test]
fn test_xnor() {
    let mut gate = XnorGate::default();
    assert_eq!(gate.compute(&[Bit::Low, Bit::Low]), Ok(vec![Bit::High]));
    assert_eq!(gate.compute(&[Bit::Low, Bit::High]), Ok(vec![Bit::Low]));
    assert_eq!(gate.compute(&[Bit::High, Bit::Low]), Ok(vec![Bit::Low]));
    assert_eq!(gate.compute(&[Bit::High, Bit::High]), Ok(vec![Bit::High]));
    assert_eq!(gate.transistor_count(), 18);
}

#[test]
fn a_deciding_input_settles_a_gate_with_a_floating_one() {
    let high = Signal::Driven(Bit::High);
    let low = Signal::Driven(Bit::Low);
    let floating = Signal::HighImpedance;

    assert_eq!(AndGate::default().conduct(&[low, floating]), Ok(vec![low]));
    assert_eq!(
        AndGate::default().conduct(&[floating, high]),
        Ok(vec![floating])
    );
    assert_eq!(OrGate::default().conduct(&[floating, high]), Ok(vec![high]));
    assert_eq!(
        OrGate::default().conduct(&[low, floating]),
        Ok(vec![floating])
    );
    assert_eq!(NandGate::default().conduct(&[low, floating]), Ok(vec![high]));
    assert_eq!(NorGate::default().conduct(&[floating, high]), Ok(vec![low]));
    assert_eq!(
        XorGate::default().conduct(&[high, floating]),
        Ok(vec![floating])
    );
    assert_eq!(
        XnorGate::default().conduct(&[floating, low]),
        Ok(vec![floating])
    );
    assert_eq!(NotGate::default().conduct(&[floating]), Ok(vec![floating]));
}

#[test]
fn gates_refuse_wrong_input_counts() {
    assert_eq!(
        NotGate::default().compute(&[Bit::Low, Bit::Low]),
        Err(HardwareError::InvalidInputCount {
            expected: 1,
            actual: 2,
        })
    );
    assert_eq!(
        XorGate::default().compute(&[Bit::Low]),
        Err(HardwareError::InvalidInputCount {
            expected: 2,
            actual: 1,
        })
    );
}
