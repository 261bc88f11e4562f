use bitbybit::hardware::{
    bus8, stabilize, wire, Bit, Component, HardwareError, Nmos, Pmos, Propagate, Signal,
};

#[test]
fn test_pmos_conduct() {
    let mut pmos = Pmos;

    // Gate Low: PMOS is ON.
    assert_eq!(
        pmos.conduct(&[Signal::Driven(Bit::Low), Signal::Driven(Bit::High)]),
        Ok(vec![Signal::Driven(Bit::High)])
    );

    assert_eq!(
        pmos.conduct(&[Signal::Driven(Bit::Low), Signal::Driven(Bit::Low)]),
        Ok(vec![Signal::Driven(Bit::Low)])
    );

    assert_eq!(
        pmos.conduct(&[Signal::Driven(Bit::Low), Signal::HighImpedance]),
        Ok(vec![Signal::HighImpedance])
    );

    // Gate High: PMOS is OFF.
    assert_eq!(
        pmos.conduct(&[Signal::Driven(Bit::High), Signal::Driven(Bit::High)]),
        Ok(vec![Signal::HighImpedance])
    );

    assert_eq!(
        pmos.conduct(&[Signal::Driven(Bit::High), Signal::Driven(Bit::Low)]),
        Ok(vec![Signal::HighImpedance])
    );

    assert_eq!(
        pmos.conduct(&[Signal::Driven(Bit::High), Signal::HighImpedance]),
        Ok(vec![Signal::HighImpedance])
    );

    // Floating gate: PMOS is OFF.
    assert_eq!(
        pmos.conduct(&[Signal::HighImpedance, Signal::Driven(Bit::High)]),
        Ok(vec![Signal::HighImpedance])
    );
}

#[test]
fn test_pmos_compute() {
    let mut pmos = Pmos;

    assert_eq!(pmos.compute(&[Bit::Low, Bit::Low]), Ok(vec![Bit::Low]));
    assert_eq!(pmos.compute(&[Bit::Low, Bit::High]), Ok(vec![Bit::High]));

    assert_eq!(pmos.transistor_count(), 1);
}

#[test]
fn test_nmos_conduct() {
    let mut nmos = Nmos;

    // Gate Low: NMOS is OFF.
    assert_eq!(
        nmos.conduct(&[Signal::Driven(Bit::Low), Signal::Driven(Bit::High)]),
        Ok(vec![Signal::HighImpedance])
    );

    assert_eq!(
        nmos.conduct(&[Signal::Driven(Bit::Low), Signal::Driven(Bit::Low)]),
        Ok(vec![Signal::HighImpedance])
    );

    assert_eq!(
        nmos.conduct(&[Signal::Driven(Bit::Low), Signal::HighImpedance]),
        Ok(vec![Signal::HighImpedance])
    );

    // Gate High: NMOS is ON.
    assert_eq!(
        nmos.conduct(&[Signal::Driven(Bit::High), Signal::Driven(Bit::High)]),
        Ok(vec![Signal::Driven(Bit::High)])
    );

    assert_eq!(
        nmos.conduct(&[Signal::Driven(Bit::High), Signal::Driven(Bit::Low)]),
        Ok(vec![Signal::Driven(Bit::Low)])
    );

    assert_eq!(
        nmos.conduct(&[Signal::Driven(Bit::High), Signal::HighImpedance]),
        Ok(vec![Signal::HighImpedance])
    );

    // Floating gate: NMOS is OFF.
    assert_eq!(
        nmos.conduct(&[Signal::HighImpedance, Signal::Driven(Bit::High)]),
        Ok(vec![Signal::HighImpedance])
    );
}

#[test]
fn test_nmos_compute() {
    let mut nmos = Nmos;

    assert_eq!(
        nmos.compute(&[Bit::Low, Bit::Low]),
        Err(HardwareError::InvalidBit),
    );

    assert_eq!(
        nmos.compute(&[Bit::Low, Bit::High]),
        Err(HardwareError::InvalidBit)
    );

    assert_eq!(nmos.compute(&[Bit::High, Bit::Low]), Ok(vec![Bit::Low]));
    assert_eq!(nmos.compute(&[Bit::High, Bit::High]), Ok(vec![Bit::High]));

    assert_eq!(nmos.transistor_count(), 1);
}

#[test]
fn test_empty_wire() {
    assert_eq!(wire(&[]), Ok(Signal::HighImpedance));
}

#[test]
fn test_wire_only_high_impedance() {
    assert_eq!(
        wire(&[Signal::HighImpedance, Signal::HighImpedance,]),
        Ok(Signal::HighImpedance)
    );
}

#[test]
fn test_wire_single_low_driver() {
    assert_eq!(
        wire(&[Signal::Driven(Bit::Low), Signal::HighImpedance,]),
        Ok(Signal::Driven(Bit::Low))
    );
}

#[test]
fn test_wire_single_high_driver() {
    assert_eq!(
        wire(&[Signal::Driven(Bit::High), Signal::HighImpedance,]),
        Ok(Signal::Driven(Bit::High))
    );
}

#[test]
fn test_wire_multiple_low_drivers() {
    assert_eq!(
        wire(&[Signal::Driven(Bit::Low), Signal::Driven(Bit::Low),]),
        Ok(Signal::Driven(Bit::Low))
    );
}

#[test]
fn test_wire_multiple_high_drivers() {
    assert_eq!(
        wire(&[Signal::Driven(Bit::High), Signal::Driven(Bit::High),]),
        Ok(Signal::Driven(Bit::High))
    );
}

#[test]
fn test_wire_low_high_conflict() {
    assert_eq!(
        wire(&[Signal::Driven(Bit::Low), Signal::Driven(Bit::High),]),
        Err(HardwareError::ShortCircuit {
            first: Bit::Low,
            second: Bit::High,
        })
    );
}

#[test]
fn test_wire_high_low_conflict() {
    assert_eq!(
        wire(&[Signal::Driven(Bit::High), Signal::Driven(Bit::Low),]),
        Err(HardwareError::ShortCircuit {
            first: Bit::High,
            second: Bit::Low,
        })
    );
}

#[test]
fn test_wire_with_multiple_high_impedance() {
    assert_eq!(
        wire(&[
            Signal::HighImpedance,
            Signal::Driven(Bit::Low),
            Signal::HighImpedance,
            Signal::Driven(Bit::Low),
            Signal::HighImpedance,
        ]),
        Ok(Signal::Driven(Bit::Low))
    );
}

#[test]
fn test_wire_works_with_iterator() {
    let signals = vec![
        Signal::HighImpedance,
        Signal::Driven(Bit::High),
        Signal::HighImpedance,
        Signal::Driven(Bit::High),
    ];

    assert_eq!(wire(&signals), Ok(Signal::Driven(Bit::High)));
}

#[test]
fn test_wire_detects_conflict_after_high_impedance() {
    assert_eq!(
        wire(&[
            Signal::HighImpedance,
            Signal::Driven(Bit::Low),
            Signal::HighImpedance,
            Signal::Driven(Bit::High),
        ]),
        Err(HardwareError::ShortCircuit {
            first: Bit::Low,
            second: Bit::High,
        })
    );
}

#[test]
fn test_bus8_no_bus_floats() {
    assert_eq!(bus8(&[]), Ok([Signal::HighImpedance; 8]));
}

#[test]
fn test_bus8_merges_drivers() {
    let bus_a = [
        Signal::Driven(Bit::High),
        Signal::HighImpedance,
        Signal::HighImpedance,
        Signal::Driven(Bit::Low),
        Signal::HighImpedance,
        Signal::HighImpedance,
        Signal::HighImpedance,
        Signal::HighImpedance,
    ];
    let bus_b = [
        Signal::HighImpedance,
        Signal::Driven(Bit::Low),
        Signal::HighImpedance,
        Signal::HighImpedance,
        Signal::HighImpedance,
        Signal::HighImpedance,
        Signal::Driven(Bit::High),
        Signal::HighImpedance,
    ];

    assert_eq!(
        bus8(&[bus_a, bus_b]),
        Ok([
            Signal::Driven(Bit::High),
            Signal::Driven(Bit::Low),
            Signal::HighImpedance,
            Signal::Driven(Bit::Low),
            Signal::HighImpedance,
            Signal::HighImpedance,
            Signal::Driven(Bit::High),
            Signal::HighImpedance,
        ])
    );
}

#[test]
fn test_bus8_detects_conflicts() {
    let bus_a = [Signal::Driven(Bit::Low); 8];
    let bus_b = [Signal::Driven(Bit::High); 8];

    assert_eq!(
        bus8(&[bus_a, bus_b]),
        Err(HardwareError::ShortCircuit {
            first: Bit::Low,
            second: Bit::High,
        })
    );
}

#[test]
fn test_converges() {
    let mut state = false;

    let outcome = stabilize(&mut state, |_| true, 10);

    assert_eq!(outcome, Ok(()));
    assert!(state);
}

#[test]
fn test_already_stable() {
    // The circuit does not evolve at all.
    let mut state = 42;
    let outcome = stabilize(&mut state, |value: i32| value, 10);

    assert_eq!(outcome, Ok(()));
}

#[test]
fn test_oscillating_circuit_is_rejected() {
    let mut state = false;

    let outcome = stabilize(&mut state, |value: bool| !value, 10);

    assert_eq!(
        outcome,
        Err(HardwareError::UnstableCircuit { iterations: 10 })
    );
}

#[test]
fn conversions_between_bits_and_signals() {
    assert_eq!(Signal::from(Bit::High), Signal::Driven(Bit::High));
    assert_eq!(Bit::try_from(Signal::Driven(Bit::Low)), Ok(Bit::Low));
    assert_eq!(
        Bit::try_from(Signal::HighImpedance),
        Err(HardwareError::InvalidBit)
    );
    assert!(bool::from(Bit::High));
    assert!(!bool::from(Bit::Low));
    assert_eq!(Bit::default(), Bit::Low);
}

#[test]
fn wrong_input_counts_are_reported() {
    let expected = HardwareError::InvalidInputCount {
        expected: 2,
        actual: 3,
    };
    let mut pmos = Pmos;
    assert_eq!(pmos.conduct(&[Signal::HighImpedance; 3]), Err(expected));
    assert_eq!(pmos.compute(&[Bit::Low; 3]), Err(expected));
    let mut outputs = [Signal::Driven(Bit::High)];
    assert_eq!(
        pmos.conduct_into(&[Signal::HighImpedance; 3], &mut outputs),
        Err(expected)
    );
    assert_eq!(outputs, [Signal::Driven(Bit::High)]);
}

#[test]
fn a_wire_reports_its_first_conflict() {
    assert_eq!(
        wire(&[
            Signal::Driven(Bit::High),
            Signal::HighImpedance,
            Signal::Driven(Bit::Low),
            Signal::Driven(Bit::High),
        ]),
        Err(HardwareError::ShortCircuit {
            first: Bit::High,
            second: Bit::Low,
        })
    );
}

#[test]
fn a_single_driver_owns_the_bus() {
    let floating = [Signal::HighImpedance; 8];
    let byte = [
        Signal::Driven(Bit::High),
        Signal::Driven(Bit::Low),
        Signal::Driven(Bit::High),
        Signal::Driven(Bit::High),
        Signal::Driven(Bit::Low),
        Signal::Driven(Bit::Low),
        Signal::Driven(Bit::Low),
        Signal::Driven(Bit::High),
    ];
    assert_eq!(bus8(&[floating, byte, floating]), Ok(byte));
    assert_eq!(bus8(&[floating, floating]), Ok(floating));
}

#[test]
fn settling_takes_one_update_more_than_it_changes() {
    // 0, 1, 2, 3, 3: three updates change the state, the fourth does not.
    let climb = |value: u8| if value < 3 { value + 1 } else { value };

    let mut state = 0;
    assert_eq!(stabilize(&mut state, climb, 4), Ok(()));
    assert_eq!(state, 3);

    let mut state = 0;
    assert_eq!(
        stabilize(&mut state, climb, 3),
        Err(HardwareError::UnstableCircuit { iterations: 3 })
    );
    assert_eq!(state, 3);
}
