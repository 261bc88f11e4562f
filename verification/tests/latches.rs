use bitbybit::hardware::Bit::{High, Low};
use bitbybit::hardware::{Component, HardwareError, Propagate, Signal};
use bitbybit::latches::{
    DFlipFlop, DFlipFlopSave, DFlipFlopSaveLoad, DLatch, OneHotCounter6Bits, SRLatch,
};

#[test]
fn test_initial_state_is_reset() {
    assert_eq!(SRLatch::default().compute(&[Low, Low]), Ok(vec![Low, High]));
}

#[test]
fn test_set_then_hold() {
    let mut latch = SRLatch::default();
    assert_eq!(latch.compute(&[High, Low]), Ok(vec![High, Low]));
    assert_eq!(latch.compute(&[Low, Low]), Ok(vec![High, Low]));
}

#[test]
fn test_reset_then_hold() {
    let mut latch = SRLatch::default();
    latch.compute(&[High, Low]).expect("set failed");
    assert_eq!(latch.compute(&[Low, High]), Ok(vec![Low, High]));
    assert_eq!(latch.compute(&[Low, Low]), Ok(vec![Low, High]));
}

#[test]
fn test_set_and_reset_high_is_forbidden() {
    assert_eq!(
        SRLatch::default().conduct(&[Signal::from(High), Signal::from(High)]),
        Err(HardwareError::SrlatchForbiddenInput)
    );
}

#[test]
fn test_floating_input_is_rejected() {
    assert_eq!(
        SRLatch::default().conduct(&[Signal::HighImpedance, Signal::from(Low)]),
        Err(HardwareError::InvalidBit)
    );
}

#[test]
fn latches_test_transistor_count() {
    assert_eq!(SRLatch::default().transistor_count(), 8);
    assert_eq!(DLatch::default().transistor_count(), 22);
    assert_eq!(DFlipFlop::default().transistor_count(), 46);
    assert_eq!(DFlipFlopSave::default().transistor_count(), 66);
    assert_eq!(DFlipFlopSaveLoad::default().transistor_count(), 68);
    assert_eq!(OneHotCounter6Bits::default().transistor_count(), 276);
}

#[test]
fn test_follows_data_while_enabled_and_holds() {
    let mut latch = DLatch::default();

    let sequence = [
        ([Low, Low], [Low, High]),
        ([High, Low], [Low, High]),
        ([Low, High], [Low, High]),
        ([High, High], [High, Low]),
        ([Low, Low], [High, Low]),
        ([High, Low], [High, Low]),
        ([High, High], [High, Low]),
        ([Low, High], [Low, High]),
    ];

    for (inputs, expected) in sequence {
        assert_eq!(latch.compute(&inputs), Ok(expected.to_vec()));
    }
}

#[test]
fn test_updates_only_on_rising_edge() {
    let mut flip_flop = DFlipFlop::default();

    let sequence = [
        ([Low, Low], [Low, High]),
        ([High, Low], [Low, High]), // data prepared while clock is Low
        ([Low, Low], [Low, High]),
        ([Low, High], [Low, High]),  // rising edge with data 0
        ([High, High], [Low, High]), // no edge, no update
        ([High, Low], [Low, High]),
        ([High, High], [High, Low]), // rising edge with data 1
        ([Low, High], [High, Low]),
        ([Low, Low], [High, Low]),
        ([Low, High], [Low, High]),
    ];

    for (inputs, expected) in sequence {
        assert_eq!(flip_flop.compute(&inputs), Ok(expected.to_vec()));
    }
}

#[test]
fn test_save_low_never_writes() {
    let mut flip_flop = DFlipFlopSave::default();

    for data in [Low, High, Low, Low, High, High, Low, Low] {
        for clock in [Low, High] {
            assert_eq!(flip_flop.compute(&[data, clock, Low]), Ok(vec![Low, High]));
        }
    }
}

#[test]
fn test_save_high_behaves_like_a_flip_flop() {
    let mut flip_flop = DFlipFlopSave::default();

    let sequence = [
        ([Low, Low, High], [Low, High]),
        ([High, Low, High], [Low, High]),
        ([Low, Low, High], [Low, High]),
        ([Low, High, High], [Low, High]),
        ([High, High, High], [Low, High]),
        ([High, Low, High], [Low, High]),
        ([High, High, High], [High, Low]),
        ([Low, High, High], [High, Low]),
        ([Low, Low, High], [High, Low]),
        ([Low, High, High], [Low, High]),
    ];

    for (inputs, expected) in sequence {
        assert_eq!(flip_flop.compute(&inputs), Ok(expected.to_vec()));
    }
}

#[test]
fn latches_test_load_low_floats_the_outputs() {
    let outputs = DFlipFlopSaveLoad::default()
        .conduct(&[Signal::from(Low); 4])
        .expect("computation failed");

    assert_eq!(outputs, vec![Signal::HighImpedance; 2]);
}

#[test]
fn test_load_low_is_not_computable() {
    // `compute` requires every output to be driven.
    assert_eq!(
        DFlipFlopSaveLoad::default().compute(&[Low, Low, Low, Low]),
        Err(HardwareError::InvalidBit)
    );
}

#[test]
fn test_load_high_exposes_the_state() {
    let mut flip_flop = DFlipFlopSaveLoad::default();
    assert_eq!(
        flip_flop.compute(&[High, Low, High, High]),
        Ok(vec![Low, High])
    );
    assert_eq!(
        flip_flop.compute(&[High, High, High, High]),
        Ok(vec![High, Low])
    );
}

#[test]
fn test_initial_state() {
    assert_eq!(
        OneHotCounter6Bits::default().state(),
        [Low, Low, Low, Low, Low, High]
    );
}

#[test]
fn test_custom_initial_position() {
    assert_eq!(
        OneHotCounter6Bits::new(2).state(),
        [Low, Low, High, Low, Low, Low]
    );
}

#[test]
fn test_rotation() {
    let mut counter = OneHotCounter6Bits::default();

    let expected = [
        [High, Low, Low, Low, Low, Low],
        [Low, High, Low, Low, Low, Low],
        [Low, Low, High, Low, Low, Low],
        [Low, Low, Low, High, Low, Low],
        [Low, Low, Low, Low, High, Low],
        [Low, Low, Low, Low, Low, High],
        [High, Low, Low, Low, Low, Low],
    ];

    for state in expected {
        counter.compute(&[Low]).expect("clock Low failed");
        assert_eq!(counter.compute(&[High]), Ok(state.to_vec()));
    }
}

#[test]
fn a_refused_input_leaves_a_latch_alone() {
    let mut latch = SRLatch::default();
    latch.compute(&[High, Low]).expect("set failed");
    assert_eq!(
        latch.conduct(&[Signal::from(High), Signal::from(High)]),
        Err(HardwareError::SrlatchForbiddenInput)
    );
    assert_eq!(
        latch.conduct(&[Signal::from(Low), Signal::HighImpedance]),
        Err(HardwareError::InvalidBit)
    );
    assert_eq!((latch.q(), latch.q_bar()), (High, Low));
}

#[test]
fn a_disabled_latch_accepts_floating_data() {
    let mut latch = DLatch::default();
    assert_eq!(
        latch.conduct(&[Signal::HighImpedance, Signal::from(Low)]),
        Ok(vec![Signal::from(Low), Signal::from(High)])
    );
    assert_eq!(
        latch.conduct(&[Signal::HighImpedance, Signal::from(High)]),
        Err(HardwareError::InvalidBit)
    );
    assert_eq!((latch.q(), latch.q_bar()), (Low, High));
}

#[test]
fn the_ring_returns_after_six_edges() {
    let mut counter = OneHotCounter6Bits::new(4);
    let start = counter.state();
    for _ in 0..6 {
        counter.compute(&[Low]).expect("clock Low failed");
        counter.compute(&[High]).expect("clock High failed");
    }
    assert_eq!(counter.state(), start);
}
