use bitbybit::decoder::Decoder4to16;
use bitbybit::hardware::Bit::{self, High, Low};
use bitbybit::hardware::{Component, HardwareError, Propagate, Signal};
use bitbybit::memory::{
    FlagsRegister, InputPort, MemoryAddressRegister16Bits, OutputRegister, ProgramCounter16Bits,
    ProgramCounter4Bits, Ram256Bits, Ram64KBits, Register8Bits, StackPointer16Bits, RAM64K_CHIPS,
};

/// Bank lines of the 64 KiB array.
const RAM64K_BANKS: usize = 256;

fn signals(bits: &[Bit]) -> Vec<Signal> {
    bits.iter().copied().map(Signal::from).collect()
}

const DATA: [Bit; 8] = [High, Low, High, Low, High, Low, High, Low];

fn register_inputs(data: [Bit; 8], clock: Bit, save: Bit, load: Bit) -> Vec<Bit> {
    data.into_iter().chain([clock, save, load]).collect()
}

fn pc_inputs(data: [Bit; 4], clock: Bit, save: Bit, load: Bit) -> Vec<Bit> {
    data.into_iter().chain([clock, save, load]).collect()
}

const DATA_A: [Bit; 8] = [High, Low, High, Low, High, Low, High, Low];

const DATA_B: [Bit; 8] = [Low, High, Low, High, Low, High, Low, High];

fn chip_inputs(data: [Bit; 8], address: [Bit; 4], clock: Bit, save: Bit, load: Bit) -> Vec<Bit> {
    data.into_iter()
        .chain(address)
        .chain([clock, save, load])
        .collect()
}

/// Address, LSB first.
fn address_bits(address: usize) -> Vec<Bit> {
    (0..16)
        .map(|index| {
            if (address >> index) & 1 == 1 {
                High
            } else {
                Low
            }
        })
        .collect()
}

fn ram_inputs(data: [Bit; 8], address: usize, clock: Bit, save: Bit, load: Bit) -> Vec<Bit> {
    data.into_iter()
        .chain(address_bits(address))
        .chain([clock, save, load])
        .collect()
}

/// A set of addresses covering the corners of the space: first and
/// last registers of the first and last chips, both sides of a
/// chip boundary, both sides of a bank boundary, and the very last
/// byte.
const SAMPLED_ADDRESSES: [usize; 8] = [
    0, 15, 16, 271,  // 0x10F: last register of chip 16
    4095, // 0xFFF: last byte of bank 0
    4096, // 0x1000: first byte of bank 1
    0xAA55, 65535,
];

/// One clock pulse of the flags register.
fn flag_pulse(flags: &mut FlagsRegister, z: Bit, c: Bit, s: Bit, save: Bit) {
    let mut run = |clock: Bit| {
        let mut out = [Signal::HighImpedance; 3];
        flags.conduct_into(
            &[
                Signal::from(z),
                Signal::from(c),
                Signal::from(s),
                Signal::from(clock),
                Signal::from(save),
            ],
            &mut out,
        )
    };
    run(Low).expect("low tick failed");
    run(High).expect("high tick failed");
    run(Low).expect("settle tick failed");
}

/// `data` on the data bus, zeros on the address bus, per-half saves plus
/// the 16-bit load.
fn mar_run(
    mar: &mut MemoryAddressRegister16Bits,
    clock: Bit,
    data: u8,
    save_low: Bit,
    save_high: Bit,
    load16: Bit,
) -> Result<Vec<Signal>, HardwareError> {
    let data_bits: Vec<Bit> = (0..8)
        .map(|i| if (data >> i) & 1 == 1 { High } else { Low })
        .collect();
    mar.conduct(&signals(
        &data_bits
            .into_iter()
            .chain([Low; 16])
            .chain([clock, save_low, save_high, load16, High])
            .collect::<Vec<Bit>>(),
    ))
}

fn pulse_clock(mut conduct_fn: impl FnMut(Bit) -> Result<Vec<Signal>, HardwareError>) {
    conduct_fn(Low).expect("low tick failed");
    conduct_fn(High).expect("high tick failed");
    conduct_fn(Low).expect("settle tick failed");
}

fn to_int(bits: &[Bit]) -> usize {
    bits.iter().enumerate().fold(0, |acc, (index, bit)| {
        acc | (u32::from(*bit == High) << index) as usize
    })
}

fn pc_pulse(pc: &mut ProgramCounter16Bits, data: u8, count: Bit, save_low: Bit, save_high: Bit) {
    let mut run = |clock: Bit| {
        let data_bits: Vec<Bit> = (0..8)
            .map(|i| if (data >> i) & 1 == 1 { High } else { Low })
            .collect();
        pc.conduct(&signals(
            &data_bits
                .into_iter()
                .chain([Low; 16]) // address bus input
                .chain([clock, count, Low, save_low, save_high, High, Low, Low])
                .collect::<Vec<Bit>>(),
        ))
    };

    run(Low).expect("low tick failed");
    run(High).expect("high tick failed");
    run(Low).expect("settle tick failed");
}

/// One propagation of the output register with 0x5A on its inputs.
fn output_tick(
    out: &mut OutputRegister,
    clock: Bit,
    save: Bit,
) -> Result<Vec<Signal>, HardwareError> {
    out.conduct(&signals(&[
        Low, High, Low, High, High, Low, High, Low, clock, save,
    ]))
}

fn sp_pulse(
    sp: &mut StackPointer16Bits,
    data: u8,
    count_up: Bit,
    count_down: Bit,
    save_low: Bit,
    save_high: Bit,
) {
    let mut run = |clock: Bit| {
        let data_bits: Vec<Bit> = (0..8)
            .map(|i| if (data >> i) & 1 == 1 { High } else { Low })
            .collect();
        sp.conduct(&signals(
            &data_bits
                .into_iter()
                .chain([clock, count_up, count_down, save_low, save_high, Low])
                .collect::<Vec<Bit>>(),
        ))
    };

    run(Low).expect("low tick failed");
    run(High).expect("high tick failed");
    run(Low).expect("settle tick failed");
}

#[test]
fn test_write_and_read_sequence() {
    let mut register = Register8Bits::default();

    assert_eq!(
        register.compute(&register_inputs([Low; 8], Low, Low, High)),
        Ok(vec![Low; 8])
    );

    // clock LOW: nothing written
    assert_eq!(
        register.compute(&register_inputs(DATA, Low, Low, High)),
        Ok(vec![Low; 8])
    );
    assert_eq!(
        register.compute(&register_inputs(DATA, High, Low, High)),
        Ok(vec![Low; 8])
    );
    assert_eq!(
        register.compute(&register_inputs(DATA, Low, Low, High)),
        Ok(vec![Low; 8])
    );

    // save LOW: nothing written even on a rising edge
    assert_eq!(
        register.compute(&register_inputs(DATA, High, Low, High)),
        Ok(vec![Low; 8])
    );
    assert_eq!(
        register.compute(&register_inputs(DATA, Low, Low, High)),
        Ok(vec![Low; 8])
    );

    // rising edge with save HIGH
    assert_eq!(
        register.compute(&register_inputs(DATA, High, High, High)),
        Ok(DATA.to_vec())
    );

    // the value is kept
    assert_eq!(
        register.compute(&register_inputs(DATA, Low, Low, High)),
        Ok(DATA.to_vec())
    );
    assert_eq!(
        register.compute(&register_inputs(DATA, Low, High, High)),
        Ok(DATA.to_vec())
    );

    // load LOW floats the outputs
    assert_eq!(
        register.conduct(&signals(&register_inputs(DATA, Low, High, Low))),
        Ok(vec![Signal::HighImpedance; 8])
    );
}

#[test]
fn memory_test_state() {
    let mut register = Register8Bits::default();
    assert_eq!(register.state(), [Low; 8]);

    let data = [High, High, Low, Low, High, Low, High, Low];

    register
        .compute(&register_inputs(data, Low, High, High))
        .expect("computation failed");
    register
        .compute(&register_inputs(data, High, High, High))
        .expect("computation failed");

    assert_eq!(register.state(), data);
}

#[test]
fn test_state() {
    let mut ram = Ram256Bits::default();

    ram.conduct(&signals(&chip_inputs(DATA_A, [Low; 4], Low, High, Low)))
        .expect("write failed");
    ram.conduct(&signals(&chip_inputs(DATA_A, [Low; 4], High, High, Low)))
        .expect("write failed");

    assert_eq!(ram.state()[0], DATA_A);
    assert_eq!(ram.state()[1], [Low; 8]);
}

#[test]
fn memory_test_transistor_count() {
    assert_eq!(Register8Bits::default().transistor_count(), 544);
    // 544 + 400 + 2 x 160 + 4 = 1268.
    assert_eq!(ProgramCounter4Bits::default().transistor_count(), 1268);
    assert_eq!(Ram256Bits::default().transistor_count(), 9048);

    // 4096 Ram256Bits chips + 3 decoders + one AND per bank line and
    // three ANDs per chip (select, save, load).
    let expected = RAM64K_CHIPS * Ram256Bits::default().transistor_count()
        + 3 * Decoder4to16::default().transistor_count()
        + 6 * (RAM64K_BANKS + 3 * RAM64K_CHIPS);
    assert_eq!(Ram64KBits::default().transistor_count(), expected);
}

#[test]
fn test_count_load_and_wrap_sequence() {
    let mut counter = ProgramCounter4Bits::default();

    assert_eq!(
        counter.compute(&pc_inputs([Low; 4], Low, Low, High)),
        Ok(vec![Low; 4])
    );

    // increment
    assert_eq!(
        counter.compute(&pc_inputs([Low; 4], High, Low, High)),
        Ok(vec![High, Low, Low, Low])
    );

    // no edge
    assert_eq!(
        counter.compute(&pc_inputs([Low; 4], Low, Low, High)),
        Ok(vec![High, Low, Low, Low])
    );

    assert_eq!(
        counter.compute(&pc_inputs([High; 4], High, High, High)),
        Ok(vec![Low, High, Low, Low])
    );
    assert_eq!(
        counter.compute(&pc_inputs([High; 4], Low, High, High)),
        Ok(vec![Low, High, Low, Low])
    );

    // load 15 (captured by the master latch, then by the slave on
    // the edge)
    assert_eq!(
        counter.compute(&pc_inputs([Low; 4], High, High, High)),
        Ok(vec![High; 4])
    );
    assert_eq!(
        counter.compute(&pc_inputs([Low; 4], Low, Low, High)),
        Ok(vec![High; 4])
    );

    // 15 + 1 wraps
    assert_eq!(
        counter.compute(&pc_inputs([Low; 4], High, Low, High)),
        Ok(vec![Low; 4])
    );
    assert_eq!(
        counter.compute(&pc_inputs([Low; 4], Low, Low, High)),
        Ok(vec![Low; 4])
    );
    assert_eq!(
        counter.compute(&pc_inputs([Low; 4], High, Low, High)),
        Ok(vec![High, Low, Low, Low])
    );
}

#[test]
fn memory_test_load_low_floats_the_outputs() {
    let mut counter = ProgramCounter4Bits::default();

    assert_eq!(
        counter.conduct(&signals(&pc_inputs([Low, Low, Low, High], Low, Low, Low))),
        Ok(vec![Signal::HighImpedance; 4])
    );
    assert_eq!(
        counter.conduct(&signals(&pc_inputs([Low, Low, Low, High], High, Low, Low))),
        Ok(vec![Signal::HighImpedance; 4])
    );
}

#[test]
fn test_write_and_read_back() {
    let mut ram = Ram256Bits::default();

    // Write at address 0 with a LOW->HIGH clock sequence.
    ram.conduct(&signals(&chip_inputs(DATA_A, [Low; 4], Low, High, Low)))
        .expect("write failed");
    ram.conduct(&signals(&chip_inputs(DATA_A, [Low; 4], High, High, Low)))
        .expect("write failed");
    assert_eq!(
        ram.compute(&chip_inputs([Low; 8], [Low; 4], Low, Low, High)),
        Ok(DATA_A.to_vec())
    );

    // Write at address 3: address bits LSB-first (1, 1, 0, 0).
    ram.conduct(&signals(&chip_inputs(
        DATA_B,
        [High, High, Low, Low],
        Low,
        High,
        Low,
    )))
    .expect("write failed");
    ram.conduct(&signals(&chip_inputs(
        DATA_B,
        [High, High, Low, Low],
        High,
        High,
        Low,
    )))
    .expect("write failed");
    assert_eq!(
        ram.compute(&chip_inputs(
            [Low; 8],
            [High, High, Low, Low],
            Low,
            Low,
            High
        )),
        Ok(DATA_B.to_vec())
    );

    // The first cell is unchanged.
    assert_eq!(
        ram.compute(&chip_inputs([Low; 8], [Low; 4], Low, Low, High)),
        Ok(DATA_A.to_vec())
    );

    // Never-written cells read as zero.
    assert_eq!(
        ram.compute(&chip_inputs([Low; 8], [Low, Low, High, Low], Low, Low, High)),
        Ok(vec![Low; 8])
    );
}

#[test]
fn memory_test_load_low_floats_the_bus() {
    let outputs = Ram256Bits::default()
        .conduct(&signals(&chip_inputs([High; 8], [Low; 4], Low, Low, Low)))
        .expect("computation failed");

    assert_eq!(outputs, vec![Signal::HighImpedance; 8]);
}

#[test]
fn test_load_low_floats_the_bus() {
    let mut ram = Ram64KBits::default();
    ram.write_byte(42, [High; 8]).expect("write failed");

    let outputs = ram
        .conduct(&signals(&ram_inputs([High; 8], 42, Low, Low, Low)))
        .expect("computation failed");

    assert_eq!(outputs, vec![Signal::HighImpedance; 8]);
}

#[test]
fn test_write_byte_and_read_back() {
    let mut ram = Ram64KBits::default();

    for (index, &address) in SAMPLED_ADDRESSES.iter().enumerate() {
        let data = [(index as u8) | 0x10; 8].map(|byte| if byte & 1 == 1 { High } else { Low });
        ram.write_byte(address, data).expect("write failed");
        assert_eq!(ram.state(address), data, "read back failed at {address}");
    }

    // An untouched address still reads zero.
    assert_eq!(ram.state(1234), [Low; 8]);
}

#[test]
fn test_conduct_write_and_read_back() {
    let mut ram = Ram64KBits::default();
    let data = [High, Low, High, High, Low, Low, High, Low];
    let address = 0x1234; // bank 0x12, chip 3, register 4

    // Write with a LOW->HIGH->LOW clock sequence.
    ram.conduct(&signals(&ram_inputs(data, address, Low, High, Low)))
        .expect("write failed");
    ram.conduct(&signals(&ram_inputs(data, address, High, High, Low)))
        .expect("write failed");
    ram.conduct(&signals(&ram_inputs(data, address, Low, Low, Low)))
        .expect("write failed");

    // Read back through the bus.
    let read = ram
        .compute(&ram_inputs([Low; 8], address, Low, Low, High))
        .expect("read failed");
    assert_eq!(read, data.to_vec());
    assert_eq!(ram.state(address), data);
}

#[test]
fn test_read_only_selected_chip_drives() {
    let mut ram = Ram64KBits::default();
    let data = [High; 8];

    ram.write_byte(0x0100, data).expect("write failed");

    // Reading a neighbouring address yields zero, not the stored
    // byte: only the selected chip drives the bus.
    let read = ram
        .compute(&ram_inputs([Low; 8], 0x0101, Low, Low, High))
        .expect("read failed");
    assert_eq!(read, vec![Low; 8]);

    let read = ram
        .compute(&ram_inputs([Low; 8], 0x0100, Low, Low, High))
        .expect("read failed");
    assert_eq!(read, data.to_vec());
}

#[test]
fn memory_test_rejects_wrong_input_count() {
    let mut ram = Ram64KBits::default();

    assert_eq!(
        ram.conduct(&[Signal::HighImpedance; 26]),
        Err(HardwareError::InvalidInputCount {
            expected: 27,
            actual: 26,
        })
    );
}

#[test]
fn test_flags_register_capture_and_hold() {
    let mut flags = FlagsRegister::default();
    assert_eq!(flags.state(), (Low, Low, Low));

    // Capture (zero=High, carry=Low, sign=High) on a clock pulse.
    flag_pulse(&mut flags, High, Low, High, High);
    assert_eq!(flags.state(), (High, Low, High));

    // With save Low, the flags hold their value.
    flag_pulse(&mut flags, Low, High, Low, Low);
    assert_eq!(flags.state(), (High, Low, High));

    // A new save pulse captures the new inputs.
    flag_pulse(&mut flags, Low, Low, Low, High);
    assert_eq!(flags.state(), (Low, Low, Low));
}

#[test]
fn test_memory_address_register_two_halves() {
    let mut mar = MemoryAddressRegister16Bits::default();
    assert_eq!(mar.state(), [Low; 16]);

    // Load the low byte 0x34 = bits 2, 4, 5...
    pulse_clock(|clock| mar_run(&mut mar, clock, 0x34, High, Low, Low));
    assert_eq!(to_int(&mar.state()) & 0xFF, 0x34);

    // ...then the high byte 0x12 = bits 1, 4.
    pulse_clock(|clock| mar_run(&mut mar, clock, 0x12, Low, High, Low));
    assert_eq!(to_int(&mar.state()), 0x1234);

    // 16-bit load from the address bus: 0xABCD.
    let addr: Vec<Bit> = (0..16)
        .map(|i| if (0xABCD >> i) & 1 == 1 { High } else { Low })
        .collect();
    let run16 = |clock: Bit| {
        mar.conduct(&signals(
            &[Low; 8]
                .into_iter()
                .chain(addr.iter().copied())
                .chain([clock, Low, Low, High, High])
                .collect::<Vec<Bit>>(),
        ))
    };
    pulse_clock(run16);
    assert_eq!(to_int(&mar.state()), 0xABCD);

    // The outputs drive the stored address when enabled.
    let outputs = mar
        .conduct(&signals(
            &[Low; 24]
                .into_iter()
                .chain([Low, Low, Low, Low, High])
                .collect::<Vec<Bit>>(),
        ))
        .expect("conduct failed");
    let expected: Vec<Bit> = (0..16)
        .map(|i| if (0xABCD >> i) & 1 == 1 { High } else { Low })
        .collect();
    assert_eq!(
        outputs
            .iter()
            .map(|s| match s {
                Signal::Driven(bit) => *bit,
                Signal::HighImpedance => panic!("floating address output"),
            })
            .collect::<Vec<Bit>>(),
        expected
    );
}

#[test]
fn test_counts_from_zero() {
    let mut pc = ProgramCounter16Bits::default();

    for expected in 1..=5 {
        pc_pulse(&mut pc, 0, High, Low, Low);
        assert_eq!(to_int(&pc.state()), expected);
    }
}

#[test]
fn test_loads_two_halves_then_counts_across_byte_boundary() {
    let mut pc = ProgramCounter16Bits::default();

    pc_pulse(&mut pc, 0x34, Low, High, Low); // low half
    pc_pulse(&mut pc, 0x12, Low, Low, High); // high half
    assert_eq!(to_int(&pc.state()), 0x1234);

    // Count until the carry crosses the byte boundary.
    for _ in 0..(0xFF - 0x34) {
        pc_pulse(&mut pc, 0, High, Low, Low);
    }
    assert_eq!(to_int(&pc.state()), 0x12FF);

    pc_pulse(&mut pc, 0, High, Low, Low);
    assert_eq!(to_int(&pc.state()), 0x1300);
}

#[test]
fn test_holds_when_count_is_low() {
    let mut pc = ProgramCounter16Bits::default();

    pc_pulse(&mut pc, 42, Low, High, Low);
    pc_pulse(&mut pc, 0, Low, Low, Low);
    assert_eq!(to_int(&pc.state()), 42);
}

#[test]
fn test_load_gates_the_outputs() {
    let mut pc = ProgramCounter16Bits::default();
    pc_pulse(&mut pc, 7, Low, High, Low);

    // enable Low: the address outputs float.
    let outputs = pc.conduct(&signals(&[Low; 32])).expect("conduct failed");
    assert_eq!(outputs[0..16], [Signal::HighImpedance; 16]);
    assert_eq!(outputs[16..24], [Signal::HighImpedance; 8]);

    // enable High: the address outputs drive the stored value.
    let outputs = pc
        .conduct(&signals(
            &[Low; 8]
                .into_iter()
                .chain([Low; 16])
                .chain([Low, Low, Low, Low, Low, High, Low, Low])
                .collect::<Vec<Bit>>(),
        ))
        .expect("conduct failed");
    assert_eq!(
        to_int(
            &outputs[0..16]
                .iter()
                .map(|s| match s {
                    Signal::Driven(bit) => *bit,
                    Signal::HighImpedance => panic!("floating address output"),
                })
                .collect::<Vec<Bit>>()
        ),
        7
    );
    assert_eq!(outputs[16..24], [Signal::HighImpedance; 8]);
}

#[test]
fn test_load_addr_captures_the_address_bus() {
    let mut pc = ProgramCounter16Bits::default();

    // Jump: capture 0x1234 from the address bus in one pulse.
    let addr: Vec<Bit> = (0..16)
        .map(|i| if (0x1234 >> i) & 1 == 1 { High } else { Low })
        .collect();
    let mut run = |clock: Bit| {
        pc.conduct(&signals(
            &[Low; 8]
                .into_iter()
                .chain(addr.iter().copied())
                .chain([clock, Low, High, Low, Low, High, Low, Low])
                .collect::<Vec<Bit>>(),
        ))
    };
    run(Low).expect("low tick failed");
    run(High).expect("high tick failed");
    run(Low).expect("settle tick failed");
    assert_eq!(to_int(&pc.state()), 0x1234);

    // save_low still wins over load_addr (data-bus priority).
    pc_pulse(&mut pc, 0x99, Low, High, Low);
    assert_eq!(to_int(&pc.state()), 0x1299);
}

#[test]
fn test_out_lo_and_out_hi_drive_the_data_byte() {
    let mut pc = ProgramCounter16Bits::default();
    pc_pulse(&mut pc, 0x34, Low, High, Low); // low = 0x34
    pc_pulse(&mut pc, 0x12, Low, Low, High); // high = 0x12

    let mut byte_of = |out_lo: Bit, out_hi: Bit| -> Option<usize> {
        let outputs = pc
            .conduct(&signals(
                &[Low; 8]
                    .into_iter()
                    .chain([Low; 16])
                    .chain([Low, Low, Low, Low, Low, Low, out_lo, out_hi])
                    .collect::<Vec<Bit>>(),
            ))
            .expect("conduct failed");
        if outputs[16..24].iter().all(|s| *s == Signal::HighImpedance) {
            None
        } else {
            Some(to_int(
                &outputs[16..24]
                    .iter()
                    .map(|s| match s {
                        Signal::Driven(bit) => *bit,
                        Signal::HighImpedance => panic!("floating data byte"),
                    })
                    .collect::<Vec<Bit>>(),
            ))
        }
    };

    assert_eq!(byte_of(High, Low), Some(0x34));
    assert_eq!(byte_of(Low, High), Some(0x12));
    assert_eq!(byte_of(Low, Low), None);
}

#[test]
fn test_stack_pointer_increments_and_decrements() {
    let mut sp = StackPointer16Bits::default();

    // Initialize to 0x2000 (top of memory area).
    sp_pulse(&mut sp, 0x00, Low, Low, High, Low);
    sp_pulse(&mut sp, 0x20, Low, Low, Low, High);
    assert_eq!(to_int(&sp.state()), 0x2000);

    // Push: decrement twice, crossing a byte boundary.
    sp_pulse(&mut sp, 0, Low, High, Low, Low);
    sp_pulse(&mut sp, 0, Low, High, Low, Low);
    assert_eq!(to_int(&sp.state()), 0x1FFE);

    // Pop: increment back twice.
    sp_pulse(&mut sp, 0, High, Low, Low, Low);
    sp_pulse(&mut sp, 0, High, Low, Low, Low);
    assert_eq!(to_int(&sp.state()), 0x2000);
}

#[test]
fn test_stack_pointer_holds_when_idle() {
    let mut sp = StackPointer16Bits::default();

    sp_pulse(&mut sp, 0xAB, Low, Low, High, Low);
    sp_pulse(&mut sp, 0, Low, Low, Low, Low);
    assert_eq!(to_int(&sp.state()), 0xAB);
}

#[test]
fn test_input_port_drives_only_when_enabled() {
    let mut port = InputPort::default();
    let value: Vec<Bit> = [High, Low, High, Low, High, Low, High, Low].to_vec();

    // Enabled: the value drives the bus.
    let inputs: Vec<Bit> = value.clone().into_iter().chain([High]).collect();
    let outputs = port.conduct(&signals(&inputs)).expect("conduct failed");
    let bits: Vec<Bit> = outputs
        .iter()
        .map(|s| match s {
            Signal::Driven(bit) => *bit,
            Signal::HighImpedance => panic!("floating output"),
        })
        .collect();
    assert_eq!(bits, value);

    // Disabled: everything floats.
    let inputs: Vec<Bit> = value.into_iter().chain([Low]).collect();
    let outputs = port.conduct(&signals(&inputs)).expect("conduct failed");
    assert_eq!(outputs, vec![Signal::HighImpedance; 8]);
}

#[test]
fn test_output_register_latches_the_value() {
    let mut out = OutputRegister::default();
    assert_eq!(out.state(), [Low; 8]);

    // Latch 0x5A = bits 1, 3, 4, 6 on a clock pulse.
    output_tick(&mut out, Low, High).expect("low tick failed");
    output_tick(&mut out, High, High).expect("high tick failed");
    output_tick(&mut out, Low, Low).expect("settle tick failed");

    assert_eq!(to_int(&out.state()), 0x5A);

    // Without a save pulse, the displayed value holds.
    output_tick(&mut out, Low, Low).expect("idle tick failed");
    output_tick(&mut out, High, Low).expect("idle tick failed");
    assert_eq!(to_int(&out.state()), 0x5A);
}

#[test]
fn counters_and_ports_have_their_transistors() {
    assert_eq!(FlagsRegister::default().transistor_count(), 204);
    assert_eq!(InputPort::default().transistor_count(), 8);
    assert_eq!(OutputRegister::default().transistor_count(), 544);
    assert_eq!(
        MemoryAddressRegister16Bits::default().transistor_count(),
        1744
    );
    assert_eq!(ProgramCounter16Bits::default().transistor_count(), 2432);
    assert_eq!(StackPointer16Bits::default().transistor_count(), 2552);
}

#[test]
fn a_register_refuses_floating_data_while_it_preloads() {
    let mut register = Register8Bits::default();
    let mut inputs = signals(&register_inputs([High; 8], Low, High, High));
    inputs[3] = Signal::HighImpedance;
    assert_eq!(register.conduct(&inputs), Err(HardwareError::InvalidBit));

    // The first three masters took their bits: the next edge shows them.
    let inputs = signals(&register_inputs([Low; 8], High, High, High));
    register.conduct(&inputs).expect("edge failed");
    assert_eq!(
        register.state(),
        [High, High, High, Low, Low, Low, Low, Low]
    );
}

#[test]
fn a_half_save_wins_over_the_word_load() {
    // Data 0x34 and address 0xABCD, `save_low` and `load16` together.
    let mut mar = MemoryAddressRegister16Bits::default();
    let data: Vec<Bit> = address_bits(0x34)[0..8].to_vec();
    pulse_clock(|clock| {
        mar.conduct(&signals(
            &data
                .iter()
                .copied()
                .chain(address_bits(0xABCD))
                .chain([clock, High, Low, High, High])
                .collect::<Vec<Bit>>(),
        ))
    });
    assert_eq!(to_int(&mar.state()), 0xAB34);
}

#[test]
fn counters_wrap_around() {
    let mut pc = ProgramCounter16Bits::default();
    pc_pulse(&mut pc, 0xFF, Low, High, Low);
    pc_pulse(&mut pc, 0xFF, Low, Low, High);
    pc_pulse(&mut pc, 0, High, Low, Low);
    assert_eq!(to_int(&pc.state()), 0);

    let mut sp = StackPointer16Bits::default();
    sp_pulse(&mut sp, 0, Low, High, Low, Low);
    assert_eq!(to_int(&sp.state()), 0xFFFF);
    sp_pulse(&mut sp, 0, High, Low, Low, Low);
    assert_eq!(to_int(&sp.state()), 0);
}

#[test]
fn a_chip_write_changes_one_byte() {
    let mut ram = Ram256Bits::default();
    for address in 0..16 {
        ram.write_byte(address, DATA_A).expect("write failed");
    }
    ram.write_byte(9, DATA_B).expect("write failed");
    for (address, byte) in ram.state().iter().enumerate() {
        assert_eq!(*byte, if address == 9 { DATA_B } else { DATA_A });
    }
}

#[test]
fn an_idle_chip_floats_and_keeps_its_bytes() {
    let mut ram = Ram256Bits::default();
    ram.write_byte(2, DATA_A).expect("write failed");
    for clock in [Low, High, Low] {
        assert_eq!(
            ram.conduct(&signals(&chip_inputs(DATA_B, [Low, High, Low, Low], clock, Low, Low))),
            Ok(vec![Signal::HighImpedance; 8])
        );
    }
    assert_eq!(ram.state()[2], DATA_A);
}
