use hmtl_kernel::actuator::MAX_CORES;
use hmtl_kernel::{Actuator, ActuatorCommand, CoreTrampoline, DispatchTable, Fp8, SharedMemoryContext};

fn zeros() -> ActuatorCommand {
    ActuatorCommand {
        target_dispatch_map: [[Fp8(Fp8::ZERO); 128]; 128],
    }
}

#[test]
fn dispatch_table_builds() {
    let table = DispatchTable::new();
    // The first trampoline encodes mov eax, 0; ret
    let first = table.trampoline_ptr(0);
    assert_eq!(first[0], 0xB8);
    assert_eq!(first[1], 0x00);
    assert_eq!(first[5], 0xC3);
    // The last trampoline encodes mov eax, 127; ret
    let last = table.trampoline_ptr(127);
    assert_eq!(last[1], 127);
}

#[test]
fn actuator_command_alignment() {
    let cmd = ActuatorCommand {
        target_dispatch_map: [[Fp8(Fp8::ZERO); 128]; 128],
    };
    let mut shared = SharedMemoryContext::mapped_at(0x7F12_3456_7000);
    shared.actuator_command = cmd;
    let addr = shared.actuator_command_gpu_ptr() as usize;
    assert_eq!(addr % 256, 0, "ActuatorCommand must be 256-byte aligned");
}

#[test]
fn dispatch_finds_max() {
    let mut cmd = ActuatorCommand {
        target_dispatch_map: [[Fp8(Fp8::ZERO); 128]; 128],
    };
    // Row 0: core 42 gets weight 1.0, all others 0
    cmd.target_dispatch_map[0][42] = Fp8(Fp8::ONE);

    let actuator = Actuator::new();
    let result = actuator.dispatch_one(&cmd, 0);
    assert_eq!(result, 42, "Dispatch should select core 42");
}

#[test]
fn every_trampoline_hands_back_its_core() {
    let table = DispatchTable::new();
    for core in 0..MAX_CORES {
        assert_eq!(
            *table.trampoline_ptr(core),
            [0xB8, core as u8, 0, 0, 0, 0xC3, 0x90, 0x90]
        );
        assert_eq!(table.jump(core), core);
    }
}

#[test]
fn trampoline_operand_is_little_endian() {
    let t = CoreTrampoline::assemble(0x1234_5678);
    assert_eq!(t.code, [0xB8, 0x78, 0x56, 0x34, 0x12, 0xC3, 0x90, 0x90]);
    assert_eq!(t.call(), 0x1234_5678);
}

#[test]
fn dispatch_takes_the_first_of_equal_weights() {
    let mut cmd = zeros();
    let actuator = Actuator::new();
    assert_eq!(actuator.dispatch_one(&cmd, 5), 0);
    cmd.target_dispatch_map[5][9] = Fp8(0x20);
    cmd.target_dispatch_map[5][77] = Fp8(0x20);
    assert_eq!(actuator.dispatch_one(&cmd, 5), 9);
}

#[test]
fn negative_weights_lose_to_higher_ones() {
    let mut cmd = zeros();
    let actuator = Actuator::new();
    cmd.target_dispatch_map[0][1] = Fp8(Fp8::NEG_ONE);
    cmd.target_dispatch_map[0][5] = Fp8(Fp8::ONE);
    assert_eq!(actuator.dispatch_one(&cmd, 0), 5);
    cmd.target_dispatch_map[1][3] = Fp8(Fp8::MAX);
    cmd.target_dispatch_map[1][8] = Fp8(Fp8::MIN);
    assert_eq!(actuator.dispatch_one(&cmd, 1), 3);
    cmd.target_dispatch_map[2][0] = Fp8(Fp8::NEG_ONE);
    assert_eq!(actuator.dispatch_one(&cmd, 2), 1);
}

#[test]
fn least_negative_weight_wins_among_negative_ones() {
    let mut cmd = zeros();
    cmd.target_dispatch_map[7] = [Fp8(Fp8::MIN); 128];
    cmd.target_dispatch_map[7][99] = Fp8(0x81);
    cmd.target_dispatch_map[7][100] = Fp8(0x82);
    assert_eq!(Actuator::new().dispatch_one(&cmd, 7), 99);
}

#[test]
fn both_zeros_are_equal_weights() {
    let mut cmd = zeros();
    let actuator = Actuator::new();
    cmd.target_dispatch_map[3][0] = Fp8(0x80);
    assert_eq!(actuator.dispatch_one(&cmd, 3), 0);
    cmd.target_dispatch_map[4][60] = Fp8(0x80);
    assert_eq!(actuator.dispatch_one(&cmd, 4), 0);
}

#[test]
fn dispatch_finds_the_highest_weight() {
    let mut cmd = zeros();
    let mut seed: u32 = 1;
    for task in 0..128 {
        for core in 0..128 {
            seed = seed.wrapping_mul(1664525).wrapping_add(1013904223);
            let lower = (seed >> 24) as u8 % 0x78;
            // Rows of one sign, and rows of both.
            let sign = match task % 3 {
                0 => 0x00,
                1 => 0x80,
                _ => (seed >> 16) as u8 & 0x80,
            };
            cmd.target_dispatch_map[task][core] = Fp8(sign + lower);
        }
    }
    let targets = Actuator::new().dispatch_all(&cmd);
    assert_eq!(targets.len(), 128);
    for task in 0..128 {
        let row = &cmd.target_dispatch_map[task];
        let weight = |core: usize| f32::from_bits(row[core].to_f32());
        let best = weight(targets[task]);
        assert!((0..128).all(|core| weight(core) <= best));
        assert!((0..targets[task]).all(|core| weight(core) < best));
    }
}

#[test]
fn dispatch_map_is_one_block() {
    let mut cmd = zeros();
    cmd.as_mut_ptr()[2][3] = Fp8(0x11);
    assert_eq!(cmd.target_dispatch_map[2][3], Fp8(0x11));
    assert_eq!(cmd.as_ptr()[2][3], Fp8(0x11));
    assert_eq!(ActuatorCommand::SIZE, core::mem::size_of::<ActuatorCommand>());
}
