use hmtl_kernel::{Fp8, KernelStateMatrix, SharedMemoryContext, TelemetryCollector, NUM_AXES, NUM_CORES};

#[test]
fn matrix_alignment() {
    let m = KernelStateMatrix::default();
    let mut shared = SharedMemoryContext::mapped_at(0x7F12_3456_7000);
    shared.state_matrix = m;
    let addr = shared.state_matrix_gpu_ptr() as usize;
    assert_eq!(addr % 256, 0, "KernelStateMatrix must be 256-byte aligned");
}

#[test]
fn matrix_size() {
    assert_eq!(
        core::mem::size_of::<KernelStateMatrix>(),
        128 * 128,
        "FP8 matrix = exactly 16,384 bytes"
    );
}

#[test]
fn telemetry_collector_no_panic() {
    let mut matrix = KernelStateMatrix::default();
    let mut collector = TelemetryCollector::new(&mut matrix);
    collector.sample();
    // Non-zero values were written to axis 0
    assert!(f32::from_bits(matrix.data[0][0].to_f32()) > 0.0);
}

#[test]
fn sample_writes_every_axis_of_every_core() {
    let mut matrix = KernelStateMatrix {
        data: [[Fp8(0x5A); NUM_AXES]; NUM_CORES],
    };
    TelemetryCollector::new(&mut matrix).sample();
    for core in 0..NUM_CORES {
        assert_eq!(matrix.data[core][0], Fp8::from_f32(0.5f32.to_bits()));
        assert_eq!(matrix.data[core][0], Fp8(0x30));
        assert_eq!(matrix.data[core][1], Fp8::from_f32(0.03f32.to_bits()));
        assert_eq!(matrix.data[core][1], Fp8(0x0F));
        assert_eq!(matrix.data[core][2], Fp8::from_f32(0.01f32.to_bits()));
        assert_eq!(matrix.data[core][2], Fp8(0x05));
        assert_eq!(matrix.data[core][3], Fp8(0x00));
        assert!(matrix.data[core][4..].iter().all(|x| x.0 == 0x00));
    }
}

#[test]
fn second_sample_changes_nothing() {
    let mut matrix = KernelStateMatrix::default();
    let mut collector = TelemetryCollector::new(&mut matrix);
    collector.sample();
    let once = collector.matrix.data;
    collector.sample();
    assert_eq!(once, matrix.data);
}

#[test]
fn default_matrix_is_zero() {
    let matrix = KernelStateMatrix::default();
    assert!(matrix.data.iter().all(|row| row.iter().all(|x| x.0 == Fp8::ZERO)));
    assert_eq!(KernelStateMatrix::SIZE, 16_384);
}

#[test]
fn matrix_is_one_block() {
    let mut matrix = KernelStateMatrix::default();
    matrix.as_mut_ptr()[127][1] = Fp8(Fp8::ONE);
    assert_eq!(matrix.data[127][1], Fp8(Fp8::ONE));
    assert_eq!(matrix.as_ptr()[127][1], Fp8(Fp8::ONE));
}
