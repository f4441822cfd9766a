//! The kernel state matrix and the collector that fills it with telemetry.
use crate::types::zero_state_matrix;
use crate::types::Fp8;
use vstd::prelude::*;

verus! {

/// Number of hardware threads tracked.
pub const NUM_CORES: usize = 128;

/// Number of metric axes per core:
///   0: CPU load
///   1: L2 cache miss rate
///   2: memory lock contention
///   3: I/O wait latency (normalized)
///   4-127: reserved
pub const NUM_AXES: usize = 128;

/// One FP8 metric per core and axis.
///
/// In the shared block the matrix lies at a multiple of 256; a value anywhere
/// else is aligned as a byte is.
pub struct KernelStateMatrix {
    /// Rows are cores, columns are axes.
    pub data: [[Fp8; NUM_AXES]; NUM_CORES],
}

impl Default for KernelStateMatrix {
    /// The matrix of zeros.
    fn default() -> (r: KernelStateMatrix)
        ensures
            forall|core: int, axis: int|
                0 <= core < NUM_CORES && 0 <= axis < NUM_AXES ==> #[trigger] r.data@[core]@[axis]
                    == Fp8(Fp8::ZERO),
    {
        KernelStateMatrix { data: zero_state_matrix() }
    }
}

impl KernelStateMatrix {
    /// Bytes in the matrix.
    pub const SIZE: usize = 128 * 128;

    /// The matrix as one block of memory, row after row.
    pub fn as_ptr(&self) -> (r: &[[Fp8; NUM_AXES]; NUM_CORES])
        ensures
            *r == self.data,
    {
        &self.data
    }

    /// The matrix as one writable block of memory, row after row.
    pub fn as_mut_ptr(&mut self) -> (r: &mut [[Fp8; NUM_AXES]; NUM_CORES])
        ensures
            *r == old(self).data,
            final(self).data == *final(r),
    {
        &mut self.data
    }
}

/// Binary32 pattern of 0.5.
pub const UNIFORM_CPU_LOAD: u32 = 0x3F00_0000;

/// Binary32 pattern of 0.03.
pub const UNIFORM_L2_MISS_RATE: u32 = 0x3CF5_C28F;

/// Binary32 pattern of 0.01.
pub const UNIFORM_LOCK_CONTENTION: u32 = 0x3C23_D70A;

/// Binary32 pattern of 0.0.
pub const UNIFORM_IO_WAIT: u32 = 0x0000_0000;

/// CPU load of a core, as a binary32 pattern: a uniform synthetic load.
fn read_cpu_load(_core: usize) -> (r: u32)
    ensures
        r == UNIFORM_CPU_LOAD,
{
    UNIFORM_CPU_LOAD
}

/// L2 miss rate of a core, as a binary32 pattern: a uniform synthetic rate.
fn read_l2_miss_rate(_core: usize) -> (r: u32)
    ensures
        r == UNIFORM_L2_MISS_RATE,
{
    UNIFORM_L2_MISS_RATE
}

/// Lock contention of a core, as a binary32 pattern: uniform and synthetic.
fn read_lock_contention(_core: usize) -> (r: u32)
    ensures
        r == UNIFORM_LOCK_CONTENTION,
{
    UNIFORM_LOCK_CONTENTION
}

/// I/O wait of a core, as a binary32 pattern: uniform and synthetic.
fn read_io_wait(_core: usize) -> (r: u32)
    ensures
        r == UNIFORM_IO_WAIT,
{
    UNIFORM_IO_WAIT
}

/// What a sample writes for an axis, the same for every core.
pub open spec fn sampled(axis: int) -> Fp8 {
    if axis == 0 {
        Fp8::of_binary32(UNIFORM_CPU_LOAD)
    } else if axis == 1 {
        Fp8::of_binary32(UNIFORM_L2_MISS_RATE)
    } else if axis == 2 {
        Fp8::of_binary32(UNIFORM_LOCK_CONTENTION)
    } else if axis == 3 {
        Fp8::of_binary32(UNIFORM_IO_WAIT)
    } else {
        Fp8(Fp8::ZERO)
    }
}

/// Writes telemetry into a state matrix that it is bound to.
pub struct TelemetryCollector<'a> {
    /// The matrix shared with the strategy engine.
    pub matrix: &'a mut KernelStateMatrix,
}

impl<'a> TelemetryCollector<'a> {
    /// Bind the collector to a matrix.
    pub fn new(matrix: &'a mut KernelStateMatrix) -> (r: TelemetryCollector<'a>)
        ensures
            *r.matrix == *old(matrix),
            *final(matrix) == *final(r.matrix),
    {
        TelemetryCollector { matrix }
    }

    /// Sample the system and write every axis of every core, whatever was there.
    pub fn sample(&mut self)
        ensures
            forall|core: int, axis: int|
                0 <= core < NUM_CORES && 0 <= axis < NUM_AXES
                    ==> #[trigger] final(self).matrix.data@[core]@[axis] == sampled(axis),
            *final(final(self).matrix) == *final(old(self).matrix),
    {
        let ghost bound = *final(self.matrix);
        for core in 0..NUM_CORES
            invariant
                forall|c: int, axis: int|
                    0 <= c < core && 0 <= axis < NUM_AXES
                        ==> #[trigger] self.matrix.data@[c]@[axis] == sampled(axis),
                *final(self.matrix) == bound,
        {
            self.matrix.data[core][0] = Fp8::from_f32(read_cpu_load(core));
            self.matrix.data[core][1] = Fp8::from_f32(read_l2_miss_rate(core));
            self.matrix.data[core][2] = Fp8::from_f32(read_lock_contention(core));
            self.matrix.data[core][3] = Fp8::from_f32(read_io_wait(core));
            for axis in 4..NUM_AXES
                invariant
                    core < NUM_CORES,
                    forall|c: int, a: int|
                        0 <= c < core && 0 <= a < NUM_AXES
                            ==> #[trigger] self.matrix.data@[c]@[a] == sampled(a),
                    forall|a: int|
                        0 <= a < axis ==> #[trigger] self.matrix.data@[core as int]@[a] == sampled(
                            a,
                        ),
                    *final(self.matrix) == bound,
            {
                self.matrix.data[core][axis] = Fp8(Fp8::ZERO);
            }
        }
    }
}

/// Law: a second sample finds nothing left to change.
pub proof fn law_sampling_is_idempotent(once: KernelStateMatrix, twice: KernelStateMatrix)
    requires
        forall|core: int, axis: int|
            0 <= core < NUM_CORES && 0 <= axis < NUM_AXES ==> #[trigger] once.data@[core]@[axis]
                == sampled(axis),
        forall|core: int, axis: int|
            0 <= core < NUM_CORES && 0 <= axis < NUM_AXES ==> #[trigger] twice.data@[core]@[axis]
                == sampled(axis),
    ensures
        forall|core: int| 0 <= core < NUM_CORES ==> once.data@[core]@ == #[trigger] twice.data@[core]@,
{
    assert forall|core: int| 0 <= core < NUM_CORES implies once.data@[core]@
        == #[trigger] twice.data@[core]@ by {
        assert(once.data@[core]@ =~= twice.data@[core]@);
    }
}

} // verus!
