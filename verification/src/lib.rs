//! HMTL kernel: telemetry, dispatch, tensor exchange and axis paging around a
//! matrix of FP8 metrics that CPU and strategy engine share.
pub mod actuator;
pub mod binary32;
pub mod cmtip;
pub mod kernel_state;
pub mod memory;
pub mod paged_tensor;
pub mod telemetry_real;
pub mod text;
pub mod types;

pub use actuator::{Actuator, ActuatorCommand, CoreTrampoline, DispatchTable};
pub use cmtip::{CmtipBus, CmtipError, TensorPacket, TensorPacketHeader};
pub use kernel_state::{KernelStateMatrix, TelemetryCollector, NUM_AXES, NUM_CORES};
pub use memory::{CxlAllocator, SharedMemoryContext};
pub use paged_tensor::PagedTensorManager;
pub use types::Fp8;
