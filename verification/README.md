# HMTL kernel

The CPU side of a kernel that schedules by tensors: it writes system telemetry
into a 128 by 128 matrix of FP8 values, reads back a dispatch map, exchanges
tensors between model agents and pages tensor axes between HBM and DRAM.

`src/` is the library. Every function in it carries a contract that Verus proves;
laws that relate several functions are public proof functions named `law_*`.

| Module | Contents |
|--------|----------|
| `binary32` | what number a 32-bit pattern stands for; comparison; exact patterns |
| `types` | FP8 (E4M3): conversion, addition, multiplication |
| `kernel_state` | the state matrix and the telemetry collector |
| `actuator` | branch-free choice of a core, trampolines, dispatch |
| `cmtip` | tensor packet headers and the message bus |
| `paged_tensor` | average attention, eviction and prefetch of axes |
| `text` | lines, words and decimal numbers of /proc files |
| `telemetry_real` | CPU, memory, swap, disk and load-average readings |
| `memory` | CXL node detection, allocation and BAR mapping as state machines |

Single-precision numbers cross the library's interface as bit patterns (`u32`), and
FP8 constants are patterns (`u8`): `Fp8(Fp8::ONE)`, `Fp8::from_f32(x.to_bits())`.

The one fact taken on trust is that `num_cpus::get` returns at least one.

`app/` is ordinary Rust around the library: system calls, /proc and /sys, machine
code, and floating-point arithmetic. `tests/` runs the library.
