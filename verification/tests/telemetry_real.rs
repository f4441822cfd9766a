use hmtl_kernel::telemetry_real::{
    populate_real_telemetry, CpuLoadReader, IoReader, LoadAvgReader, MemoryReader, Ratio,
    SystemReadings,
};
use hmtl_kernel::{Fp8, KernelStateMatrix, NUM_AXES, NUM_CORES};

const STAT: &str = "cpu  40 0 20 800 100 0 0 0 0 0
cpu0 10 0 5 200 25 0 0 0 0 0
cpu1 10 0 5 200 25 0 0 0 0 0
cpu2 10 0 5 200 25 0 0 0 0 0
cpu3 10 0 5 200 25 0 0 0 0 0
intr 12345 0 9
ctxt 99
btime 1700000000
";

const STAT_LATER: &str = "cpu  90 0 40 830 120 0 0 0 0 0
cpu0 40 5 15 210 27 1 2 0 0 0
cpu1 10 0 5 260 45 0 0 0 0 0
intr 12345 0 9
";

const MEMINFO: &str = "MemTotal:       16000 kB
MemFree:         1000 kB
MemAvailable:    4000 kB
Buffers:          300 kB
SwapTotal:       2000 kB
SwapFree:        1500 kB
";

const DISKSTATS: &str = "   8       0 sda 100 10 5000 300 200 20 8000 400 0 150 700
   8       1 sda1 50 5 2500 100 100 10 4000 200 0 75
   7       0 loop0 1 2 3
 259       0 nvme0n1 10 1 500 30 20 2 800 40 0 50 70 1 2 3
";

fn lines(s: &str) -> Vec<String> {
    s.lines().map(|l| l.to_string()).collect()
}

fn fraction(r: Ratio) -> f32 {
    r.part as f32 / r.whole as f32
}

fn load(share: Option<Ratio>) -> f32 {
    share.map_or(0.0, |r| (1.0 - fraction(r)).clamp(0.0, 1.0))
}

#[test]
fn cpu_reader_initializes() {
    let mut reader = CpuLoadReader::new(4);
    let loads = reader.read_all(&lines(STAT));
    // The first read has no load, since it needs a delta
    assert_eq!(loads.len(), 4);
}

#[test]
fn cpu_reader_second_read() {
    let mut reader = CpuLoadReader::new(2);
    let _ = reader.read_all(&lines(STAT)); // Initialize
    let loads: Vec<f32> = reader
        .read_all(&lines(STAT_LATER))
        .into_iter()
        .map(load)
        .collect();
    assert_eq!(loads.len(), 2);
    assert!(loads.iter().all(|&l| (0.0..=1.0).contains(&l)));
}

#[test]
fn memory_reader_works() {
    let pressure = fraction(MemoryReader::read_pressure(MEMINFO));
    assert!((0.0..=1.0).contains(&pressure), "pressure={}", pressure);
}

#[test]
fn swap_reader_works() {
    let pressure = fraction(MemoryReader::read_swap_pressure(MEMINFO));
    assert!((0.0..=1.0).contains(&pressure), "swap={}", pressure);
}

#[test]
fn io_reader_works() {
    let util = fraction(IoReader::read_io_utilization(DISKSTATS));
    assert!((0.0..=1.0).contains(&util), "io={}", util);
}

#[test]
fn loadavg_reader_works() {
    let reading = LoadAvgReader::read_normalized("0.52 0.58 0.59 1/467 12345\n");
    let word: String = reading.load1.unwrap().iter().collect();
    let load = (word.parse::<f32>().unwrap() / reading.num_cores as f32).clamp(0.0, 5.0);
    assert!(load >= 0.0, "load={}", load);
}

#[test]
fn populate_real_telemetry_works() {
    let mut matrix = KernelStateMatrix::default();
    let mut cpu = CpuLoadReader::new(NUM_CORES);
    let cpu_loads: Vec<u32> = cpu
        .read_all(&lines(STAT))
        .into_iter()
        .map(|share| load(share).to_bits())
        .collect();
    let system = SystemReadings {
        mem_pressure: fraction(MemoryReader::read_pressure(MEMINFO)).to_bits(),
        swap_pressure: fraction(MemoryReader::read_swap_pressure(MEMINFO)).to_bits(),
        io_util: fraction(IoReader::read_io_utilization(DISKSTATS)).to_bits(),
        load_avg: (0.5f32 * 0.2).to_bits(),
        open_files: 0.5f32.to_bits(),
        net_rx: 0.25f32.to_bits(),
        net_tx: 1.0f32.to_bits(),
    };
    populate_real_telemetry(&mut matrix, &cpu_loads, system);

    // Some data was written
    let any_nonzero = matrix.data.iter().any(|row| {
        f32::from_bits(row[0].to_f32()).abs() > f32::EPSILON
            || f32::from_bits(row[1].to_f32()).abs() > f32::EPSILON
    });
    assert!(any_nonzero);
    for core in 0..NUM_CORES {
        assert_eq!(matrix.data[core][0], Fp8(0x00));
        // 0.75 and 0.25, then 0.1 on axis 4
        assert_eq!(matrix.data[core][1], Fp8(0x34));
        assert_eq!(matrix.data[core][2], Fp8(0x28));
        assert_eq!(matrix.data[core][3], Fp8::from_f32(system.io_util));
        assert_eq!(matrix.data[core][4], Fp8(0x1C));
        // 0.5, 0.25 and 1.0
        assert_eq!(matrix.data[core][5..8], [0x30, 0x28, 0x38].map(Fp8));
        assert!(matrix.data[core][8..].iter().all(|x| x.0 == 0x00));
    }
}

#[test]
fn idle_share_is_that_of_the_ticks_gained() {
    let mut reader = CpuLoadReader::new(4);
    let first = reader.read_all(&lines(STAT));
    assert_eq!(first, vec![None; 4]);
    let second = reader.read_all(&lines(STAT_LATER));
    // Core 0 gained 30 + 5 + 10 + 10 + 2 + 1 + 2 ticks, 12 of them idle.
    assert_eq!(second[0], Some(Ratio { part: 12, whole: 60 }));
    assert_eq!(load(second[0]), 0.8);
    // Core 1 gained nothing but idle ticks.
    assert_eq!(second[1], Some(Ratio { part: 80, whole: 80 }));
    assert_eq!(load(second[1]), 0.0);
    // Cores 2 and 3 are not covered.
    assert_eq!(second[2], None);
    assert_eq!(second[3], None);
}

#[test]
fn same_text_tells_no_load() {
    let mut reader = CpuLoadReader::new(3);
    reader.read_all(&lines(STAT));
    assert_eq!(reader.read_all(&lines(STAT)), vec![None; 3]);
}

#[test]
fn uncovered_cores_keep_their_counts() {
    let mut reader = CpuLoadReader::new(3);
    reader.read_all(&lines(STAT));
    reader.read_all(&lines(STAT_LATER));
    let third = lines("cpu0 0 0 0 0\ncpu1 0 0 0 0\ncpu2 30 0 5 260 25 0 0 0");
    let shares = reader.read_all(&third);
    assert_eq!(shares[0], None);
    assert_eq!(shares[2], Some(Ratio { part: 60, whole: 80 }));
}

#[test]
fn idle_share_is_capped_at_one() {
    let mut reader = CpuLoadReader::new(1);
    reader.read_all(&lines("cpu0 100 0 0 0"));
    let shares = reader.read_all(&lines("cpu0 20 0 0 90"));
    assert_eq!(shares[0], Some(Ratio { part: 10, whole: 10 }));
    assert_eq!(load(shares[0]), 0.0);
}

#[test]
fn short_and_foreign_lines_are_skipped() {
    let mut reader = CpuLoadReader::new(2);
    let first = lines("cpu 1 2 3 4 5\n cpu0 1 1 1 1\ncpu0 1 2 3\ncpux 0 0 0 10\nnocpu 1 2 3 4 5");
    reader.read_all(&first);
    let second = lines("cpuy 5 x -1 20\ncpuz +3 0 0 9 1");
    let shares = reader.read_all(&second);
    assert_eq!(shares[0], Some(Ratio { part: 10, whole: 15 }));
    assert_eq!(shares[1], Some(Ratio { part: 10, whole: 13 }));
}

#[test]
fn single_core_reading() {
    let mut reader = CpuLoadReader::new(2);
    assert_eq!(reader.read_core(0, &lines(STAT)), None);
    assert_eq!(
        reader.read_core(0, &lines(STAT_LATER)),
        Some(Ratio { part: 12, whole: 60 })
    );
    assert_eq!(reader.read_core(2, &lines(STAT)), None);
}

#[test]
fn counters_that_do_not_fit_are_noticed() {
    let reader = CpuLoadReader::new(1);
    assert!(reader.counters_fit(&lines(STAT)));
    assert!(reader.counters_fit(&lines("cpu0 18446744073709551615 0 0 0")));
    assert!(!reader.counters_fit(&lines("cpu0 18446744073709551615 0 0 1")));
    // Only the cores that the reader covers count.
    assert!(reader.counters_fit(&lines("cpu0 1 1 1 1\ncpu1 18446744073709551615 0 0 1")));
    assert!(reader.counters_fit(&lines("")));
}

#[test]
fn memory_pressure_is_the_share_in_use() {
    assert_eq!(MemoryReader::read_meminfo(MEMINFO), (16000, 4000));
    assert_eq!(
        MemoryReader::read_pressure(MEMINFO),
        Ratio { part: 12000, whole: 16000 }
    );
    assert_eq!(MemoryReader::read_pressure(""), Ratio { part: 1, whole: 2 });
    assert_eq!(
        MemoryReader::read_pressure("MemTotal: 7 kB\nMemTotal: 9 kB\n"),
        Ratio { part: 9, whole: 9 }
    );
    assert_eq!(
        MemoryReader::read_pressure("MemTotal: 7 kB\nMemAvailable: 9 kB\n"),
        Ratio { part: 0, whole: 7 }
    );
    assert_eq!(
        MemoryReader::read_pressure("MemTotal: none\nMemAvailable: 9 kB\n"),
        Ratio { part: 1, whole: 2 }
    );
}

#[test]
fn swap_pressure_is_the_share_in_use() {
    assert_eq!(MemoryReader::read_swapinfo(MEMINFO), (2000, 1500));
    assert_eq!(
        MemoryReader::read_swap_pressure(MEMINFO),
        Ratio { part: 500, whole: 2000 }
    );
    assert_eq!(
        MemoryReader::read_swap_pressure("SwapTotal: 5 kB\nSwapFree: 6 kB"),
        Ratio { part: 0, whole: 5 }
    );
    assert_eq!(
        MemoryReader::read_swap_pressure("SwapTotal: 0 kB\nSwapFree: 0 kB"),
        Ratio { part: 0, whole: 1 }
    );
}

#[test]
fn kilobytes_are_the_second_word() {
    let kb = |s: &str| MemoryReader::parse_kb(&s.chars().collect());
    assert_eq!(kb("MemTotal:       16000 kB"), 16000);
    assert_eq!(kb("MemTotal:16000 kB"), 0);
    assert_eq!(kb("MemTotal:"), 0);
    assert_eq!(kb("MemTotal: many"), 0);
}

#[test]
fn io_utilization_is_capped_at_one() {
    // Only the lines of sda and nvme0n1 have fourteen fields.
    assert_eq!(IoReader::read_ticks(DISKSTATS), Some((150 + 50, 8000)));
    assert_eq!(
        IoReader::read_io_utilization(DISKSTATS),
        Ratio { part: 200, whole: 8000 }
    );
    let busy = "8 0 sda 1 1 1 1 1 1 5 1 90 70 7\n";
    assert_eq!(
        IoReader::read_io_utilization(busy),
        Ratio { part: 5, whole: 5 }
    );
    assert_eq!(IoReader::read_io_utilization(""), Ratio { part: 0, whole: 1 });
}

#[test]
fn io_ticks_that_do_not_fit_are_noticed() {
    let text = "8 0 a 1 1 1 1 1 1 5 1 1 18446744073709551615 7\n8 0 b 1 1 1 1 1 1 5 1 1 1 7\n";
    assert_eq!(IoReader::read_ticks(text), None);
}

#[test]
fn load_average_is_the_first_word() {
    let reading = LoadAvgReader::per_core(" 2.50 1.0\n", 4);
    assert_eq!(reading.load1, Some(vec!['2', '.', '5', '0']));
    assert_eq!(reading.num_cores, 4);
    let empty = LoadAvgReader::per_core("\n", 0);
    assert_eq!(empty.load1, None);
    assert_eq!(empty.num_cores, 1);
}

#[test]
fn load_average_is_divided_by_the_available_cpus() {
    let reading = LoadAvgReader::read_normalized("1.00 2.00 3.00");
    assert_eq!(reading.num_cores, num_cpus::get());
    assert_eq!(reading.load1, Some(vec!['1', '.', '0', '0']));
}

#[test]
fn telemetry_leaves_cores_without_load_alone() {
    let mut matrix = KernelStateMatrix {
        data: [[Fp8(0x55); NUM_AXES]; NUM_CORES],
    };
    let system = SystemReadings {
        mem_pressure: 1.0f32.to_bits(),
        swap_pressure: 0.5f32.to_bits(),
        io_util: 0.25f32.to_bits(),
        load_avg: f32::NAN.to_bits(),
        open_files: 2.0f32.to_bits(),
        net_rx: 0.0f32.to_bits(),
        net_tx: 448.0f32.to_bits(),
    };
    populate_real_telemetry(&mut matrix, &vec![0.5f32.to_bits(), 1.0f32.to_bits()], system);
    assert_eq!(matrix.data[0][..9], [0x30, 0x38, 0x30, 0x28, 0x7F, 0x40, 0x00, 0x7E, 0x00].map(Fp8));
    assert_eq!(matrix.data[1][..9], [0x38, 0x38, 0x30, 0x28, 0x7F, 0x40, 0x00, 0x7E, 0x00].map(Fp8));
    assert!(matrix.data[2..].iter().all(|row| row.iter().all(|x| x.0 == 0x55)));
}
