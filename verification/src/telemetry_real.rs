//! Telemetry from the counters that Linux publishes as text: CPU load from
//! /proc/stat, memory and swap from /proc/meminfo, disks from /proc/diskstats and
//! the load average from /proc/loadavg.
//!
//! The readers take the text of these files and work in whole ticks and
//! kilobytes.  A reading is a ratio of two of them.
use crate::kernel_state::{KernelStateMatrix, NUM_AXES, NUM_CORES};
use crate::text;
use crate::types::Fp8;
use vstd::prelude::*;

verus! {

/// A number from 0 to 1, as a part of a whole.
#[derive(Clone, Copy, PartialEq, Eq, Debug, Structural)]
pub struct Ratio {
    pub part: u64,
    pub whole: u64,
}

impl Ratio {
    /// The whole is not empty and holds the part.
    pub open spec fn wf(self) -> bool {
        self.part <= self.whole && 0 < self.whole
    }

    /// `part` of `whole`, at most the whole.
    pub open spec fn capped(part: nat, whole: nat) -> Ratio {
        Ratio {
            part: (if part < whole {
                part
            } else {
                whole
            }) as u64,
            whole: whole as u64,
        }
    }

    /// `part` of `whole`, at most the whole.
    pub fn new_capped(part: u64, whole: u64) -> (r: Ratio)
        requires
            0 < whole,
        ensures
            r == Ratio::capped(part as nat, whole as nat),
            r.wf(),
    {
        Ratio { part: if part < whole { part } else { whole }, whole }
    }
}

/// A word of a line as a 64-bit number; a word that is missing or is no such
/// number counts as zero.
pub open spec fn field(fields: Seq<Seq<char>>, i: int) -> nat {
    if 0 <= i < fields.len() {
        match text::number(fields[i], u64::MAX as nat) {
            Some(n) => n,
            None => 0,
        }
    } else {
        0
    }
}

/// The number in a word of a line.
pub fn field_value(fields: &Vec<Vec<char>>, i: usize) -> (r: u64)
    ensures
        r == field(text::views(fields@), i as int),
{
    if i < fields.len() {
        match text::parse_number(&fields[i], u64::MAX) {
            Some(n) => n,
            None => 0,
        }
    } else {
        0
    }
}

/// The texts in a list of strings.
pub open spec fn string_views(list: Seq<String>) -> Seq<Seq<char>> {
    list.map_values(|s: String| s@)
}

/// A line of /proc/stat about a single core.
pub open spec fn core_line(line: Seq<char>) -> bool {
    text::begins_with(line, "cpu"@) && !text::begins_with(line, "cpu "@)
}

/// The lines about single cores that have all the fields needed, split into
/// words.
pub open spec fn core_samples(lines: Seq<Seq<char>>) -> Seq<Seq<Seq<char>>>
    decreases lines.len(),
{
    if lines.len() == 0 {
        seq![]
    } else {
        let before = core_samples(lines.drop_last());
        let fields = text::words(lines.last());
        if core_line(lines.last()) && fields.len() >= 5 {
            before.push(fields)
        } else {
            before
        }
    }
}

/// Ticks that a core was idle or waited for I/O.
pub open spec fn idle_ticks(fields: Seq<Seq<char>>) -> nat {
    field(fields, 4) + field(fields, 5)
}

/// All ticks of a core: user, nice, system, idle, iowait, irq, softirq, steal.
pub open spec fn total_ticks(fields: Seq<Seq<char>>) -> nat {
    field(fields, 1) + field(fields, 2) + field(fields, 3) + field(fields, 4) + field(fields, 5)
        + field(fields, 6) + field(fields, 7) + field(fields, 8)
}

/// The tick counts of the first `cores` cores fit in 64 bits.
pub open spec fn ticks_fit(lines: Seq<Seq<char>>, cores: nat) -> bool {
    forall|i: int|
        0 <= i < core_samples(lines).len() && i < cores ==> total_ticks(
            #[trigger] core_samples(lines)[i],
        ) <= u64::MAX
}

/// What a reader remembers of the last reading, as plain data.
pub struct CpuCounters {
    /// Idle ticks of each core.
    pub idle: Seq<u64>,
    /// All ticks of each core.
    pub total: Seq<u64>,
    /// There has been a reading.
    pub initialized: bool,
}

/// What is left of `now` over `before`, at least zero.
pub open spec fn gained(now: nat, before: u64) -> nat {
    if now > before {
        (now - before) as nat
    } else {
        0
    }
}

impl CpuCounters {
    /// Both counts are there for each core.
    pub open spec fn wf(self) -> bool {
        self.idle.len() == self.total.len() && self.idle.len() <= usize::MAX
    }

    /// The counts after a reading: those of cores that it covers are replaced.
    pub open spec fn after(self, lines: Seq<Seq<char>>) -> CpuCounters {
        let samples = core_samples(lines);
        CpuCounters {
            idle: Seq::new(
                self.idle.len(),
                |i: int|
                    if i < samples.len() {
                        idle_ticks(samples[i]) as u64
                    } else {
                        self.idle[i]
                    },
            ),
            total: Seq::new(
                self.total.len(),
                |i: int|
                    if i < samples.len() {
                        total_ticks(samples[i]) as u64
                    } else {
                        self.total[i]
                    },
            ),
            initialized: true,
        }
    }

    /// The share of idle ticks among those that core `i` has gained since the
    /// last reading; none on the first reading, without new ticks, or if the
    /// reading does not cover the core.
    pub open spec fn idle_share(self, lines: Seq<Seq<char>>, i: int) -> Option<Ratio> {
        let samples = core_samples(lines);
        if !self.initialized || i >= samples.len() || gained(
            total_ticks(samples[i]),
            self.total[i],
        ) == 0 {
            None
        } else {
            Some(
                Ratio::capped(
                    gained(idle_ticks(samples[i]), self.idle[i]),
                    gained(total_ticks(samples[i]), self.total[i]),
                ),
            )
        }
    }
}

/// CPU load of each core, from the ticks gained between two readings of
/// /proc/stat.
pub struct CpuLoadReader {
    prev_idle: Vec<u64>,
    prev_total: Vec<u64>,
    num_cores: usize,
    initialized: bool,
}

impl View for CpuLoadReader {
    type V = CpuCounters;

    closed spec fn view(&self) -> CpuCounters {
        CpuCounters {
            idle: self.prev_idle@,
            total: self.prev_total@,
            initialized: self.initialized,
        }
    }
}

/// The words of a line about a single core, if it has all the fields needed.
fn core_fields(line: &String) -> (r: Option<Vec<Vec<char>>>)
    ensures
        match r {
            Some(fields) => core_line(line@) && text::words(line@).len() >= 5 && text::views(fields@) == text::words(
                line@,
            ),
            None => !(core_line(line@) && text::words(line@).len() >= 5),
        },
{
    let chars: Vec<char> = text::chars_of(line.as_str());
    if !text::starts_with(&chars, "cpu") || text::starts_with(&chars, "cpu ") {
        return None;
    }
    let fields: Vec<Vec<char>> = text::split_words(&chars);
    assert(text::views(fields@).len() == fields@.len());
    if fields.len() < 5 {
        return None;
    }
    Some(fields)
}

/// The idle ticks and all ticks on a line, if they fit in 64 bits.
fn add_up_ticks(fields: &Vec<Vec<char>>) -> (r: Option<(u64, u64)>)
    ensures
        match r {
            Some((idle, total)) => idle == idle_ticks(text::views(fields@)) && total == total_ticks(
                text::views(fields@),
            ),
            None => total_ticks(text::views(fields@)) > u64::MAX,
        },
{
    let user: u64 = field_value(fields, 1);
    let nice: u64 = field_value(fields, 2);
    let system: u64 = field_value(fields, 3);
    let idle: u64 = field_value(fields, 4);
    let iowait: u64 = field_value(fields, 5);
    let irq: u64 = field_value(fields, 6);
    let softirq: u64 = field_value(fields, 7);
    let steal: u64 = field_value(fields, 8);
    let total: u128 = user as u128 + nice as u128 + system as u128 + idle as u128 + iowait as u128
        + irq as u128 + softirq as u128 + steal as u128;
    if total > u64::MAX as u128 {
        None
    } else {
        Some((idle + iowait, total as u64))
    }
}

impl CpuLoadReader {
    /// The reader covers as many cores as it was made for.
    pub closed spec fn wf(&self) -> bool {
        self.prev_idle@.len() == self.num_cores && self.prev_total@.len() == self.num_cores
    }

    /// A reader for the first `num_cores` cores, without a reading yet.
    pub fn new(num_cores: usize) -> (r: CpuLoadReader)
        ensures
            r.wf(),
            r@.wf(),
            r@ == (CpuCounters {
                idle: Seq::new(num_cores as nat, |i: int| 0u64),
                total: Seq::new(num_cores as nat, |i: int| 0u64),
                initialized: false,
            }),
    {
        let mut prev_idle: Vec<u64> = Vec::new();
        let mut prev_total: Vec<u64> = Vec::new();
        for i in 0..num_cores
            invariant
                prev_idle@ == Seq::new(i as nat, |j: int| 0u64),
                prev_total@ == Seq::new(i as nat, |j: int| 0u64),
        {
            prev_idle.push(0);
            prev_total.push(0);
        }
        CpuLoadReader { prev_idle, prev_total, num_cores, initialized: false }
    }

    /// Whether the tick counts of the cores that this reader covers fit in 64
    /// bits.
    pub fn counters_fit(&self, lines: &Vec<String>) -> (r: bool)
        requires
            self.wf(),
        ensures
            r == ticks_fit(string_views(lines@), self@.idle.len()),
    {
        let ghost texts = string_views(lines@);
        let mut core: usize = 0;
        let mut fit = true;
        assert(texts.take(0) =~= Seq::<Seq<char>>::empty());
        for k in 0..lines.len()
            invariant
                self.wf(),
                texts == string_views(lines@),
                core_samples(texts.take(k as int)).len() >= core,
                core == self.num_cores || core == core_samples(texts.take(k as int)).len(),
                core <= self.num_cores,
                fit == ticks_fit(texts.take(k as int), self.num_cores as nat),
        {
            let ghost before = core_samples(texts.take(k as int));
            assert(texts.take(k + 1).drop_last() =~= texts.take(k as int));
            assert(texts.take(k + 1).last() == lines@[k as int]@);
            if let Some(fields) = core_fields(&lines[k]) {
                let ghost after = core_samples(texts.take(k + 1));
                assert(after == before.push(text::views(fields@)));
                assert(forall|i: int| 0 <= i < before.len() ==> after[i] == before[i]);
                if core < self.num_cores {
                    let sums = add_up_ticks(&fields);
                    assert(after[core as int] == text::views(fields@));
                    if sums.is_none() {
                        fit = false;
                    }
                    core = core + 1;
                }
                assert(fit == ticks_fit(texts.take(k + 1), self.num_cores as nat)) by {
                    if ticks_fit(texts.take(k + 1), self.num_cores as nat) {
                        assert forall|i: int|
                            0 <= i < before.len() && i < self.num_cores implies total_ticks(
                            #[trigger] before[i],
                        ) <= u64::MAX by {
                            assert(after[i] == before[i]);
                        }
                    }
                }
            }
        }
        assert(texts.take(texts.len() as int) =~= texts);
        fit
    }

    /// Read the lines of /proc/stat: the idle share of each core since the last
    /// reading.  The load of a core is what is left of 1, and 0 without a share.
    pub fn read_all(&mut self, lines: &Vec<String>) -> (r: Vec<Option<Ratio>>)
        requires
            old(self).wf(),
            ticks_fit(string_views(lines@), old(self)@.idle.len()),
        ensures
            final(self).wf(),
            final(self)@.wf(),
            final(self)@ == old(self)@.after(string_views(lines@)),
            r@ == Seq::new(
                old(self)@.idle.len(),
                |i: int| old(self)@.idle_share(string_views(lines@), i),
            ),
            forall|i: int| 0 <= i < r@.len() ==> (#[trigger] r@[i] matches Some(ratio) ==> ratio.wf()),
    {
        let ghost texts = string_views(lines@);
        let ghost start = self@;
        let mut loads: Vec<Option<Ratio>> = Vec::new();
        for i in 0..self.num_cores
            invariant
                loads@ == Seq::new(i as nat, |j: int| None::<Ratio>),
        {
            loads.push(None);
        }
        let mut core: usize = 0;
        assert(texts.take(0) =~= Seq::<Seq<char>>::empty());
        for k in 0..lines.len()
            invariant
                self.wf(),
                start.wf(),
                start.idle.len() == self.num_cores,
                start.initialized == self.initialized,
                loads@.len() == self.num_cores,
                texts == string_views(lines@),
                ticks_fit(texts, self.num_cores as nat),
                core_samples(texts.take(k as int)).len() >= core,
                core == self.num_cores || core == core_samples(texts.take(k as int)).len(),
                core <= self.num_cores,
                forall|i: int|
                    0 <= i < self.num_cores ==> #[trigger] self.prev_idle@[i] == start.after(
                        texts.take(k as int),
                    ).idle[i],
                forall|i: int|
                    0 <= i < self.num_cores ==> #[trigger] self.prev_total@[i] == start.after(
                        texts.take(k as int),
                    ).total[i],
                forall|i: int|
                    0 <= i < self.num_cores ==> #[trigger] loads@[i] == start.idle_share(
                        texts.take(k as int),
                        i,
                    ),
        {
            let ghost before = core_samples(texts.take(k as int));
            let ghost after = core_samples(texts.take(k + 1));
            assert(texts.take(k + 1).drop_last() =~= texts.take(k as int));
            assert(texts.take(k + 1).last() == lines@[k as int]@);
            if let Some(fields) = core_fields(&lines[k]) {
                assert(after == before.push(text::views(fields@)));
                assert(forall|i: int| 0 <= i < before.len() ==> after[i] == before[i]);
                if core < self.num_cores {
                    assert(after[core as int] == text::views(fields@));
                    proof {
                        lemma_samples_extend(texts, k + 1);
                        assert(core_samples(texts)[core as int] == after[core as int]);
                    }
                    if let Some((idle_total, total)) = add_up_ticks(&fields) {
                        if self.initialized {
                            let delta_idle: u64 = idle_total.saturating_sub(self.prev_idle[core]);
                            let delta_total: u64 = total.saturating_sub(self.prev_total[core]);
                            if delta_total > 0 {
                                loads[core] = Some(Ratio::new_capped(delta_idle, delta_total));
                            }
                        }
                        self.prev_idle[core] = idle_total;
                        self.prev_total[core] = total;
                        core = core + 1;
                    }
                }
            }
        }
        assert(texts.take(texts.len() as int) =~= texts);
        self.initialized = true;
        assert(self@.idle =~= start.after(texts).idle);
        assert(self@.total =~= start.after(texts).total);
        assert(loads@ =~= Seq::new(start.idle.len(), |i: int| start.idle_share(texts, i)));
        loads
    }

    /// Read the lines of /proc/stat for the sake of one core.
    pub fn read_core(&mut self, core: usize, lines: &Vec<String>) -> (r: Option<Ratio>)
        requires
            old(self).wf(),
            ticks_fit(string_views(lines@), old(self)@.idle.len()),
        ensures
            final(self).wf(),
            final(self)@.wf(),
            final(self)@ == old(self)@.after(string_views(lines@)),
            r == (if core < old(self)@.idle.len() {
                old(self)@.idle_share(string_views(lines@), core as int)
            } else {
                None
            }),
    {
        let loads: Vec<Option<Ratio>> = self.read_all(lines);
        if core < loads.len() {
            loads[core]
        } else {
            None
        }
    }
}

/// Samples found in the first lines stay the first samples.
proof fn lemma_samples_extend(lines: Seq<Seq<char>>, n: int)
    requires
        0 <= n <= lines.len(),
    ensures
        core_samples(lines.take(n)).len() <= core_samples(lines).len(),
        forall|i: int|
            0 <= i < core_samples(lines.take(n)).len() ==> #[trigger] core_samples(lines)[i]
                == core_samples(lines.take(n))[i],
    decreases lines.len(),
{
    if n == lines.len() {
        assert(lines.take(n) =~= lines);
    } else {
        lemma_samples_extend(lines.drop_last(), n);
        assert(lines.drop_last().take(n) =~= lines.take(n));
    }
}

/// The second word of a line as a number of kilobytes.
pub open spec fn kilobytes(line: Seq<char>) -> nat {
    field(text::words(line), 1)
}

/// The kilobytes on the last line that begins with `key`, or zero.
pub open spec fn entry(lines: Seq<Seq<char>>, key: Seq<char>) -> nat
    decreases lines.len(),
{
    if lines.len() == 0 {
        0
    } else if text::begins_with(lines.last(), key) {
        kilobytes(lines.last())
    } else {
        entry(lines.drop_last(), key)
    }
}

/// Memory metrics from /proc/meminfo.
pub struct MemoryReader;

impl MemoryReader {
    /// The second word of a line as a number of kilobytes; zero if it is none.
    pub fn parse_kb(line: &Vec<char>) -> (r: u64)
        ensures
            r == kilobytes(line@),
    {
        field_value(&text::split_words(line), 1)
    }

    /// The kilobytes on the last line that begins with `key`, or zero.
    fn find_entry(content: &str, key: &str) -> (r: u64)
        ensures
            r == entry(text::lines(content@), key@),
    {
        let lines: Vec<Vec<char>> = text::split_lines(&text::chars_of(content));
        let ghost texts = text::lines(content@);
        let mut kb: u64 = 0;
        assert(texts.take(0) =~= Seq::<Seq<char>>::empty());
        for k in 0..lines.len()
            invariant
                text::views(lines@) == texts,
                kb == entry(texts.take(k as int), key@),
        {
            assert(texts.take(k + 1).drop_last() =~= texts.take(k as int));
            assert(texts.take(k + 1).last() == lines@[k as int]@);
            if text::starts_with(&lines[k], key) {
                kb = Self::parse_kb(&lines[k]);
            }
        }
        assert(text::views(lines@).len() == lines@.len());
        assert(texts.take(texts.len() as int) =~= texts);
        kb
    }

    /// The kilobytes of memory in all and available.
    pub fn read_meminfo(content: &str) -> (r: (u64, u64))
        ensures
            r.0 == entry(text::lines(content@), "MemTotal:"@),
            r.1 == entry(text::lines(content@), "MemAvailable:"@),
    {
        (Self::find_entry(content, "MemTotal:"), Self::find_entry(content, "MemAvailable:"))
    }

    /// The kilobytes of swap space in all and free.
    pub fn read_swapinfo(content: &str) -> (r: (u64, u64))
        ensures
            r.0 == entry(text::lines(content@), "SwapTotal:"@),
            r.1 == entry(text::lines(content@), "SwapFree:"@),
    {
        (Self::find_entry(content, "SwapTotal:"), Self::find_entry(content, "SwapFree:"))
    }

    /// Memory pressure: the share of memory in use, none where the text tells of
    /// more available than there is, and one half where it does not tell how much
    /// there is.
    pub fn read_pressure(content: &str) -> (r: Ratio)
        ensures
            r.wf(),
            ({
                let total = entry(text::lines(content@), "MemTotal:"@);
                let available = entry(text::lines(content@), "MemAvailable:"@);
                if total > 0 {
                    r.whole == total && r.part == (if available < total {
                        total - available
                    } else {
                        0
                    })
                } else {
                    r.part == 1 && r.whole == 2
                }
            }),
    {
        let (total, available) = Self::read_meminfo(content);
        if total > 0 {
            Ratio { part: total.saturating_sub(available), whole: total }
        } else {
            Ratio { part: 1, whole: 2 }
        }
    }

    /// Swap pressure: the share of swap space in use, none where the text tells of
    /// more free than there is, or where there is no swap space.
    pub fn read_swap_pressure(content: &str) -> (r: Ratio)
        ensures
            r.wf(),
            ({
                let total = entry(text::lines(content@), "SwapTotal:"@);
                let free = entry(text::lines(content@), "SwapFree:"@);
                if total > 0 {
                    r.whole == total && r.part == (if free < total {
                        total - free
                    } else {
                        0
                    })
                } else {
                    r.part == 0 && r.whole == 1
                }
            }),
    {
        let (total, free) = Self::read_swapinfo(content);
        if total > 0 {
            Ratio { part: total.saturating_sub(free), whole: total }
        } else {
            Ratio { part: 0, whole: 1 }
        }
    }
}

/// The I/O ticks of all disks together.
pub open spec fn io_ticks(lines: Seq<Seq<char>>) -> nat
    decreases lines.len(),
{
    if lines.len() == 0 {
        0
    } else {
        let fields = text::words(lines.last());
        io_ticks(lines.drop_last()) + (if fields.len() < 14 {
            0
        } else {
            field(fields, 12)
        })
    }
}

/// The most ticks of any disk.
pub open spec fn most_ticks(lines: Seq<Seq<char>>) -> nat
    decreases lines.len(),
{
    if lines.len() == 0 {
        0
    } else {
        let before = most_ticks(lines.drop_last());
        let fields = text::words(lines.last());
        if fields.len() < 14 || field(fields, 9) < before {
            before
        } else {
            field(fields, 9)
        }
    }
}

/// The I/O ticks of the first disks are no more than those of all.
proof fn lemma_io_ticks_grow(lines: Seq<Seq<char>>, n: int)
    requires
        0 <= n <= lines.len(),
    ensures
        io_ticks(lines.take(n)) <= io_ticks(lines),
    decreases lines.len(),
{
    if n == lines.len() {
        assert(lines.take(n) =~= lines);
    } else {
        assert(lines.drop_last().take(n) =~= lines.take(n));
        lemma_io_ticks_grow(lines.drop_last(), n);
    }
}

/// I/O utilization from /proc/diskstats.
pub struct IoReader;

impl IoReader {
    /// The I/O ticks of all disks together and the most ticks of any disk; none
    /// if the former do not fit in 64 bits.
    pub fn read_ticks(content: &str) -> (r: Option<(u64, u64)>)
        ensures
            match r {
                Some((io, most)) => io == io_ticks(text::lines(content@)) && most == most_ticks(
                    text::lines(content@),
                ),
                None => io_ticks(text::lines(content@)) > u64::MAX,
            },
    {
        let lines: Vec<Vec<char>> = text::split_lines(&text::chars_of(content));
        let ghost texts = text::lines(content@);
        let mut total_io_ticks: u64 = 0;
        let mut total_ticks: u64 = 0;
        assert(texts.take(0) =~= Seq::<Seq<char>>::empty());
        for k in 0..lines.len()
            invariant
                text::views(lines@) == texts,
                texts == text::lines(content@),
                total_io_ticks == io_ticks(texts.take(k as int)),
                total_ticks == most_ticks(texts.take(k as int)),
        {
            assert(texts.take(k + 1).drop_last() =~= texts.take(k as int));
            assert(texts.take(k + 1).last() == lines@[k as int]@);
            let fields: Vec<Vec<char>> = text::split_words(&lines[k]);
            assert(text::views(fields@).len() == fields@.len());
            if fields.len() >= 14 {
                let io: u64 = field_value(&fields, 12);
                let all: u64 = field_value(&fields, 9);
                if io > u64::MAX - total_io_ticks {
                    proof {
                        assert(text::views(lines@).len() == lines@.len());
                        lemma_io_ticks_grow(texts, k + 1);
                    }
                    return None;
                }
                total_io_ticks = total_io_ticks + io;
                if all >= total_ticks {
                    total_ticks = all;
                }
            }
        }
        assert(text::views(lines@).len() == lines@.len());
        assert(texts.take(texts.len() as int) =~= texts);
        Some((total_io_ticks, total_ticks))
    }

    /// I/O utilization: the I/O ticks of all disks as a part of the most ticks of
    /// any disk, at most all of them; zero if no disk has ticks.
    pub fn read_io_utilization(content: &str) -> (r: Ratio)
        requires
            io_ticks(text::lines(content@)) <= u64::MAX,
        ensures
            r.wf(),
            r == (if most_ticks(text::lines(content@)) > 0 {
                Ratio::capped(io_ticks(text::lines(content@)), most_ticks(text::lines(content@)))
            } else {
                Ratio { part: 0, whole: 1 }
            }),
    {
        if let Some((io, most)) = Self::read_ticks(content) {
            if most > 0 {
                return Ratio::new_capped(io, most);
            }
        }
        Ratio { part: 0, whole: 1 }
    }
}

/// The text of the 1-minute load average, and the number of cores to divide it
/// by.
pub struct LoadAverage {
    /// The load, as /proc/loadavg writes it.
    pub load1: Option<Vec<char>>,
    /// Number of cores, at least one.
    pub num_cores: usize,
}

/// The number of CPUs available to this process: `num_cpus::get`.
///
/// It depends on the machine and on the limits set for the process.  All that is
/// claimed is what `num_cpus` documents of every outcome: at least one.
#[verifier::external_body]
fn available_cpus() -> (r: usize)
    ensures
        r >= 1,
{
    num_cpus::get()
}

/// Load average from /proc/loadavg.
pub struct LoadAvgReader;

impl LoadAvgReader {
    /// The first word of the text and the given number of cores, at least one.
    pub fn per_core(content: &str, num_cores: usize) -> (r: LoadAverage)
        ensures
            r.num_cores == (if num_cores < 1 {
                1
            } else {
                num_cores
            }),
            match r.load1 {
                Some(word) => text::words(content@).len() > 0 && word@ == text::words(content@)[0],
                None => text::words(content@).len() == 0,
            },
    {
        let mut words: Vec<Vec<char>> = text::split_words(&text::chars_of(content));
        assert(text::views(words@).len() == words@.len());
        let load1: Option<Vec<char>> = if words.len() > 0 {
            assert(text::views(words@)[0] == words@[0]@);
            Some(words.remove(0))
        } else {
            None
        };
        LoadAverage { load1, num_cores: if num_cores < 1 { 1 } else { num_cores } }
    }

    /// The 1-minute load average, to be divided by the number of available CPUs.
    pub fn read_normalized(content: &str) -> (r: LoadAverage)
        ensures
            r.num_cores >= 1,
            match r.load1 {
                Some(word) => text::words(content@).len() > 0 && word@ == text::words(content@)[0],
                None => text::words(content@).len() == 0,
            },
    {
        Self::per_core(content, available_cpus())
    }
}

/// Readings that hold for the whole system, as binary32 patterns.
#[derive(Clone, Copy)]
pub struct SystemReadings {
    /// Memory pressure.
    pub mem_pressure: u32,
    /// Swap pressure.
    pub swap_pressure: u32,
    /// I/O utilization.
    pub io_util: u32,
    /// Load average per core, scaled to [0, 1].
    pub load_avg: u32,
    /// Open file descriptors, normalized.
    pub open_files: u32,
    /// Network bytes received since the last reading, normalized.
    pub net_rx: u32,
    /// Network bytes sent since the last reading, normalized.
    pub net_tx: u32,
}

/// What telemetry puts on an axis of a core with the given CPU load.
pub open spec fn telemetry_axis(cpu_load: u32, system: SystemReadings, axis: int) -> Fp8 {
    if axis == 0 {
        Fp8::of_binary32(cpu_load)
    } else if axis == 1 {
        Fp8::of_binary32(system.mem_pressure)
    } else if axis == 2 {
        Fp8::of_binary32(system.swap_pressure)
    } else if axis == 3 {
        Fp8::of_binary32(system.io_util)
    } else if axis == 4 {
        Fp8::of_binary32(system.load_avg)
    } else if axis == 5 {
        Fp8::of_binary32(system.open_files)
    } else if axis == 6 {
        Fp8::of_binary32(system.net_rx)
    } else if axis == 7 {
        Fp8::of_binary32(system.net_tx)
    } else {
        Fp8(Fp8::ZERO)
    }
}

/// Write real telemetry into the state matrix, for every core with a load:
///   axis 0: CPU load of the core
///   axis 1: memory pressure
///   axis 2: swap pressure
///   axis 3: I/O utilization
///   axis 4: load average
///   axis 5: open file descriptors
///   axis 6: network bytes received
///   axis 7: network bytes sent
///   all others: zero
pub fn populate_real_telemetry(
    matrix: &mut KernelStateMatrix,
    cpu_loads: &Vec<u32>,
    system: SystemReadings,
)
    ensures
        forall|core: int, axis: int|
            0 <= core < NUM_CORES && 0 <= axis < NUM_AXES
                ==> #[trigger] final(matrix).data@[core]@[axis] == (if core < cpu_loads@.len() {
                telemetry_axis(cpu_loads@[core], system, axis)
            } else {
                old(matrix).data@[core]@[axis]
            }),
{
    let ghost before = *matrix;
    let cores: usize = if cpu_loads.len() < NUM_CORES { cpu_loads.len() } else { NUM_CORES };
    for core in 0..cores
        invariant
            cores <= NUM_CORES,
            cores <= cpu_loads@.len(),
            forall|c: int, axis: int|
                0 <= c < core && 0 <= axis < NUM_AXES ==> #[trigger] matrix.data@[c]@[axis]
                    == telemetry_axis(cpu_loads@[c], system, axis),
            forall|c: int, axis: int|
                core <= c < NUM_CORES && 0 <= axis < NUM_AXES ==> #[trigger] matrix.data@[c]@[axis]
                    == before.data@[c]@[axis],
    {
        matrix.data[core][0] = Fp8::from_f32(cpu_loads[core]);
        matrix.data[core][1] = Fp8::from_f32(system.mem_pressure);
        matrix.data[core][2] = Fp8::from_f32(system.swap_pressure);
        matrix.data[core][3] = Fp8::from_f32(system.io_util);
        matrix.data[core][4] = Fp8::from_f32(system.load_avg);
        matrix.data[core][5] = Fp8::from_f32(system.open_files);
        matrix.data[core][6] = Fp8::from_f32(system.net_rx);
        matrix.data[core][7] = Fp8::from_f32(system.net_tx);
        for axis in 8..NUM_AXES
            invariant
                core < cores <= NUM_CORES,
                cores <= cpu_loads@.len(),
                forall|c: int, a: int|
                    0 <= c < core && 0 <= a < NUM_AXES ==> #[trigger] matrix.data@[c]@[a]
                        == telemetry_axis(cpu_loads@[c], system, a),
                forall|a: int|
                    0 <= a < axis ==> #[trigger] matrix.data@[core as int]@[a] == telemetry_axis(
                        cpu_loads@[core as int],
                        system,
                        a,
                    ),
                forall|c: int, a: int|
                    core < c < NUM_CORES && 0 <= a < NUM_AXES ==> #[trigger] matrix.data@[c]@[a]
                        == before.data@[c]@[a],
        {
            matrix.data[core][axis] = Fp8(Fp8::ZERO);
        }
    }
}

/// Law: the first reading of a new reader tells no load, whatever the text.
pub proof fn law_first_reading_has_no_load(
    counters: CpuCounters,
    lines: Seq<Seq<char>>,
    core: int,
)
    requires
        !counters.initialized,
    ensures
        counters.idle_share(lines, core) is None,
        counters.after(lines).initialized,
{
}

/// Law: reading the same text twice in a row tells no load the second time and
/// leaves the counts as they are.
pub proof fn law_same_text_tells_no_load(counters: CpuCounters, lines: Seq<Seq<char>>, core: int)
    requires
        counters.wf(),
        ticks_fit(lines, counters.idle.len()),
        0 <= core < counters.idle.len(),
    ensures
        counters.after(lines).idle_share(lines, core) is None,
        counters.after(lines).after(lines).idle == counters.after(lines).idle,
        counters.after(lines).after(lines).total == counters.after(lines).total,
{
    let once = counters.after(lines);
    assert(once.after(lines).idle =~= once.idle);
    assert(once.after(lines).total =~= once.total);
    if core < core_samples(lines).len() {
        assert(total_ticks(core_samples(lines)[core]) <= u64::MAX);
    }
}

/// Law: a reading changes nothing for cores that the text does not cover.
pub proof fn law_uncovered_cores_keep_their_counts(
    counters: CpuCounters,
    lines: Seq<Seq<char>>,
    core: int,
)
    requires
        counters.wf(),
        core_samples(lines).len() <= core < counters.idle.len(),
    ensures
        counters.after(lines).idle[core] == counters.idle[core],
        counters.after(lines).total[core] == counters.total[core],
        counters.idle_share(lines, core) is None,
{
}

/// The number that a word of a line counts as.
pub open spec fn counted(word: Seq<char>) -> nat {
    match text::number(word, u64::MAX as nat) {
        Some(n) => n,
        None => 0,
    }
}

/// Law: every field is the 64-bit number in the word at its place; a word that is
/// no such number, or is missing, counts as zero.
pub proof fn law_field_is_the_number_in_its_word(fields: Seq<Seq<char>>, i: int, n: nat)
    ensures
        0 <= i < fields.len() && text::number(fields[i], u64::MAX as nat) == Some(n) ==> field(
            fields,
            i,
        ) == n,
        0 <= i < fields.len() && text::number(fields[i], u64::MAX as nat) is None ==> field(
            fields,
            i,
        ) == 0,
        i >= fields.len() ==> field(fields, i) == 0,
{
}

/// Law: a word more on a line adds its number to the ticks in all exactly if it
/// stands at one of the eight places from user to steal, and to the idle ticks
/// exactly if it stands at those of idle and iowait.  A line without words has no
/// ticks.
pub proof fn law_each_word_adds_its_ticks(fields: Seq<Seq<char>>, word: Seq<char>)
    ensures
        total_ticks(fields.push(word)) == total_ticks(fields) + (if 1 <= fields.len() <= 8 {
            counted(word)
        } else {
            0
        }),
        idle_ticks(fields.push(word)) == idle_ticks(fields) + (if fields.len() == 4 || fields.len()
            == 5 {
            counted(word)
        } else {
            0
        }),
        total_ticks(seq![]) == 0,
        idle_ticks(seq![]) == 0,
{
    let more = fields.push(word);
    assert forall|i: int| 0 <= i implies #[trigger] field(more, i) == (if i == fields.len() {
        counted(word)
    } else {
        field(fields, i)
    }) by {}
}

/// Law: a count that is higher by some ticks makes the ticks in all higher by as
/// many, whichever of the eight it is, and the idle ticks exactly if it is idle
/// or iowait.  No other word has a say.
pub proof fn law_ticks_grow_with_each_count(fields: Seq<Seq<char>>, i: int, word: Seq<char>)
    requires
        0 <= i < fields.len(),
    ensures
        total_ticks(fields.update(i, word)) - total_ticks(fields) == (if 1 <= i <= 8 {
            counted(word) - counted(fields[i])
        } else {
            0
        }),
        idle_ticks(fields.update(i, word)) - idle_ticks(fields) == (if i == 4 || i == 5 {
            counted(word) - counted(fields[i])
        } else {
            0
        }),
{
    let changed = fields.update(i, word);
    assert forall|j: int| 0 <= j && j != i implies #[trigger] field(changed, j) == field(
        fields,
        j,
    ) by {}
}

/// Law: the ticks of a line with eight counts are their sum, and its idle ticks
/// the fourth and the fifth of them.
pub proof fn law_ticks_are_the_sum_of_the_counts(fields: Seq<Seq<char>>, counts: Seq<nat>)
    requires
        fields.len() >= 9,
        counts.len() == 8,
        forall|i: int|
            0 <= i < 8 ==> text::number(fields[i + 1], u64::MAX as nat) == Some(#[trigger] counts[i]),
    ensures
        total_ticks(fields) == counts[0] + counts[1] + counts[2] + counts[3] + counts[4] + counts[5]
            + counts[6] + counts[7],
        idle_ticks(fields) == counts[3] + counts[4],
{
    assert(forall|i: int| 0 <= i < 8 ==> field(fields, i + 1) == #[trigger] counts[i]);
}

/// Law: a line is about a single core if `cpu` and then anything but a space, or
/// nothing, is what it begins with.
pub proof fn law_core_lines(line: Seq<char>)
    ensures
        core_line(line) <==> line.len() >= 3 && line[0] == 'c' && line[1] == 'p' && line[2] == 'u' && (
        line.len() == 3 || line[3] != ' '),
{
    reveal_strlit("cpu");
    reveal_strlit("cpu ");
    let short = line.take(3);
    let long = line.take(4);
    if text::begins_with(line, "cpu"@) {
        assert(short[0] == 'c' && short[1] == 'p' && short[2] == 'u');
    }
    if line.len() >= 3 && line[0] == 'c' && line[1] == 'p' && line[2] == 'u' {
        assert(short =~= "cpu"@);
        if line.len() > 3 && line[3] == ' ' {
            assert(long =~= "cpu "@);
        }
    }
    if text::begins_with(line, "cpu "@) {
        assert(long[3] == ' ');
    }
}

/// Law: the samples in a text are those of its parts, in their order, wherever
/// the text is cut.
pub proof fn law_samples_of_parts(a: Seq<Seq<char>>, b: Seq<Seq<char>>)
    ensures
        core_samples(a + b) == core_samples(a) + core_samples(b),
    decreases b.len(),
{
    if b.len() == 0 {
        assert(a + b =~= a);
        assert(core_samples(a) + core_samples(b) =~= core_samples(a));
    } else {
        assert((a + b).drop_last() =~= a + b.drop_last());
        assert((a + b).last() == b.last());
        law_samples_of_parts(a, b.drop_last());
        let fields = text::words(b.last());
        assert((core_samples(a) + core_samples(b.drop_last())).push(fields) =~= core_samples(a)
            + core_samples(b.drop_last()).push(fields));
    }
}

/// Law: a single line is a sample, of all its words, if it is about a core and
/// has at least five words.
pub proof fn law_sample_of_one_line(line: Seq<char>)
    ensures
        core_samples(seq![line]) == (if core_line(line) && text::words(line).len() >= 5 {
            seq![text::words(line)]
        } else {
            seq![]
        }),
{
    let one = seq![line];
    assert(one.drop_last() =~= Seq::<Seq<char>>::empty());
    assert(one.last() == line);
    assert(core_samples(one.drop_last()) =~= Seq::<Seq<Seq<char>>>::empty());
    assert(core_samples(one.drop_last()).push(text::words(line)) =~= seq![text::words(line)]);
}

/// Law: between two readings that both cover a core, its idle share is what it
/// gained in idle ticks, at least none and at most all, of what it gained in
/// ticks; without a gain there is none.
pub proof fn law_share_between_two_readings(
    counters: CpuCounters,
    first: Seq<Seq<char>>,
    second: Seq<Seq<char>>,
    core: int,
)
    requires
        counters.wf(),
        0 <= core < counters.idle.len(),
        core < core_samples(first).len(),
        core < core_samples(second).len(),
        ticks_fit(first, counters.idle.len()),
        ticks_fit(second, counters.idle.len()),
    ensures
        ({
            let share = counters.after(first).idle_share(second, core);
            let ticks = total_ticks(core_samples(second)[core]) - total_ticks(
                core_samples(first)[core],
            );
            let idle = idle_ticks(core_samples(second)[core]) - idle_ticks(
                core_samples(first)[core],
            );
            if ticks <= 0 {
                share is None
            } else {
                share matches Some(ratio) && ratio.whole == ticks && ratio.part == (if idle < 0 {
                    0
                } else if idle < ticks {
                    idle
                } else {
                    ticks
                })
            }
        }),
        counters.after(first).idle.len() == counters.idle.len(),
        counters.after(first).total.len() == counters.total.len(),
{
    assert(total_ticks(core_samples(first)[core]) <= u64::MAX);
    assert(total_ticks(core_samples(second)[core]) <= u64::MAX);
}

/// Law: the counts fit exactly if none of the covered cores has more ticks than
/// 64 bits hold.
pub proof fn law_counts_fit_core_by_core(lines: Seq<Seq<char>>, cores: nat)
    ensures
        !ticks_fit(lines, cores) <==> exists|i: int|
            0 <= i < cores && i < core_samples(lines).len() && total_ticks(
                #[trigger] core_samples(lines)[i],
            ) >= 0x1_0000_0000_0000_0000,
{
}

/// Law: a ratio is the part of the whole that was given, and all of it where the
/// part was larger.
pub proof fn law_capped_ratio(part: nat, whole: nat)
    requires
        0 < whole <= u64::MAX,
    ensures
        Ratio::capped(part, whole).wf(),
        Ratio::capped(part, whole).whole == whole,
        part <= whole ==> Ratio::capped(part, whole).part == part,
        part >= whole ==> Ratio::capped(part, whole).part == whole,
{
}

/// Law: an entry is the number in the second word of the last line that begins
/// with its key, wherever that line stands.
pub proof fn law_entry_is_on_the_last_line_with_its_key(
    lines: Seq<Seq<char>>,
    key: Seq<char>,
    k: int,
)
    requires
        0 <= k < lines.len(),
        text::begins_with(lines[k], key),
        forall|j: int| k < j < lines.len() ==> !text::begins_with(#[trigger] lines[j], key),
    ensures
        entry(lines, key) == (if text::words(lines[k]).len() >= 2 {
            counted(text::words(lines[k])[1])
        } else {
            0
        }),
    decreases lines.len(),
{
    if k < lines.len() - 1 {
        assert(!text::begins_with(lines[lines.len() - 1], key));
        assert(lines.drop_last()[k] == lines[k]);
        law_entry_is_on_the_last_line_with_its_key(lines.drop_last(), key, k);
    }
}

/// Law: an entry whose key no line begins with is zero.
pub proof fn law_entry_without_a_line_is_zero(lines: Seq<Seq<char>>, key: Seq<char>)
    requires
        forall|j: int| 0 <= j < lines.len() ==> !text::begins_with(#[trigger] lines[j], key),
    ensures
        entry(lines, key) == 0,
    decreases lines.len(),
{
    if lines.len() > 0 {
        assert(!text::begins_with(lines[lines.len() - 1], key));
        law_entry_without_a_line_is_zero(lines.drop_last(), key);
    }
}

/// Law: the I/O ticks of a text are those of its parts together, wherever it is
/// cut.
pub proof fn law_io_ticks_of_parts(a: Seq<Seq<char>>, b: Seq<Seq<char>>)
    ensures
        io_ticks(a + b) == io_ticks(a) + io_ticks(b),
    decreases b.len(),
{
    if b.len() == 0 {
        assert(a + b =~= a);
    } else {
        assert((a + b).drop_last() =~= a + b.drop_last());
        assert((a + b).last() == b.last());
        law_io_ticks_of_parts(a, b.drop_last());
    }
}

/// Law: the I/O ticks of a single line are the number in its thirteenth word, if
/// it has at least fourteen.
pub proof fn law_io_ticks_of_one_line(line: Seq<char>)
    ensures
        io_ticks(seq![line]) == (if text::words(line).len() >= 14 {
            counted(text::words(line)[12])
        } else {
            0
        }),
{
    let one = seq![line];
    assert(one.last() == line);
    assert(io_ticks(one.drop_last()) == 0);
}

/// Law: no disk has more ticks, by the tenth word of a line with at least
/// fourteen, than the most ticks, and some disk has them, unless they are zero.
pub proof fn law_most_ticks_are_reached_and_not_exceeded(lines: Seq<Seq<char>>)
    ensures
        forall|k: int|
            0 <= k < lines.len() && text::words(#[trigger] lines[k]).len() >= 14 ==> counted(
                text::words(lines[k])[9],
            ) <= most_ticks(lines),
        most_ticks(lines) == 0 || exists|k: int|
            0 <= k < lines.len() && text::words(#[trigger] lines[k]).len() >= 14 && counted(
                text::words(lines[k])[9],
            ) == most_ticks(lines),
    decreases lines.len(),
{
    if lines.len() > 0 {
        let before = lines.drop_last();
        let last = lines[lines.len() - 1];
        law_most_ticks_are_reached_and_not_exceeded(before);
        assert forall|k: int|
            0 <= k < lines.len() && text::words(#[trigger] lines[k]).len() >= 14 implies counted(
            text::words(lines[k])[9],
        ) <= most_ticks(lines) by {
            if k < before.len() {
                assert(before[k] == lines[k]);
            }
        }
        if most_ticks(lines) != 0 {
            if most_ticks(lines) == most_ticks(before) {
                let k = choose|k: int|
                    0 <= k < before.len() && text::words(#[trigger] before[k]).len() >= 14
                        && counted(text::words(before[k])[9]) == most_ticks(before);
                assert(lines[k] == before[k]);
            } else {
                assert(counted(text::words(last)[9]) == most_ticks(lines));
            }
        }
    }
}

/// Law: every reading has an axis of its own, converted to FP8 and nothing else;
/// the axes from the eighth on are zero.
pub proof fn law_each_reading_has_its_axis(cpu_load: u32, system: SystemReadings, axis: int)
    ensures
        telemetry_axis(cpu_load, system, 0) == Fp8::of_binary32(cpu_load),
        telemetry_axis(cpu_load, system, 1) == Fp8::of_binary32(system.mem_pressure),
        telemetry_axis(cpu_load, system, 2) == Fp8::of_binary32(system.swap_pressure),
        telemetry_axis(cpu_load, system, 3) == Fp8::of_binary32(system.io_util),
        telemetry_axis(cpu_load, system, 4) == Fp8::of_binary32(system.load_avg),
        telemetry_axis(cpu_load, system, 5) == Fp8::of_binary32(system.open_files),
        telemetry_axis(cpu_load, system, 6) == Fp8::of_binary32(system.net_rx),
        telemetry_axis(cpu_load, system, 7) == Fp8::of_binary32(system.net_tx),
        8 <= axis ==> telemetry_axis(cpu_load, system, axis).0 == 0,
{
}

} // verus!
