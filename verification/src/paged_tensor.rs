//! Paging of tensor axes between HBM and DRAM.
//!
//! Every axis of the state matrix has an entry in a page table.  At boot the
//! first axes are in HBM, as many as it holds, and the others wait in DRAM.
//! After each dispatch cycle the manager records how much attention each axis
//! got; where HBM holds more axes than it has room for, the coldest axis goes to
//! DRAM, and axes from DRAM come in in the order they queue while there is room.
//!
//! An HBM that was filled at boot is exactly full, so ticks alone neither evict
//! an axis nor bring one in; an axis that is evicted on request makes room for
//! the first in the queue.
use crate::binary32;
use crate::kernel_state::{NUM_AXES, NUM_CORES};
use crate::types::Fp8;
use std::collections::VecDeque;
use vstd::arithmetic::power2::*;
use vstd::prelude::*;

verus! {

/// State of an axis in HBM.
pub const HBM_RESIDENT: u8 = 0;

/// State of an axis in DRAM.
pub const PAGED_OUT: u8 = 1;

/// Bytes of one axis, and the distance of two axes in HBM.
pub const AXIS_BYTES: u64 = 128;

/// Ticks within which an axis counts as recently accessed.
pub const RECENT_TICKS: u64 = 10;

/// Where the DRAM region for paged-out axes starts.
pub const DRAM_BASE: u64 = 0x100_0000_0000;

/// What the manager knows of one axis.
#[derive(Clone, Copy)]
pub struct PageTableEntry {
    /// Position in the logical axis space.
    pub virtual_axis: usize,
    /// In HBM or in DRAM.
    pub state: u8,
    /// DRAM address, once paged out.
    pub dram_addr: u64,
    /// HBM address when resident.
    pub hbm_addr: u64,
    /// Tick of the last access.
    pub last_access: u64,
    /// Average attention over all cores, as a binary32 pattern.
    pub avg_attention_weight: u32,
}

/// The address of a DRAM page for `size` bytes.
pub fn allocate_dram_page(size: u64) -> (r: u64)
    requires
        DRAM_BASE + size * 7 <= u64::MAX,
    ensures
        r == DRAM_BASE + size * 7,
{
    DRAM_BASE + (size * 7)
}

/// A magnitude in 512ths as binary32 addition leaves it: from 2^24 on it keeps
/// only even numbers, and a number halfway between two goes to the multiple of
/// four.
pub open spec fn rounded_magnitude(m: nat) -> nat {
    if m <= 0x100_0000 || m % 2 == 0 {
        m
    } else if m % 4 == 1 {
        (m - 1) as nat
    } else {
        m + 1
    }
}

/// A sum in 512ths as binary32 addition leaves it.
pub open spec fn rounded(n: int) -> int {
    if n < 0 {
        -(rounded_magnitude((-n) as nat) as int)
    } else {
        rounded_magnitude(n as nat) as int
    }
}

/// The attention that the first `n` cores pay to an axis, added up in core order
/// in binary32; in 512ths.
pub open spec fn attention_sum(
    weights: [[Fp8; NUM_AXES]; NUM_CORES],
    axis: int,
    n: nat,
) -> int
    decreases n,
{
    if n == 0 {
        0
    } else {
        rounded(
            attention_sum(weights, axis, (n - 1) as nat) + weights@[n - 1]@[axis].value(),
        )
    }
}

/// Some of the first `n` cores has a NaN for the axis.
pub open spec fn has_nan(weights: [[Fp8; NUM_AXES]; NUM_CORES], axis: int, n: int) -> bool {
    exists|core: int| 0 <= core < n && (#[trigger] weights@[core]@[axis]).nan()
}

/// Some of the first `n` cores has the infinity of the given sign for the axis.
pub open spec fn has_infinity(
    weights: [[Fp8; NUM_AXES]; NUM_CORES],
    axis: int,
    n: int,
    minus: bool,
) -> bool {
    exists|core: int|
        0 <= core < n && (#[trigger] weights@[core]@[axis]).infinite() && weights@[core]@[axis].minus()
            == minus
}

/// The average attention to an axis over all cores, as a binary32 pattern.
pub open spec fn average_attention(weights: [[Fp8; NUM_AXES]; NUM_CORES], axis: int) -> u32 {
    let plus = has_infinity(weights, axis, NUM_CORES as int, false);
    let minus = has_infinity(weights, axis, NUM_CORES as int, true);
    if has_nan(weights, axis, NUM_CORES as int) || (plus && minus) {
        binary32::QUIET_NAN
    } else if plus {
        binary32::POSITIVE_INFINITY
    } else if minus {
        binary32::NEGATIVE_INFINITY
    } else {
        // A 128th of a 512th is 2^-16, which is 2^133 times 2^-149.
        let sum = attention_sum(weights, axis, NUM_CORES as nat);
        binary32::pattern(sum < 0, vstd::math::abs(sum) as nat * pow2(133))
    }
}

/// One core more either has the special value or it does not.
proof fn lemma_one_core_more(weights: [[Fp8; NUM_AXES]; NUM_CORES], axis: int, n: int)
    requires
        0 <= n < NUM_CORES,
    ensures
        has_nan(weights, axis, n + 1) == (has_nan(weights, axis, n) || weights@[n]@[axis].nan()),
        forall|minus: bool| #[trigger]
            has_infinity(weights, axis, n + 1, minus) == (has_infinity(weights, axis, n, minus) || (
            weights@[n]@[axis].infinite() && weights@[n]@[axis].minus() == minus)),
{
    if has_nan(weights, axis, n) {
        let core = choose|core: int| 0 <= core < n && (#[trigger] weights@[core]@[axis]).nan();
        assert(weights@[core]@[axis].nan());
    }
    if weights@[n]@[axis].nan() {
        assert(has_nan(weights, axis, n + 1));
    }
    assert forall|minus: bool| #[trigger]
        has_infinity(weights, axis, n + 1, minus) == (has_infinity(weights, axis, n, minus) || (
        weights@[n]@[axis].infinite() && weights@[n]@[axis].minus() == minus)) by {
        if has_infinity(weights, axis, n, minus) {
            let core = choose|core: int|
                0 <= core < n && (#[trigger] weights@[core]@[axis]).infinite()
                    && weights@[core]@[axis].minus() == minus;
            assert(weights@[core]@[axis].infinite());
        }
    }
}

/// Rounding keeps an even bound, and leaves only even numbers above 2^24.
proof fn lemma_rounded(n: int, bound: int)
    requires
        -bound <= n <= bound,
        bound % 2 == 0,
    ensures
        -bound <= rounded(n) <= bound,
        -0x100_0000 <= rounded(n) <= 0x100_0000 || rounded(n) % 2 == 0,
{
}

/// Add two amounts of 512ths as binary32 does.
fn rounded_add(a: i32, b: i32) -> (r: i32)
    requires
        -0x1FF_FFFF <= a + b <= 0x1FF_FFFF,
    ensures
        r == rounded(a + b),
{
    let n: i32 = a + b;
    let minus = n < 0;
    let m: i32 = if minus { -n } else { n };
    let even: i32 = if m <= 0x100_0000 || m % 2 == 0 {
        m
    } else if m % 4 == 1 {
        m - 1
    } else {
        m + 1
    };
    if minus {
        -even
    } else {
        even
    }
}

/// Compute the average attention to an axis over all cores.
pub fn compute_average_attention(
    weights: &[[Fp8; NUM_AXES]; NUM_CORES],
    axis: usize,
) -> (r: u32)
    requires
        axis < NUM_AXES,
    ensures
        r == average_attention(*weights, axis as int),
        // Without NaNs and infinities the average is exact: a 128th of the sum.
        ({
            let sum = attention_sum(*weights, axis as int, NUM_CORES as nat);
            (forall|core: int| 0 <= core < NUM_CORES ==> (#[trigger] weights@[core]@[axis as int]).finite())
                ==> {
                &&& binary32::finite(r)
                &&& binary32::negative(r) == (sum < 0)
                &&& binary32::magnitude(r) == vstd::math::abs(sum) as nat * pow2(133)
            }
        }),
{
    let mut nan = false;
    let mut plus = false;
    let mut minus = false;
    let mut sum: i32 = 0;
    for core in 0..NUM_CORES
        invariant
            axis < NUM_AXES,
            nan == has_nan(*weights, axis as int, core as int),
            plus == has_infinity(*weights, axis as int, core as int, false),
            minus == has_infinity(*weights, axis as int, core as int, true),
            !nan && !plus && !minus ==> {
                &&& sum == attention_sum(*weights, axis as int, core as nat)
                &&& -229376 * core <= sum <= 229376 * core
                &&& -0x100_0000 <= sum <= 0x100_0000 || sum as int % 2 == 0
            },
    {
        let w: Fp8 = weights[core][axis];
        let p: u8 = w.0 % 0x80;
        proof {
            lemma_one_core_more(*weights, axis as int, core as int);
            assert(has_infinity(*weights, axis as int, core + 1, false) == (plus || (w.infinite()
                && !w.minus())));
            assert(has_infinity(*weights, axis as int, core + 1, true) == (minus || (w.infinite()
                && w.minus())));
            if w.finite() && !nan && !plus && !minus {
                crate::types::lemma_units_bound(w);
                lemma_rounded(sum + w.value(), 229376 * (core + 1));
            }
        }
        if p == 0x78 {
            if w.0 >= 0x80 {
                minus = true;
            } else {
                plus = true;
            }
        } else if p > 0x78 && p != 0x7E {
            nan = true;
        } else if !nan && !plus && !minus {
            let units: i32 = w.to_units() as i32;
            sum = rounded_add(sum, if w.0 >= 0x80 { -units } else { units });
        }
    }
    if nan || (plus && minus) {
        binary32::QUIET_NAN
    } else if plus {
        binary32::POSITIVE_INFINITY
    } else if minus {
        binary32::NEGATIVE_INFINITY
    } else {
        let magnitude: u32 = if sum < 0 { (-sum) as u32 } else { sum as u32 };
        binary32::from_scaled(sum < 0, magnitude, 16)
    }
}

/// How many of the first `n` axes are in HBM.
pub open spec fn residents(table: Seq<PageTableEntry>, n: nat) -> nat
    decreases n,
{
    if n == 0 {
        0
    } else {
        residents(table, (n - 1) as nat) + (if table[n - 1].state == HBM_RESIDENT {
            1nat
        } else {
            0nat
        })
    }
}

/// The count depends on nothing but the states, and is at most `n`.
proof fn lemma_residents_same(a: Seq<PageTableEntry>, b: Seq<PageTableEntry>, n: nat)
    requires
        forall|axis: int| 0 <= axis < n ==> (#[trigger] a[axis]).state == b[axis].state,
    ensures
        residents(a, n) == residents(b, n),
        residents(a, n) <= n,
    decreases n,
{
    if n > 0 {
        lemma_residents_same(a, b, (n - 1) as nat);
        assert(a[n - 1].state == b[n - 1].state);
    }
}

/// A changed entry changes the count by what it changes itself.
proof fn lemma_residents_update(
    table: Seq<PageTableEntry>,
    axis: int,
    entry: PageTableEntry,
    n: nat,
)
    requires
        0 <= axis < n <= table.len(),
    ensures
        residents(table.update(axis, entry), n) == residents(table, n) + (if entry.state
            == HBM_RESIDENT {
            1int
        } else {
            0
        }) - (if table[axis].state == HBM_RESIDENT {
            1int
        } else {
            0
        }),
        table[axis].state == HBM_RESIDENT ==> residents(table, n) > 0,
    decreases n,
{
    if axis < n - 1 {
        lemma_residents_update(table, axis, entry, (n - 1) as nat);
    } else {
        lemma_residents_same(table, table.update(axis, entry), (n - 1) as nat);
    }
}

/// The state of a manager as plain data.
pub struct Pager {
    /// One entry per axis.
    pub table: Seq<PageTableEntry>,
    /// Paged-out axes, in the order they are to come in.
    pub queue: Seq<usize>,
    /// Ticks so far.
    pub clock: nat,
    /// Axes that HBM holds.
    pub capacity: nat,
    /// Axes in HBM.
    pub resident: nat,
    /// Axes with less attention than this, a binary32 pattern, may be evicted.
    pub threshold: u32,
}

impl Pager {
    /// How many axes an HBM of the given capacity takes at boot.
    pub open spec fn fitting(capacity: nat) -> nat {
        if capacity < NUM_AXES {
            capacity
        } else {
            NUM_AXES as nat
        }
    }

    /// What is known of an axis at boot: it is in HBM if it fits, else in DRAM,
    /// and has not been accessed.
    pub open spec fn boot_entry(capacity: nat, axis: int) -> PageTableEntry {
        PageTableEntry {
            virtual_axis: axis as usize,
            state: if axis < capacity {
                HBM_RESIDENT
            } else {
                PAGED_OUT
            },
            dram_addr: if axis < capacity {
                0
            } else {
                (DRAM_BASE + AXIS_BYTES * 7) as u64
            },
            hbm_addr: (axis * AXIS_BYTES) as u64,
            last_access: 0,
            avg_attention_weight: 0,
        }
    }

    /// The state at boot: the first axes are in HBM, as many as it holds, and the
    /// others are in DRAM, queued in their order.
    pub open spec fn boot(capacity: nat, threshold: u32) -> Pager {
        Pager {
            table: Seq::new(NUM_AXES as nat, |axis: int| Pager::boot_entry(capacity, axis)),
            queue: Seq::new(
                (NUM_AXES - Pager::fitting(capacity)) as nat,
                |i: int| (Pager::fitting(capacity) + i) as usize,
            ),
            clock: 0,
            capacity,
            resident: Pager::fitting(capacity),
            threshold,
        }
    }

    /// The table covers all axes, the count is that of the axes in HBM, queued
    /// axes exist, and no access lies ahead of the clock.
    pub open spec fn wf(self) -> bool {
        &&& self.table.len() == NUM_AXES
        &&& self.clock <= u64::MAX
        &&& self.capacity <= usize::MAX
        &&& self.resident == residents(self.table, NUM_AXES as nat)
        &&& forall|i: int| 0 <= i < self.queue.len() ==> #[trigger] self.queue[i] < NUM_AXES
        &&& forall|axis: int|
            0 <= axis < NUM_AXES ==> (#[trigger] self.table[axis]).last_access <= self.clock
        &&& forall|axis: int|
            0 <= axis < NUM_AXES ==> (#[trigger] self.table[axis]).virtual_axis == axis
                && self.table[axis].hbm_addr == axis * AXIS_BYTES
    }

    /// Every axis is either in HBM or in DRAM, and the queue holds each axis in
    /// DRAM exactly once.
    pub open spec fn settled(self) -> bool {
        &&& forall|i: int, j: int|
            0 <= i < j < self.queue.len() ==> #[trigger] self.queue[i] != #[trigger] self.queue[j]
        &&& forall|i: int|
            0 <= i < self.queue.len() ==> self.table[#[trigger] self.queue[i] as int].state
                == PAGED_OUT
        &&& forall|axis: int|
            0 <= axis < NUM_AXES ==> (#[trigger] self.table[axis]).state == HBM_RESIDENT || (
            self.table[axis].state == PAGED_OUT && self.queue.contains(axis as usize))
    }

    /// Whether an axis is in HBM.
    pub open spec fn resident_axis(self, axis: int) -> bool {
        0 <= axis < self.table.len() && self.table[axis].state == HBM_RESIDENT
    }

    /// One tick later, with the attention of every axis recorded.
    pub open spec fn attended(self, weights: [[Fp8; NUM_AXES]; NUM_CORES]) -> Pager {
        Pager {
            clock: self.clock + 1,
            table: Seq::new(
                self.table.len(),
                |axis: int|
                    PageTableEntry {
                        last_access: (self.clock + 1) as u64,
                        avg_attention_weight: average_attention(weights, axis),
                        ..self.table[axis]
                    },
            ),
            ..self
        }
    }

    /// Among the first `n` axes the resident one with the least attention, the
    /// first of them where several share it.  An axis counts only if its
    /// attention is a number below the largest finite one.
    pub open spec fn coldest(self, n: nat) -> Option<int>
        decreases n,
    {
        if n == 0 {
            None
        } else {
            let before = self.coldest((n - 1) as nat);
            let bound = match before {
                Some(axis) => self.table[axis].avg_attention_weight,
                None => binary32::LARGEST_FINITE,
            };
            let entry = self.table[n - 1];
            if entry.state == HBM_RESIDENT && binary32::less(entry.avg_attention_weight, bound) {
                Some(n - 1)
            } else {
                before
            }
        }
    }

    /// A resident axis moved to DRAM; an axis that is not resident stays.
    pub open spec fn evicted(self, axis: int) -> Pager {
        if self.table[axis].state != HBM_RESIDENT {
            self
        } else {
            Pager {
                table: self.table.update(
                    axis,
                    PageTableEntry {
                        state: PAGED_OUT,
                        dram_addr: (DRAM_BASE + AXIS_BYTES * 7) as u64,
                        ..self.table[axis]
                    },
                ),
                queue: self.queue.push(axis as usize),
                resident: (self.resident - 1) as nat,
                ..self
            }
        }
    }

    /// A paged-out axis moved back to HBM; an axis that is not paged out stays.
    pub open spec fn prefetched(self, axis: int) -> Pager {
        if self.table[axis].state != PAGED_OUT {
            self
        } else {
            Pager {
                table: self.table.update(
                    axis,
                    PageTableEntry { state: HBM_RESIDENT, ..self.table[axis] },
                ),
                resident: self.resident + 1,
                ..self
            }
        }
    }

    /// Where more axes are in HBM than it has room for, the coldest one is
    /// evicted, provided that its attention is below the threshold.
    pub open spec fn after_eviction(self) -> Pager {
        if self.resident > self.capacity {
            match self.coldest(NUM_AXES as nat) {
                Some(axis) => if binary32::less(
                    self.table[axis].avg_attention_weight,
                    self.threshold,
                ) {
                    self.evicted(axis)
                } else {
                    self
                },
                None => self,
            }
        } else {
            self
        }
    }

    /// The axis at the head of the queue can come in: it is paged out, was
    /// accessed recently, and HBM has room.
    pub open spec fn can_prefetch(self) -> bool {
        &&& self.queue.len() > 0
        &&& self.table[self.queue[0] as int].state == PAGED_OUT
        &&& self.clock - self.table[self.queue[0] as int].last_access < RECENT_TICKS
        &&& self.resident < self.capacity
    }

    /// Axes brought in from the head of the queue as long as possible.
    pub open spec fn after_prefetch(self) -> Pager
        decreases self.queue.len(),
    {
        if self.can_prefetch() {
            let rest = Pager { queue: self.queue.skip(1), ..self };
            rest.prefetched(self.queue[0] as int).after_prefetch()
        } else {
            self
        }
    }

    /// The state after one dispatch cycle with the given attention weights.
    pub open spec fn ticked(self, weights: [[Fp8; NUM_AXES]; NUM_CORES]) -> Pager {
        self.attended(weights).after_eviction().after_prefetch()
    }

    /// The state after a series of dispatch cycles.
    pub open spec fn run(self, cycles: Seq<[[Fp8; NUM_AXES]; NUM_CORES]>) -> Pager
        decreases cycles.len(),
    {
        if cycles.len() == 0 {
            self
        } else {
            self.run(cycles.drop_last()).ticked(cycles.last())
        }
    }
}

/// At boot the count is right.
proof fn lemma_boot_residents(capacity: nat, threshold: u32, n: nat)
    requires
        n <= NUM_AXES,
    ensures
        residents(Pager::boot(capacity, threshold).table, n) == (if n < capacity {
            n
        } else {
            capacity
        }),
    decreases n,
{
    if n > 0 {
        lemma_boot_residents(capacity, threshold, (n - 1) as nat);
    }
}

/// The state at boot is a proper one.
proof fn lemma_boot_wf(capacity: nat, threshold: u32)
    requires
        capacity <= usize::MAX,
    ensures
        Pager::boot(capacity, threshold).wf(),
{
    lemma_boot_residents(capacity, threshold, NUM_AXES as nat);
}

/// Recording attention moves no axis.
proof fn lemma_attended_wf(p: Pager, weights: [[Fp8; NUM_AXES]; NUM_CORES])
    requires
        p.wf(),
        p.clock < u64::MAX,
    ensures
        p.attended(weights).wf(),
{
    lemma_residents_same(p.table, p.attended(weights).table, NUM_AXES as nat);
}

/// An eviction keeps the count right.
proof fn lemma_evicted_wf(p: Pager, axis: int)
    requires
        p.wf(),
        0 <= axis < NUM_AXES,
    ensures
        p.evicted(axis).wf(),
        p.resident_axis(axis) ==> p.resident > 0,
{
    lemma_residents_update(
        p.table,
        axis,
        PageTableEntry {
            state: PAGED_OUT,
            dram_addr: (DRAM_BASE + AXIS_BYTES * 7) as u64,
            ..p.table[axis]
        },
        NUM_AXES as nat,
    );
}

/// A prefetch keeps the count right.
proof fn lemma_prefetched_wf(p: Pager, axis: int)
    requires
        p.wf(),
        0 <= axis < NUM_AXES,
    ensures
        p.prefetched(axis).wf(),
        p.resident <= NUM_AXES,
{
    lemma_residents_same(p.table, p.table, NUM_AXES as nat);
    lemma_residents_update(
        p.table,
        axis,
        PageTableEntry { state: HBM_RESIDENT, ..p.table[axis] },
        NUM_AXES as nat,
    );
}

/// Evicting the coldest axis, where that is due, keeps the count right.
proof fn lemma_after_eviction_wf(p: Pager)
    requires
        p.wf(),
    ensures
        p.after_eviction().wf(),
{
    law_coldest_is_a_resident_axis(p, NUM_AXES as nat);
    if let Some(axis) = p.coldest(NUM_AXES as nat) {
        lemma_evicted_wf(p, axis);
    }
}

/// Decides which axes are in HBM and which in DRAM.
pub struct PagedTensorManager {
    page_table: [PageTableEntry; NUM_AXES],
    eviction_threshold: u32,
    prefetch_queue: VecDeque<usize>,
    clock: u64,
    hbm_capacity: usize,
    resident_count: usize,
}

impl View for PagedTensorManager {
    type V = Pager;

    closed spec fn view(&self) -> Pager {
        Pager {
            table: self.page_table@,
            queue: self.prefetch_queue@,
            clock: self.clock as nat,
            capacity: self.hbm_capacity as nat,
            resident: self.resident_count as nat,
            threshold: self.eviction_threshold,
        }
    }
}

impl PagedTensorManager {
    /// A manager for an HBM that holds `hbm_capacity` axes: the first that many
    /// axes are in HBM, the others in DRAM.  Axes with an average attention below
    /// `eviction_threshold`, a binary32 pattern, may be evicted.
    pub fn new(hbm_capacity: usize, eviction_threshold: u32) -> (r: PagedTensorManager)
        ensures
            r@ == Pager::boot(hbm_capacity as nat, eviction_threshold),
            r@.wf(),
    {
        let mut page_table: [PageTableEntry; NUM_AXES] = [
            PageTableEntry {
                virtual_axis: 0,
                state: HBM_RESIDENT,
                dram_addr: 0,
                hbm_addr: 0,
                last_access: 0,
                avg_attention_weight: 0,
            };
            NUM_AXES
        ];
        let mut prefetch_queue: VecDeque<usize> = VecDeque::new();
        for i in 0..NUM_AXES
            invariant
                forall|axis: int|
                    0 <= axis < i ==> #[trigger] page_table@[axis] == Pager::boot_entry(
                        hbm_capacity as nat,
                        axis,
                    ),
                prefetch_queue@.len() == (if i < hbm_capacity {
                    0int
                } else {
                    i - hbm_capacity
                }),
                forall|k: int|
                    0 <= k < prefetch_queue@.len() ==> #[trigger] prefetch_queue@[k] == hbm_capacity
                        + k,
        {
            let fits = i < hbm_capacity;
            page_table[i] = PageTableEntry {
                virtual_axis: i,
                state: if fits { HBM_RESIDENT } else { PAGED_OUT },
                dram_addr: if fits { 0 } else { allocate_dram_page(AXIS_BYTES) },
                hbm_addr: i as u64 * AXIS_BYTES,
                last_access: 0,
                avg_attention_weight: 0,
            };
            if !fits {
                prefetch_queue.push_back(i);
            }
        }
        let resident_count: usize = if hbm_capacity < NUM_AXES { hbm_capacity } else { NUM_AXES };
        let r = PagedTensorManager {
            page_table,
            eviction_threshold,
            prefetch_queue,
            clock: 0,
            hbm_capacity,
            resident_count,
        };
        proof {
            let boot = Pager::boot(hbm_capacity as nat, eviction_threshold);
            assert(r@.table =~= boot.table);
            assert(r@.queue =~= boot.queue);
            lemma_boot_wf(hbm_capacity as nat, eviction_threshold);
        }
        r
    }

    /// Record the attention of one dispatch cycle and page axes out and in.
    /// `attention_weights[c][a]` is the attention that core c pays to axis a.
    pub fn tick(&mut self, attention_weights: &[[Fp8; NUM_AXES]; NUM_CORES])
        requires
            old(self)@.wf(),
            old(self)@.clock < u64::MAX,
        ensures
            final(self)@ == old(self)@.ticked(*attention_weights),
            final(self)@.wf(),
    {
        self.record_attention(attention_weights);
        if self.resident_count > self.hbm_capacity {
            let (coldest, min_weight) = self.find_coldest();
            if let Some(axis) = coldest {
                if binary32::less_than(min_weight, self.eviction_threshold) {
                    self.evict_axis(axis);
                }
            }
        }
        self.prefetch_from_queue();
    }

    /// Advance the clock and store every axis's average attention.
    fn record_attention(&mut self, attention_weights: &[[Fp8; NUM_AXES]; NUM_CORES])
        requires
            old(self)@.wf(),
            old(self)@.clock < u64::MAX,
        ensures
            final(self)@ == old(self)@.attended(*attention_weights),
            final(self)@.wf(),
    {
        let ghost target = self@.attended(*attention_weights);
        let ghost before = self@;
        self.clock = self.clock + 1;
        for axis in 0..NUM_AXES
            invariant
                self@ == (Pager { clock: target.clock, table: self@.table, ..before }),
                target.clock == self.clock,
                target == before.attended(*attention_weights),
                before.table.len() == NUM_AXES,
                forall|a: int| 0 <= a < axis ==> #[trigger] self@.table[a] == target.table[a],
                forall|a: int|
                    axis <= a < NUM_AXES ==> #[trigger] self@.table[a] == before.table[a],
        {
            let average: u32 = compute_average_attention(attention_weights, axis);
            self.page_table[axis].avg_attention_weight = average;
            self.page_table[axis].last_access = self.clock;
        }
        assert(self@.table =~= target.table);
        proof {
            lemma_attended_wf(before, *attention_weights);
        }
    }

    /// The coldest resident axis and its attention, a binary32 pattern.
    pub fn find_coldest(&self) -> (r: (Option<usize>, u32))
        requires
            self@.wf(),
        ensures
            match (r.0, self@.coldest(NUM_AXES as nat)) {
                (Some(axis), Some(c)) => axis == c && axis < NUM_AXES && r.1
                    == self@.table[c].avg_attention_weight && self@.table[c].state == HBM_RESIDENT,
                (None, None) => r.1 == binary32::LARGEST_FINITE,
                _ => false,
            },
    {
        let mut coldest: Option<usize> = None;
        let mut min_weight: u32 = binary32::LARGEST_FINITE;
        for axis in 0..NUM_AXES
            invariant
                self@.wf(),
                match (coldest, self@.coldest(axis as nat)) {
                    (Some(a), Some(c)) => a == c && a < axis && min_weight
                        == self@.table[c].avg_attention_weight && self@.table[c].state
                        == HBM_RESIDENT,
                    (None, None) => min_weight == binary32::LARGEST_FINITE,
                    _ => false,
                },
        {
            let entry: PageTableEntry = self.page_table[axis];
            assert(entry == self@.table[axis as int]);
            if entry.state == HBM_RESIDENT && binary32::less_than(
                entry.avg_attention_weight,
                min_weight,
            ) {
                min_weight = entry.avg_attention_weight;
                coldest = Some(axis);
            }
        }
        (coldest, min_weight)
    }

    /// Move an axis from HBM to DRAM and queue it to come back; an axis that is
    /// not in HBM stays where it is.
    pub fn evict_axis(&mut self, axis: usize)
        requires
            old(self)@.wf(),
            axis < NUM_AXES,
        ensures
            final(self)@ == old(self)@.evicted(axis as int),
            final(self)@.wf(),
    {
        if self.page_table[axis].state != HBM_RESIDENT {
            return ;
        }
        let ghost target = self@.evicted(axis as int);
        proof {
            lemma_evicted_wf(self@, axis as int);
        }
        self.page_table[axis].state = PAGED_OUT;
        self.page_table[axis].dram_addr = allocate_dram_page(AXIS_BYTES);
        self.resident_count = self.resident_count - 1;
        self.prefetch_queue.push_back(axis);
        assert(self@.table =~= target.table);
    }

    /// Move an axis from DRAM back to HBM.
    fn prefetch_axis(&mut self, axis: usize)
        requires
            old(self)@.wf(),
            axis < NUM_AXES,
        ensures
            final(self)@ == old(self)@.prefetched(axis as int),
            final(self)@.wf(),
    {
        if self.page_table[axis].state != PAGED_OUT {
            return ;
        }
        let ghost target = self@.prefetched(axis as int);
        proof {
            lemma_prefetched_wf(self@, axis as int);
        }
        self.page_table[axis].state = HBM_RESIDENT;
        self.resident_count = self.resident_count + 1;
        assert(self@.table =~= target.table);
    }

    /// Bring axes back from the head of the queue as long as possible.
    fn prefetch_from_queue(&mut self)
        requires
            old(self)@.wf(),
        ensures
            final(self)@ == old(self)@.after_prefetch(),
            final(self)@.wf(),
    {
        let ghost target = self@.after_prefetch();
        while self.prefetch_queue.len() > 0
            invariant
                self@.wf(),
                self@.after_prefetch() == target,
            ensures
                !self@.can_prefetch(),
            decreases self@.queue.len(),
        {
            let axis: usize = self.prefetch_queue[0];
            let entry: PageTableEntry = self.page_table[axis];
            assert(self@.queue[0] == axis);
            assert(self@.table[axis as int] == entry);
            if entry.state == PAGED_OUT && self.clock - entry.last_access < RECENT_TICKS
                && self.resident_count < self.hbm_capacity {
                let ghost rest = Pager { queue: self@.queue.skip(1), ..self@ };
                self.prefetch_queue.pop_front();
                assert(self@.queue =~= rest.queue);
                self.prefetch_axis(axis);
            } else {
                break ;
            }
        }
    }

    /// Whether an axis is in HBM; an axis that does not exist is not.
    pub fn is_resident(&self, axis: usize) -> (r: bool)
        ensures
            r == self@.resident_axis(axis as int),
    {
        axis < NUM_AXES && self.page_table[axis].state == HBM_RESIDENT
    }

    /// The HBM address of an axis that is in HBM.
    pub fn hbm_addr(&self, axis: usize) -> (r: u64)
        requires
            self@.wf(),
            self@.resident_axis(axis as int),
        ensures
            r == axis * AXIS_BYTES,
            r == self@.table[axis as int].hbm_addr,
    {
        self.page_table[axis].hbm_addr
    }

    /// Number of axes in HBM.
    pub fn resident_count(&self) -> (r: usize)
        ensures
            r == self@.resident,
            self@.wf() ==> r == residents(self@.table, NUM_AXES as nat),
    {
        self.resident_count
    }
}

/// Bringing axes back moves none of them out and keeps the count in bounds.
proof fn lemma_after_prefetch(p: Pager)
    requires
        p.wf(),
    ensures
        ({
            let q = p.after_prefetch();
            &&& q.wf()
            &&& q.clock == p.clock && q.capacity == p.capacity && q.threshold == p.threshold
            &&& p.resident <= p.capacity ==> q.resident <= q.capacity
            &&& forall|axis: int| #[trigger] p.resident_axis(axis) ==> q.resident_axis(axis)
            &&& forall|axis: int|
                0 <= axis < NUM_AXES ==> (#[trigger] q.table[axis]).avg_attention_weight
                    == p.table[axis].avg_attention_weight && q.table[axis].last_access
                    == p.table[axis].last_access
        }),
    decreases p.queue.len(),
{
    if p.can_prefetch() {
        let rest = Pager { queue: p.queue.skip(1), ..p };
        let next = rest.prefetched(p.queue[0] as int);
        assert(rest.wf());
        lemma_prefetched_wf(rest, p.queue[0] as int);
        lemma_after_prefetch(next);
        assert forall|axis: int| #[trigger] p.resident_axis(axis) implies next.resident_axis(
            axis,
        ) by {}
    }
}

/// Law: the axis picked for eviction is a resident one of the first `n`, and its
/// attention is a number below the largest finite one.
pub proof fn law_coldest_is_a_resident_axis(p: Pager, n: nat)
    requires
        n <= p.table.len(),
    ensures
        p.coldest(n) matches Some(axis) ==> 0 <= axis < n && p.table[axis].state == HBM_RESIDENT
            && binary32::less(p.table[axis].avg_attention_weight, binary32::LARGEST_FINITE),
    decreases n,
{
    if n > 0 {
        law_coldest_is_a_resident_axis(p, (n - 1) as nat);
    }
}

/// Law: the axis picked for eviction is resident, no resident axis has less
/// attention, and resident axes before it have more.  None is picked only if no
/// resident axis has an attention below the largest finite number.
pub proof fn law_coldest_has_least_attention(p: Pager, n: nat, other: int)
    requires
        n <= p.table.len(),
        0 <= other < n,
        p.table[other].state == HBM_RESIDENT,
        binary32::less(p.table[other].avg_attention_weight, binary32::LARGEST_FINITE),
    ensures
        p.coldest(n) matches Some(axis) && {
            &&& 0 <= axis < n
            &&& p.table[axis].state == HBM_RESIDENT
            &&& !binary32::less(
                p.table[other].avg_attention_weight,
                p.table[axis].avg_attention_weight,
            )
            &&& other < axis ==> binary32::less(
                p.table[axis].avg_attention_weight,
                p.table[other].avg_attention_weight,
            )
        },
    decreases n,
{
    let m = (n - 1) as nat;
    law_coldest_is_a_resident_axis(p, m);
    law_coldest_is_a_resident_axis(p, n);
    if other < m {
        law_coldest_has_least_attention(p, m, other);
    }
}

/// Law: a resident axis whose attention does not fall below the threshold is
/// still resident after the tick, at the same HBM address: only axes with an
/// attention below the threshold can leave HBM.
pub proof fn law_hot_axes_stay_resident(
    p: Pager,
    weights: [[Fp8; NUM_AXES]; NUM_CORES],
    axis: int,
)
    requires
        p.wf(),
        p.clock < u64::MAX,
        p.resident_axis(axis),
        !binary32::less(average_attention(weights, axis), p.threshold),
    ensures
        p.ticked(weights).resident_axis(axis),
        p.ticked(weights).table[axis].hbm_addr == p.table[axis].hbm_addr,
{
    let attended = p.attended(weights);
    let evicted = attended.after_eviction();
    law_coldest_is_a_resident_axis(attended, NUM_AXES as nat);
    lemma_attended_wf(p, weights);
    lemma_after_eviction_wf(attended);
    lemma_after_prefetch(evicted);
    assert(evicted.resident_axis(axis));
}

/// Law: a tick takes at most one axis out of HBM.
pub proof fn law_tick_evicts_at_most_one_axis(
    p: Pager,
    weights: [[Fp8; NUM_AXES]; NUM_CORES],
    a: int,
    b: int,
)
    requires
        p.wf(),
        p.clock < u64::MAX,
        p.resident_axis(a) && !p.ticked(weights).resident_axis(a),
        p.resident_axis(b) && !p.ticked(weights).resident_axis(b),
    ensures
        a == b,
{
    let attended = p.attended(weights);
    let evicted = attended.after_eviction();
    law_coldest_is_a_resident_axis(attended, NUM_AXES as nat);
    lemma_attended_wf(p, weights);
    lemma_after_eviction_wf(attended);
    lemma_after_prefetch(evicted);
    assert(!evicted.resident_axis(a) && !evicted.resident_axis(b));
}

/// Law: while more axes are in HBM than it has room for, a tick moves the
/// coldest axis to DRAM if its attention is below the threshold, and no other.
pub proof fn law_cold_axis_is_evicted(
    p: Pager,
    weights: [[Fp8; NUM_AXES]; NUM_CORES],
    axis: int,
    other: int,
)
    requires
        p.wf(),
        p.clock < u64::MAX,
        p.resident > p.capacity,
        p.attended(weights).coldest(NUM_AXES as nat) == Some(axis),
        binary32::less(average_attention(weights, axis), p.threshold),
        0 <= other < NUM_AXES,
    ensures
        p.resident_axis(axis),
        !p.ticked(weights).resident_axis(axis),
        p.ticked(weights).resident == p.resident - 1,
        other != axis ==> p.ticked(weights).table[other] == p.attended(weights).table[other],
        p.ticked(weights).queue == p.queue.push(axis as usize),
{
    law_coldest_is_a_resident_axis(p.attended(weights), NUM_AXES as nat);
}

/// Law: once HBM holds no more axes than it has room for, neither a tick nor an
/// eviction makes it hold more.
pub proof fn law_occupancy_stays_within_capacity(
    p: Pager,
    weights: [[Fp8; NUM_AXES]; NUM_CORES],
    axis: int,
)
    requires
        p.wf(),
        p.clock < u64::MAX,
        residents(p.table, NUM_AXES as nat) <= p.capacity,
        0 <= axis < NUM_AXES,
    ensures
        residents(p.ticked(weights).table, NUM_AXES as nat) <= p.capacity,
        residents(p.evicted(axis).table, NUM_AXES as nat) <= p.capacity,
        p.ticked(weights).capacity == p.capacity,
        p.evicted(axis).capacity == p.capacity,
        p.ticked(weights).wf(),
        p.evicted(axis).wf(),
{
    lemma_attended_wf(p, weights);
    lemma_after_prefetch(p.attended(weights));
    lemma_evicted_wf(p, axis);
}

/// Law: from boot on HBM never holds more axes than it has room for, whatever
/// attention the axes get.
pub proof fn law_booted_occupancy_is_within_capacity(
    capacity: nat,
    threshold: u32,
    cycles: Seq<[[Fp8; NUM_AXES]; NUM_CORES]>,
)
    ensures
        ({
            let p = Pager::boot(capacity, threshold).run(cycles);
            &&& residents(p.table, NUM_AXES as nat) <= capacity
            &&& p.resident == residents(p.table, NUM_AXES as nat)
        }),
{
    lemma_booted_shape(capacity, threshold, cycles);
    lemma_boot_residents(capacity, threshold, NUM_AXES as nat);
    lemma_residents_same(
        Pager::boot(capacity, threshold).table,
        Pager::boot(capacity, threshold).run(cycles).table,
        NUM_AXES as nat,
    );
}

/// Law: an HBM that was filled at boot is exactly full, so ticks alone neither
/// evict an axis nor bring one in, whatever attention the axes get.
pub proof fn law_ticks_alone_move_no_axis(
    capacity: nat,
    threshold: u32,
    cycles: Seq<[[Fp8; NUM_AXES]; NUM_CORES]>,
    axis: int,
)
    requires
        0 <= axis < NUM_AXES,
    ensures
        ({
            let boot = Pager::boot(capacity, threshold);
            let p = boot.run(cycles);
            &&& p.resident_axis(axis) <==> boot.resident_axis(axis)
            &&& p.queue == boot.queue
            &&& p.resident == boot.resident
        }),
{
    lemma_booted_shape(capacity, threshold, cycles);
}

/// What ticks alone leave as it was at boot.
proof fn lemma_booted_shape(
    capacity: nat,
    threshold: u32,
    cycles: Seq<[[Fp8; NUM_AXES]; NUM_CORES]>,
)
    ensures
        ({
            let boot = Pager::boot(capacity, threshold);
            let p = boot.run(cycles);
            &&& p.table.len() == NUM_AXES
            &&& forall|axis: int|
                0 <= axis < NUM_AXES ==> (#[trigger] p.table[axis]).state == boot.table[axis].state
            &&& p.queue == boot.queue
            &&& p.resident == boot.resident
            &&& p.capacity == capacity
        }),
    decreases cycles.len(),
{
    if cycles.len() > 0 {
        lemma_booted_shape(capacity, threshold, cycles.drop_last());
    }
}

/// Law: at boot exactly the axes below the capacity are in HBM.
pub proof fn law_boot_fills_hbm(capacity: nat, threshold: u32, axis: int)
    requires
        0 <= axis < NUM_AXES,
    ensures
        Pager::boot(capacity, threshold).resident_axis(axis) <==> axis < capacity,
        residents(Pager::boot(capacity, threshold).table, NUM_AXES as nat) == Pager::fitting(
            capacity,
        ),
{
    lemma_boot_residents(capacity, threshold, NUM_AXES as nat);
}

/// Law: axes come into HBM in the order they queue: those that a tick brings in
/// are the first in the queue, and the others keep their places.
pub proof fn law_queue_is_first_in_first_out(p: Pager)
    requires
        p.wf(),
        p.settled(),
    ensures
        ({
            let after = p.after_prefetch();
            let k = p.queue.len() - after.queue.len();
            &&& 0 <= k
            &&& after.queue == p.queue.skip(k)
            &&& after.resident == p.resident + k
            &&& forall|i: int| 0 <= i < k ==> after.resident_axis(#[trigger] p.queue[i] as int)
            &&& forall|i: int|
                k <= i < p.queue.len() ==> !after.resident_axis(#[trigger] p.queue[i] as int)
        }),
    decreases p.queue.len(),
{
    let after = p.after_prefetch();
    let k = p.queue.len() - after.queue.len();
    if p.can_prefetch() {
        let next = Pager { queue: p.queue.skip(1), ..p }.prefetched(p.queue[0] as int);
        lemma_prefetch_keeps_settled(p);
        law_queue_is_first_in_first_out(next);
        lemma_after_prefetch(next);
        assert(p.queue.skip(1).skip(k - 1) =~= p.queue.skip(k));
        assert forall|i: int| 0 <= i < k implies after.resident_axis(
            #[trigger] p.queue[i] as int,
        ) by {
            if i == 0 {
                assert(next.resident_axis(p.queue[0] as int));
            } else {
                assert(next.queue[i - 1] == p.queue[i]);
            }
        }
        assert forall|i: int| k <= i < p.queue.len() implies !after.resident_axis(
            #[trigger] p.queue[i] as int,
        ) by {
            assert(next.queue[i - 1] == p.queue[i]);
        }
    } else {
        assert(p.queue.skip(0) =~= p.queue);
    }
}

/// One axis brought back leaves the others where they are.
proof fn lemma_prefetch_keeps_settled(p: Pager)
    requires
        p.wf(),
        p.settled(),
        p.can_prefetch(),
    ensures
        ({
            let next = Pager { queue: p.queue.skip(1), ..p }.prefetched(p.queue[0] as int);
            next.wf() && next.settled()
        }),
{
    let rest = Pager { queue: p.queue.skip(1), ..p };
    let next = rest.prefetched(p.queue[0] as int);
    assert(rest.wf());
    lemma_prefetched_wf(rest, p.queue[0] as int);
    assert forall|axis: int| 0 <= axis < NUM_AXES implies (#[trigger] next.table[axis]).state
        == HBM_RESIDENT || (next.table[axis].state == PAGED_OUT && next.queue.contains(
        axis as usize,
    )) by {
        if p.table[axis].state == PAGED_OUT && axis != p.queue[0] {
            let i = choose|i: int| 0 <= i < p.queue.len() && p.queue[i] == axis as usize;
            assert(next.queue[i - 1] == axis as usize);
        }
    }
}

/// Bringing axes back as long as possible keeps the queue and the table together.
proof fn lemma_after_prefetch_settled(p: Pager)
    requires
        p.wf(),
        p.settled(),
    ensures
        p.after_prefetch().settled(),
    decreases p.queue.len(),
{
    if p.can_prefetch() {
        lemma_prefetch_keeps_settled(p);
        lemma_after_prefetch_settled(
            Pager { queue: p.queue.skip(1), ..p }.prefetched(p.queue[0] as int),
        );
    }
}

/// One axis moved out joins the queue.
proof fn lemma_evicted_settled(p: Pager, axis: int)
    requires
        p.wf(),
        p.settled(),
        0 <= axis < NUM_AXES,
    ensures
        p.evicted(axis).settled(),
{
    let evicted = p.evicted(axis);
    assert forall|other: int| 0 <= other < NUM_AXES implies (#[trigger] evicted.table[other]).state
        == HBM_RESIDENT || (evicted.table[other].state == PAGED_OUT && evicted.queue.contains(
        other as usize,
    )) by {
        if p.table[other].state == PAGED_OUT {
            let i = choose|i: int| 0 <= i < p.queue.len() && p.queue[i] == other as usize;
            assert(evicted.queue[i] == other as usize);
        } else if evicted.table[other].state == PAGED_OUT {
            assert(evicted.queue.last() == other as usize);
        }
    }
}

/// At boot the queue holds the axes that did not fit.
proof fn lemma_boot_settled(capacity: nat, threshold: u32)
    ensures
        Pager::boot(capacity, threshold).settled(),
{
    let boot = Pager::boot(capacity, threshold);
    assert forall|axis: int| 0 <= axis < NUM_AXES implies (#[trigger] boot.table[axis]).state
        == HBM_RESIDENT || (boot.table[axis].state == PAGED_OUT && boot.queue.contains(
        axis as usize,
    )) by {
        if axis >= capacity {
            assert(boot.queue[axis - capacity] == axis as usize);
        }
    }
}

/// Law: from boot on, every axis is in HBM or in DRAM, and the queue holds each
/// axis in DRAM exactly once: neither a tick nor an eviction changes that.
pub proof fn law_queue_holds_the_paged_out_axes(
    capacity: nat,
    threshold: u32,
    p: Pager,
    weights: [[Fp8; NUM_AXES]; NUM_CORES],
    axis: int,
)
    requires
        p.wf(),
        p.clock < u64::MAX,
        p.settled(),
        0 <= axis < NUM_AXES,
    ensures
        Pager::boot(capacity, threshold).settled(),
        p.ticked(weights).settled(),
        p.evicted(axis).settled(),
{
    let attended = p.attended(weights);
    let evicted = attended.after_eviction();
    law_coldest_is_a_resident_axis(attended, NUM_AXES as nat);
    lemma_attended_wf(p, weights);
    lemma_after_eviction_wf(attended);
    assert(attended.settled());
    if let Some(coldest) = attended.coldest(NUM_AXES as nat) {
        lemma_evicted_settled(attended, coldest);
    }
    lemma_after_prefetch_settled(evicted);
    lemma_evicted_settled(p, axis);
    lemma_boot_settled(capacity, threshold);
}

/// Law: no axis gets lost between HBM and DRAM: a tick leaves the number of axes
/// in HBM and of those queued in DRAM the same in all.
pub proof fn law_axes_are_conserved(p: Pager, weights: [[Fp8; NUM_AXES]; NUM_CORES])
    requires
        p.wf(),
        p.clock < u64::MAX,
    ensures
        p.ticked(weights).resident + p.ticked(weights).queue.len() == p.resident + p.queue.len(),
{
    let attended = p.attended(weights);
    let evicted = attended.after_eviction();
    law_coldest_is_a_resident_axis(attended, NUM_AXES as nat);
    assert(evicted.resident + evicted.queue.len() == p.resident + p.queue.len());
    lemma_prefetch_conserves(evicted);
}

/// An axis that comes back leaves the queue.
proof fn lemma_prefetch_conserves(p: Pager)
    ensures
        p.after_prefetch().resident + p.after_prefetch().queue.len() == p.resident + p.queue.len(),
    decreases p.queue.len(),
{
    if p.can_prefetch() {
        lemma_prefetch_conserves(
            Pager { queue: p.queue.skip(1), ..p }.prefetched(p.queue[0] as int),
        );
    }
}

/// Law: bringing an axis back undoes its eviction: it is resident at its old
/// HBM address, the count is as before, and no other axis has changed.  Bringing
/// it back a second time changes nothing.
pub proof fn law_prefetch_undoes_eviction(p: Pager, axis: int, other: int)
    requires
        p.wf(),
        p.resident_axis(axis),
        0 <= other < NUM_AXES,
    ensures
        ({
            let out = p.evicted(axis);
            let back = out.prefetched(axis);
            &&& !out.resident_axis(axis)
            &&& out.resident == p.resident - 1
            &&& back.resident_axis(axis)
            &&& back.resident == p.resident
            &&& back.table[other].hbm_addr == p.table[other].hbm_addr
            &&& other != axis ==> out.table[other] == p.table[other]
            &&& other != axis ==> back.table[other] == p.table[other]
            &&& back.prefetched(axis) == back
        }),
{
    lemma_evicted_wf(p, axis);
}

/// Axes come in until there is no room or nothing left to come in.
proof fn lemma_prefetch_fills_room(p: Pager)
    requires
        p.wf(),
        p.settled(),
        forall|axis: int|
            0 <= axis < NUM_AXES ==> (#[trigger] p.table[axis]).last_access == p.clock,
    ensures
        p.after_prefetch().queue.len() == 0 || p.after_prefetch().resident
            >= p.after_prefetch().capacity,
    decreases p.queue.len(),
{
    if p.can_prefetch() {
        lemma_prefetch_keeps_settled(p);
        lemma_prefetch_fills_room(
            Pager { queue: p.queue.skip(1), ..p }.prefetched(p.queue[0] as int),
        );
    }
}

/// Law: after a tick, whenever it comes, HBM is full or nothing is left in DRAM:
/// as long as there is room and an axis waits, it is brought in.
pub proof fn law_room_is_filled(p: Pager, weights: [[Fp8; NUM_AXES]; NUM_CORES])
    requires
        p.wf(),
        p.settled(),
        p.clock < u64::MAX,
    ensures
        p.ticked(weights).queue.len() == 0 || p.ticked(weights).resident >= p.capacity,
        p.ticked(weights).capacity == p.capacity,
{
    let attended = p.attended(weights);
    let evicted = attended.after_eviction();
    law_coldest_is_a_resident_axis(attended, NUM_AXES as nat);
    lemma_attended_wf(p, weights);
    lemma_after_eviction_wf(attended);
    assert(attended.settled());
    if let Some(coldest) = attended.coldest(NUM_AXES as nat) {
        lemma_evicted_settled(attended, coldest);
    }
    assert(evicted.settled());
    lemma_prefetch_fills_room(evicted);
    lemma_after_prefetch(evicted);
}

/// Law: with room in HBM for all its axes, a tick takes none of them out, however
/// little attention they get.
pub proof fn law_nothing_is_evicted_within_capacity(
    p: Pager,
    weights: [[Fp8; NUM_AXES]; NUM_CORES],
    axis: int,
)
    requires
        p.wf(),
        p.clock < u64::MAX,
        p.resident <= p.capacity,
        p.resident_axis(axis),
    ensures
        p.ticked(weights).resident_axis(axis),
        p.ticked(weights).resident >= p.resident,
{
    lemma_attended_wf(p, weights);
    lemma_after_prefetch(p.attended(weights));
    lemma_prefetch_only_adds(p.attended(weights));
    assert(p.attended(weights).resident_axis(axis));
}

/// Bringing axes in takes none out.
proof fn lemma_prefetch_only_adds(p: Pager)
    ensures
        p.after_prefetch().resident >= p.resident,
    decreases p.queue.len(),
{
    if p.can_prefetch() {
        lemma_prefetch_only_adds(
            Pager { queue: p.queue.skip(1), ..p }.prefetched(p.queue[0] as int),
        );
    }
}

/// Law: a tick moves the clock by one and records for every axis, in HBM or not,
/// the average attention of this very cycle and the new time; the capacity, the
/// threshold and the axes' places in HBM stay.
pub proof fn law_tick_records_every_axis(
    p: Pager,
    weights: [[Fp8; NUM_AXES]; NUM_CORES],
    axis: int,
)
    requires
        p.wf(),
        p.clock < u64::MAX,
        0 <= axis < NUM_AXES,
    ensures
        p.ticked(weights).clock == p.clock + 1,
        p.ticked(weights).table[axis].last_access == p.clock + 1,
        p.ticked(weights).table[axis].avg_attention_weight == average_attention(weights, axis),
        p.ticked(weights).capacity == p.capacity,
        p.ticked(weights).threshold == p.threshold,
        p.ticked(weights).table[axis].virtual_axis == axis,
        p.ticked(weights).table[axis].hbm_addr == axis * 128,
        p.ticked(weights).wf(),
{
    let attended = p.attended(weights);
    let evicted = attended.after_eviction();
    law_coldest_is_a_resident_axis(attended, NUM_AXES as nat);
    lemma_attended_wf(p, weights);
    lemma_after_eviction_wf(attended);
    lemma_after_prefetch(evicted);
    assert(evicted.table[axis].avg_attention_weight == attended.table[axis].avg_attention_weight);
    assert(evicted.table[axis].last_access == attended.table[axis].last_access);
    assert(p.ticked(weights).table[axis].virtual_axis == axis);
}

/// Law: an axis that is evicted goes to the end of the queue and to the DRAM page
/// for its bytes, and the others stay as they are; one that is not in HBM is left
/// alone.
pub proof fn law_evicted_axis_is_queued_last(p: Pager, axis: int, other: int)
    requires
        p.wf(),
        0 <= axis < NUM_AXES,
        0 <= other < NUM_AXES,
    ensures
        p.resident_axis(axis) ==> {
            &&& p.evicted(axis).queue == p.queue.push(axis as usize)
            &&& p.evicted(axis).resident == p.resident - 1
            &&& p.evicted(axis).table[axis].state == PAGED_OUT
            &&& p.evicted(axis).table[axis].dram_addr == 0x100_0000_0000 + 128 * 7
            &&& p.evicted(axis).table[axis].avg_attention_weight
                == p.table[axis].avg_attention_weight
            &&& other != axis ==> p.evicted(axis).table[other] == p.table[other]
        },
        !p.resident_axis(axis) ==> p.evicted(axis) == p,
        p.evicted(axis).clock == p.clock,
        p.evicted(axis).capacity == p.capacity,
        p.evicted(axis).threshold == p.threshold,
{
    lemma_evicted_wf(p, axis);
}

/// Law: at boot nothing has been accessed, every axis has its place in HBM, and
/// the axes that do not fit wait in their order.
pub proof fn law_boot_entries(capacity: nat, threshold: u32, axis: int, i: int)
    requires
        0 <= axis < NUM_AXES,
    ensures
        ({
            let boot = Pager::boot(capacity, threshold);
            &&& boot.clock == 0 && boot.capacity == capacity && boot.threshold == threshold
            &&& boot.table.len() == NUM_AXES
            &&& boot.table[axis].virtual_axis == axis
            &&& boot.table[axis].hbm_addr == axis * 128
            &&& boot.table[axis].last_access == 0 && boot.table[axis].avg_attention_weight == 0
            &&& boot.resident + boot.queue.len() == NUM_AXES
            &&& 0 <= i < boot.queue.len() ==> boot.queue[i] == capacity + i
        }),
{
}

/// Law: rounding moves a sum by at most one 512th, leaves it alone where binary32
/// holds it, and goes to the multiple of four where it is halfway; the sign has
/// no part in it.
pub proof fn law_rounding(n: int)
    ensures
        -1 <= rounded(n) - n <= 1,
        -0x100_0000 <= n <= 0x100_0000 || n % 2 == 0 ==> rounded(n) == n,
        !(-0x100_0000 <= n <= 0x100_0000) && n % 2 != 0 ==> rounded(n) % 4 == 0,
        rounded(-n) == -rounded(n),
{
    let m = vstd::math::abs(n) as nat;
    lemma_rounded_magnitude(m);
    if n < 0 {
        let r = rounded_magnitude(m) as int;
        assert(rounded(n) == -r);
        assert(n % 2 == 0 <==> m % 2 == 0);
        assert(r % 4 == 0 ==> (-r) % 4 == 0);
    }
}

/// Rounding of a magnitude.
proof fn lemma_rounded_magnitude(m: nat)
    ensures
        -1 <= rounded_magnitude(m) - m <= 1,
        m <= 0x100_0000 || m % 2 == 0 ==> rounded_magnitude(m) == m,
        m > 0x100_0000 && m % 2 != 0 ==> rounded_magnitude(m) % 4 == 0,
{
    if m > 0x100_0000 && m % 2 != 0 {
        assert(m % 4 == 1 || m % 4 == 3);
        if m % 4 == 1 {
            assert((m - 1) % 4 == 0);
        } else {
            assert((m + 1) % 4 == 0);
        }
    }
}

/// What the first `n` cores pay to an axis, added up without rounding.
spec fn exact_sum(weights: [[Fp8; NUM_AXES]; NUM_CORES], axis: int, n: nat) -> int
    decreases n,
{
    if n == 0 {
        0
    } else {
        exact_sum(weights, axis, (n - 1) as nat) + weights@[n - 1]@[axis].value()
    }
}

/// The rounded sum is near the exact one, and the same for weights below 256.
proof fn lemma_sum_is_near(weights: [[Fp8; NUM_AXES]; NUM_CORES], axis: int, n: nat)
    requires
        n <= NUM_CORES,
    ensures
        ({
            let d = attention_sum(weights, axis, n) - exact_sum(weights, axis, n);
            -(n as int) <= d <= n
        }),
        (forall|core: int|
            0 <= core < n ==> -0x2_0000 <= (#[trigger] weights@[core]@[axis]).value() <= 0x2_0000)
            ==> {
            &&& attention_sum(weights, axis, n) == exact_sum(weights, axis, n)
            &&& -0x2_0000 * n <= exact_sum(weights, axis, n) <= 0x2_0000 * n
        },
    decreases n,
{
    if n > 0 {
        lemma_sum_is_near(weights, axis, (n - 1) as nat);
        law_rounding(
            attention_sum(weights, axis, (n - 1) as nat) + weights@[n - 1]@[axis].value(),
        );
    }
}

/// One weight that differs makes the exact sum differ by as much.
proof fn lemma_exact_sums_differ(
    a: [[Fp8; NUM_AXES]; NUM_CORES],
    b: [[Fp8; NUM_AXES]; NUM_CORES],
    axis: int,
    core: int,
    n: nat,
)
    requires
        n <= NUM_CORES,
        forall|c: int|
            0 <= c < n && c != core ==> #[trigger] a@[c]@[axis].value() == b@[c]@[axis].value(),
    ensures
        exact_sum(b, axis, n) - exact_sum(a, axis, n) == (if 0 <= core < n {
            b@[core]@[axis].value() - a@[core]@[axis].value()
        } else {
            0
        }),
    decreases n,
{
    if n > 0 {
        lemma_exact_sums_differ(a, b, axis, core, (n - 1) as nat);
        if n - 1 != core {
            assert(a@[n - 1]@[axis].value() == b@[n - 1]@[axis].value());
        }
    }
}

/// Law: the attention to an axis follows the weight of every single core: where
/// two sets of weights differ in one core, the sums differ by as much, exactly
/// if no weight is above 256, and else up to the rounding of each addition.
/// Other axes have no part in it.
pub proof fn law_attention_follows_every_core(
    a: [[Fp8; NUM_AXES]; NUM_CORES],
    b: [[Fp8; NUM_AXES]; NUM_CORES],
    axis: int,
    core: int,
)
    requires
        0 <= axis < NUM_AXES,
        0 <= core < NUM_CORES,
        forall|c: int|
            0 <= c < NUM_CORES && c != core ==> #[trigger] a@[c]@[axis].value()
                == b@[c]@[axis].value(),
    ensures
        ({
            let sums = attention_sum(b, axis, NUM_CORES as nat) - attention_sum(
                a,
                axis,
                NUM_CORES as nat,
            );
            let weights = b@[core]@[axis].value() - a@[core]@[axis].value();
            &&& -256 <= sums - weights <= 256
            &&& (forall|c: int|
                0 <= c < NUM_CORES ==> -0x2_0000 <= (#[trigger] a@[c]@[axis]).value() <= 0x2_0000)
                && -0x2_0000 <= b@[core]@[axis].value() <= 0x2_0000 ==> sums == weights
        }),
{
    lemma_sum_is_near(a, axis, NUM_CORES as nat);
    lemma_sum_is_near(b, axis, NUM_CORES as nat);
    lemma_exact_sums_differ(a, b, axis, core, NUM_CORES as nat);
    if forall|c: int|
        0 <= c < NUM_CORES ==> -0x2_0000 <= (#[trigger] a@[c]@[axis]).value() <= 0x2_0000 {
        if -0x2_0000 <= b@[core]@[axis].value() <= 0x2_0000 {
            assert forall|c: int| 0 <= c < NUM_CORES implies -0x2_0000 <= (
            #[trigger] b@[c]@[axis]).value() <= 0x2_0000 by {
                if c != core {
                    assert(a@[c]@[axis].value() == b@[c]@[axis].value());
                }
            }
        }
    }
}

/// Law: an axis that no core pays attention to has a sum of zero.
pub proof fn law_no_attention_adds_up_to_none(
    weights: [[Fp8; NUM_AXES]; NUM_CORES],
    axis: int,
    n: nat,
)
    requires
        n <= NUM_CORES,
        forall|core: int| 0 <= core < n ==> (#[trigger] weights@[core]@[axis]).value() == 0,
    ensures
        attention_sum(weights, axis, n) == 0,
    decreases n,
{
    if n > 0 {
        law_no_attention_adds_up_to_none(weights, axis, (n - 1) as nat);
    }
}

/// Law: a NaN of any core, or infinities of both signs, make the average a NaN;
/// an infinity of any core makes it that infinity otherwise.
pub proof fn law_average_of_special_weights(
    weights: [[Fp8; NUM_AXES]; NUM_CORES],
    axis: int,
    core: int,
    other: int,
)
    requires
        0 <= core < NUM_CORES,
        0 <= other < NUM_CORES,
    ensures
        ({
            let w = weights@[core]@[axis];
            let v = weights@[other]@[axis];
            let average = average_attention(weights, axis);
            &&& w.nan() ==> average == binary32::QUIET_NAN
            &&& w.infinite() && v.infinite() && w.minus() != v.minus() ==> average
                == binary32::QUIET_NAN
            &&& w.infinite() && (forall|c: int|
                0 <= c < NUM_CORES ==> !(#[trigger] weights@[c]@[axis]).nan() && (
                weights@[c]@[axis].infinite() ==> weights@[c]@[axis].minus() == w.minus()))
                ==> average == (if w.minus() {
                binary32::NEGATIVE_INFINITY
            } else {
                binary32::POSITIVE_INFINITY
            })
        }),
{
    let w = weights@[core]@[axis];
    let v = weights@[other]@[axis];
    if w.nan() {
        assert(has_nan(weights, axis, NUM_CORES as int));
    }
    if w.infinite() {
        assert(has_infinity(weights, axis, NUM_CORES as int, w.minus()));
    }
    if v.infinite() {
        assert(has_infinity(weights, axis, NUM_CORES as int, v.minus()));
    }
}

} // verus!
