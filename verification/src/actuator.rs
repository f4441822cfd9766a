//! Task dispatch: from the dispatch map that the strategy engine writes to the
//! core that each task runs on.
//!
//! The choice of a core is free of conditional branches: the comparison is
//! turned into a bit mask, and the chosen core indexes a table of trampolines,
//! each of which is machine code that hands back its core number.
use crate::types::Fp8;
use vstd::prelude::*;

verus! {

/// The dispatch map that the strategy engine computes.
///
/// In the shared block the map lies at a multiple of 256; a value anywhere else
/// is aligned as a byte is.
pub struct ActuatorCommand {
    /// Element (i, j) is the convergence weight for putting task i on core j;
    /// a higher value is a stronger affinity.
    pub target_dispatch_map: [[Fp8; 128]; 128],
}

impl ActuatorCommand {
    /// Bytes in the dispatch map.
    pub const SIZE: usize = 128 * 128;

    /// The map as one block of memory, row after row.
    pub fn as_ptr(&self) -> (r: &[[Fp8; 128]; 128])
        ensures
            *r == self.target_dispatch_map,
    {
        &self.target_dispatch_map
    }

    /// The map as one writable block of memory, row after row.
    pub fn as_mut_ptr(&mut self) -> (r: &mut [[Fp8; 128]; 128])
        ensures
            *r == old(self).target_dispatch_map,
            final(self).target_dispatch_map == *final(r),
    {
        &mut self.target_dispatch_map
    }
}

/// Cores in the dispatch table.
pub const MAX_CORES: usize = 128;

/// Eight bytes of x86-64 code: `mov eax, <core id>; ret`, padded with `nop`.
/// Whoever copies them to executable memory gives each a cache line of its own.
#[derive(Clone, Copy)]
pub struct CoreTrampoline {
    pub code: [u8; 8],
}

impl CoreTrampoline {
    /// The little-endian operand of the `mov`.
    pub open spec fn operand(self) -> nat {
        (self.code@[1] + self.code@[2] * 0x100 + self.code@[3] * 0x1_0000 + self.code@[4]
            * 0x100_0000) as nat
    }

    /// The code is `mov eax, <core>; ret; nop; nop`.
    pub open spec fn hands_back(self, core: nat) -> bool {
        &&& self.code@[0] == 0xB8
        &&& self.operand() == core
        &&& self.code@[5] == 0xC3
        &&& self.code@[6] == 0x90
        &&& self.code@[7] == 0x90
    }

    /// Assemble the trampoline of one core.
    pub fn assemble(core: usize) -> (r: CoreTrampoline)
        requires
            core <= u32::MAX,
        ensures
            r.hands_back(core as nat),
    {
        CoreTrampoline {
            code: [
                0xB8,
                (core % 0x100) as u8,
                (core / 0x100 % 0x100) as u8,
                (core / 0x1_0000 % 0x100) as u8,
                (core / 0x100_0000 % 0x100) as u8,
                0xC3,
                0x90,
                0x90,
            ],
        }
    }

    /// What a call of the code leaves in `eax`.
    pub fn call(&self) -> (r: usize)
        requires
            self.code@[0] == 0xB8,
            self.code@[5] == 0xC3,
        ensures
            r == self.operand(),
    {
        self.code[1] as usize + self.code[2] as usize * 0x100 + self.code[3] as usize * 0x1_0000
            + self.code[4] as usize * 0x100_0000
    }
}

/// One trampoline for each core, found by core number.
pub struct DispatchTable {
    entries: [CoreTrampoline; 128],
}

impl View for DispatchTable {
    type V = Seq<CoreTrampoline>;

    closed spec fn view(&self) -> Seq<CoreTrampoline> {
        self.entries@
    }
}

impl DispatchTable {
    #[verifier::type_invariant]
    spec fn wf(self) -> bool {
        forall|core: int|
            0 <= core < MAX_CORES ==> (#[trigger] self.entries@[core]).hands_back(core as nat)
    }

    /// Assemble the trampolines of all cores.
    pub fn new() -> (r: DispatchTable)
        ensures
            r@.len() == MAX_CORES,
            forall|core: int|
                0 <= core < MAX_CORES ==> (#[trigger] r@[core]).hands_back(core as nat),
    {
        let mut entries: [CoreTrampoline; 128] = [CoreTrampoline::assemble(0); 128];
        for core in 0..MAX_CORES
            invariant
                forall|c: int| 0 <= c < core ==> (#[trigger] entries@[c]).hands_back(c as nat),
        {
            entries[core] = CoreTrampoline::assemble(core);
        }
        DispatchTable { entries }
    }

    /// The code of one core's trampoline.
    pub fn trampoline_ptr(&self, core: usize) -> (r: &[u8; 8])
        requires
            core < MAX_CORES,
        ensures
            *r == self@[core as int].code,
            self@[core as int].hands_back(core as nat),
            r@ == seq![0xB8u8, core as u8, 0, 0, 0, 0xC3, 0x90, 0x90],
    {
        proof {
            use_type_invariant(self);
            law_trampoline_bytes(self@[core as int], core as nat);
        }
        &self.entries[core].code
    }

    /// Call one core's trampoline.
    pub fn jump(&self, core: usize) -> (r: usize)
        requires
            core < MAX_CORES,
        ensures
            r == self@[core as int].operand(),
            r == core,
    {
        proof {
            use_type_invariant(self);
        }
        self.entries[core].call()
    }
}

/// A weight's place in the order of weights: without the sign bit a larger
/// pattern is a larger weight, with it a smaller one, and the two zeros are equal.
pub open spec fn rank(w: Fp8) -> int {
    if w.minus() {
        -(w.pattern() as int)
    } else {
        w.pattern() as int
    }
}

/// `core` holds the highest weight of the row, and no earlier core holds as high
/// a weight.
pub open spec fn is_first_maximum(row: Seq<Fp8>, core: int) -> bool {
    &&& 0 <= core < row.len()
    &&& forall|j: int| 0 <= j < row.len() ==> rank(#[trigger] row[j]) <= rank(row[core])
    &&& forall|j: int| 0 <= j < core ==> rank(#[trigger] row[j]) < rank(row[core])
}

/// A byte that orders weights by their rank, without a branch: the sign bit is
/// spread to a mask that negates the lower bits.
fn order_key(w: Fp8) -> (r: u8)
    ensures
        r == rank(w) + 128,
{
    let x: u8 = w.0;
    let lower: u8 = x & 0x7F;
    let mask: u8 = 0u8.wrapping_sub(x >> 7);
    let key: u8 = (lower ^ mask).wrapping_sub(mask).wrapping_add(0x80);
    proof {
        assert(x & 0x7F == x % 0x80) by (bit_vector);
        assert(x >> 7 == (if x >= 0x80 {
            1u8
        } else {
            0u8
        })) by (bit_vector);
        assert(lower ^ 0u8 == lower) by (bit_vector);
        assert(lower <= 0x7F ==> lower ^ 0xFFu8 == 0xFF - lower) by (bit_vector);
    }
    key
}

/// One when `val` is above `best`, else zero, without a branch.
fn above(best: u8, val: u8) -> (r: u8)
    ensures
        r == (if val > best {
            1u8
        } else {
            0u8
        }),
{
    let difference: u16 = (best as u16).wrapping_sub(val as u16);
    assert(difference >= 0xFF00 ==> difference >> 15 == 1) by (bit_vector);
    assert(difference <= 0xFF ==> difference >> 15 == 0) by (bit_vector);
    (difference >> 15) as u8
}

/// Dispatches tasks to cores.
pub struct Actuator {
    dispatch_table: DispatchTable,
}

impl Actuator {
    /// An actuator with a fresh dispatch table.
    pub fn new() -> (r: Actuator)
        ensures
            r.table().len() == MAX_CORES,
            forall|core: int|
                0 <= core < MAX_CORES ==> (#[trigger] r.table()[core]).hands_back(core as nat),
    {
        Actuator { dispatch_table: DispatchTable::new() }
    }

    /// The trampolines that dispatch goes through.
    pub closed spec fn table(self) -> Seq<CoreTrampoline> {
        self.dispatch_table@
    }

    /// The core that task `task_id` is dispatched to: the one with the highest
    /// weight in the task's row, the first of them where several share it.
    pub fn dispatch_one(&self, cmd: &ActuatorCommand, task_id: usize) -> (r: usize)
        requires
            task_id < 128,
        ensures
            is_first_maximum(cmd.target_dispatch_map@[task_id as int]@, r as int),
    {
        let row: &[Fp8; 128] = &cmd.target_dispatch_map[task_id];
        let mut best_core: u8 = 0;
        let mut best_val: u8 = order_key(row[0]);
        for i in 1..128u8
            invariant
                best_core < i,
                best_val == rank(row@[best_core as int]) + 128,
                forall|j: int| 0 <= j < i ==> rank(#[trigger] row@[j]) + 128 <= best_val,
                forall|j: int| 0 <= j < best_core ==> rank(#[trigger] row@[j]) + 128 < best_val,
        {
            let val: u8 = order_key(row[i as usize]);
            let mask: u8 = 0u8.wrapping_sub(above(best_val, val));
            assert((best_core & !0xFFu8) | (i & 0xFFu8) == i) by (bit_vector);
            assert((best_core & !0u8) | (i & 0u8) == best_core) by (bit_vector);
            assert((best_val & !0xFFu8) | (val & 0xFFu8) == val) by (bit_vector);
            assert((best_val & !0u8) | (val & 0u8) == best_val) by (bit_vector);
            best_core = (best_core & !mask) | (i & mask);
            best_val = (best_val & !mask) | (val & mask);
        }
        self.dispatch_table.jump(best_core as usize)
    }

    /// The core of every task, one for each of the 128 task rows.
    pub fn dispatch_all(&self, cmd: &ActuatorCommand) -> (r: Vec<usize>)
        ensures
            r@.len() == 128,
            forall|task: int|
                0 <= task < 128 ==> is_first_maximum(
                    cmd.target_dispatch_map@[task]@,
                    #[trigger] r@[task] as int,
                ),
    {
        let mut targets: Vec<usize> = Vec::new();
        for task_id in 0..128usize
            invariant
                targets@.len() == task_id,
                forall|task: int|
                    0 <= task < task_id ==> is_first_maximum(
                        cmd.target_dispatch_map@[task]@,
                        #[trigger] targets@[task] as int,
                    ),
        {
            let core: usize = self.dispatch_one(cmd, task_id);
            targets.push(core);
        }
        targets
    }
}

/// Law: a row has exactly one core that dispatch can choose.
pub proof fn law_dispatch_is_determined(row: Seq<Fp8>, a: int, b: int)
    requires
        is_first_maximum(row, a),
        is_first_maximum(row, b),
    ensures
        a == b,
{
    assert(rank(row[a]) <= rank(row[b]) && rank(row[b]) <= rank(row[a]));
}

/// Law: in a row of finite weights, no core has a higher weight, as a number, than
/// the one that dispatch chooses, and no earlier core has as high a weight.
pub proof fn law_dispatch_finds_the_highest_weight(row: Seq<Fp8>, core: int, other: int)
    requires
        is_first_maximum(row, core),
        forall|j: int| 0 <= j < row.len() ==> (#[trigger] row[j]).finite(),
        0 <= other < row.len(),
    ensures
        row[other].value() <= row[core].value(),
        other < core ==> row[other].value() < row[core].value(),
{
    law_rank_orders_numbers(row[other], row[core]);
    law_rank_orders_numbers(row[core], row[other]);
}

/// Law: the rank orders finite weights as numbers.
pub proof fn law_rank_orders_numbers(a: Fp8, b: Fp8)
    requires
        a.finite(),
        b.finite(),
    ensures
        rank(a) < rank(b) <==> a.value() < b.value(),
        rank(a) == rank(b) <==> a.value() == b.value(),
{
    crate::types::lemma_units_ordered(a, b);
    crate::types::lemma_units_ordered(b, a);
    crate::types::lemma_units_ordered(a, Fp8(Fp8::ZERO));
    crate::types::lemma_units_ordered(b, Fp8(Fp8::ZERO));
    crate::types::lemma_units_ordered(Fp8(Fp8::ZERO), a);
    crate::types::lemma_units_ordered(Fp8(Fp8::ZERO), b);
}

/// Law: no weight of the row, finite or not, is above the chosen one: without a
/// sign bit a larger byte is above a smaller one, with it below, and a weight
/// with a sign bit is above none without.
pub proof fn law_dispatch_compares_all_patterns(row: Seq<Fp8>, core: int, other: int)
    requires
        is_first_maximum(row, core),
        0 <= other < row.len(),
    ensures
        0 <= core < row.len(),
        ({
            let best = row[core].0;
            let w = row[other].0;
            &&& best < 0x80 && w < 0x80 ==> w <= best && (other < core ==> w < best)
            &&& best >= 0x80 && w >= 0x80 ==> w >= best && (other < core ==> w > best)
            &&& best > 0x80 ==> w >= 0x80
            &&& best == 0x80 && w < 0x80 ==> w == 0 && core <= other
            &&& best == 0 && w == 0x80 ==> core <= other
        }),
{
    let best = row[core];
    let w = row[other];
    assert(rank(w) <= rank(best));
}

/// Law: the operand of a trampoline is little-endian: the code that hands back a
/// core is `mov eax` with the four bytes of the core number, lowest first.
pub proof fn law_operand_is_little_endian(trampoline: CoreTrampoline, core: nat)
    requires
        trampoline.hands_back(core),
    ensures
        core < 0x1_0000_0000,
        trampoline.code@[0] == 0xB8,
        trampoline.code@[1] == core % 0x100,
        trampoline.code@[2] == core / 0x100 % 0x100,
        trampoline.code@[3] == core / 0x1_0000 % 0x100,
        trampoline.code@[4] == core / 0x100_0000,
        trampoline.code@[5] == 0xC3,
{
}

/// Law: the code that hands back a core of the table is `mov eax, <core>` with a
/// one-byte core number, `ret` and two `nop`s.
pub proof fn law_trampoline_bytes(trampoline: CoreTrampoline, core: nat)
    requires
        core < MAX_CORES,
    ensures
        trampoline.hands_back(core) <==> trampoline.code@ == seq![
            0xB8u8,
            core as u8,
            0,
            0,
            0,
            0xC3,
            0x90,
            0x90,
        ],
{
    if trampoline.hands_back(core) {
        assert(trampoline.code@ =~= seq![0xB8u8, core as u8, 0, 0, 0, 0xC3, 0x90, 0x90]);
    }
}

} // verus!
