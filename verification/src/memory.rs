//! Memory shared between the CPU and the strategy engine.
//!
//! Mapping memory is a conversation with the operating system.  This module
//! holds the library's side of it: which request comes next, and what the
//! answers add up to.  The caller performs the requests.
use crate::actuator::ActuatorCommand;
use crate::kernel_state::KernelStateMatrix;
use crate::text;
use crate::types::zero_state_matrix;
use crate::types::Fp8;
use vstd::arithmetic::power2::*;
use vstd::bits::*;
use vstd::prelude::*;

verus! {

/// Memory policy that allows only the given nodes.
pub const MPOL_BIND: i32 = 2;

/// Move pages that are on other nodes.
pub const MPOL_MF_MOVE: u32 = 1;

/// Fail if pages cannot be moved.
pub const MPOL_MF_STRICT: u32 = 2;

/// Bits in the node mask of a binding.
pub const NODE_MASK_BITS: u64 = 64;

/// One directory below /sys/devices/system/node/.
pub struct NodeEntry {
    /// Name of the directory.
    pub name: String,
    /// Text of its file `has_cxl_memory`, if that can be read.
    pub has_cxl_memory: Option<String>,
    /// Text of its file `cpulist`, if that can be read.
    pub cpulist: Option<String>,
}

impl NodeEntry {
    /// The number of the NUMA node that the directory is about.
    pub open spec fn node_id(self) -> Option<nat> {
        if text::begins_with(self.name@, "node"@) {
            text::number(self.name@.skip("node"@.len() as int), usize::MAX as nat)
        } else {
            None
        }
    }

    /// The node says that it has CXL memory.
    pub open spec fn flagged(self) -> bool {
        self.has_cxl_memory matches Some(flag) && text::trimmed(flag@) == "1"@
    }

    /// The node has memory but no CPUs.
    pub open spec fn memory_only(self) -> bool {
        self.cpulist matches Some(list) && text::trimmed(list@).len() == 0
    }

    /// What this directory adds to the list of CXL nodes: its node, once for
    /// each sign that it has CXL memory.
    pub open spec fn cxl_nodes(self) -> Seq<usize> {
        match self.node_id() {
            Some(id) => {
                let by_flag = if self.flagged() {
                    seq![id as usize]
                } else {
                    seq![]
                };
                if self.memory_only() {
                    by_flag.push(id as usize)
                } else {
                    by_flag
                }
            },
            None => seq![],
        }
    }
}

/// The nodes that the directories add up to, in their order.
pub open spec fn listed_nodes(entries: Seq<NodeEntry>) -> Seq<usize>
    decreases entries.len(),
{
    if entries.len() == 0 {
        seq![]
    } else {
        listed_nodes(entries.drop_last()) + entries.last().cxl_nodes()
    }
}

/// The nodes to allocate from; node 0 if no directory tells of CXL memory.
pub open spec fn detected_nodes(entries: Seq<NodeEntry>) -> Seq<usize> {
    if listed_nodes(entries).len() == 0 {
        seq![0usize]
    } else {
        listed_nodes(entries)
    }
}

/// How far an allocation has come.
#[derive(Clone, Copy, PartialEq, Eq, Debug, Structural)]
pub enum AllocStage {
    /// Huge pages are to be mapped.
    MapHuge,
    /// Huge pages were refused; ordinary pages are to be mapped.
    MapPlain,
    /// Memory is mapped at the address and is to be bound to the node.
    Bind(u64),
    /// All is done; the address of the memory, if there is any.
    Done(Option<u64>),
}

/// What the operating system is asked to do next.
#[derive(Clone, Copy, PartialEq, Eq, Debug, Structural)]
pub enum AllocAction {
    /// Map `len` bytes of readable and writable anonymous memory.
    MapMemory { len: usize, shared: bool, huge_pages: bool },
    /// Set the memory policy of the `len` bytes at `addr`.
    Bind { addr: u64, len: usize, mode: i32, nodemask: u64, maxnode: u64, flags: u32 },
    /// Nothing; the allocation has this result.
    Finish(Option<u64>),
}

/// What the operating system answered.
#[derive(Clone, Copy, PartialEq, Eq, Debug, Structural)]
pub enum AllocEvent {
    /// Memory was mapped at this address.
    Mapped(u64),
    /// Memory could not be mapped.
    MapFailed,
    /// The policy was set, or could not be set.
    Bound,
}

/// An address, unless it is null.
pub open spec fn non_null(addr: u64) -> Option<u64> {
    if addr == 0 {
        None
    } else {
        Some(addr)
    }
}

/// An allocation on a NUMA node in progress.
#[derive(Clone, Copy, PartialEq, Eq, Debug, Structural)]
pub struct CxlAllocation {
    /// Bytes to allocate.
    pub size: usize,
    /// Node to allocate on.
    pub numa_node: usize,
    /// How far it has come.
    pub stage: AllocStage,
}

impl CxlAllocation {
    /// Only a node that the node mask can name is ever bound to.
    pub open spec fn wf(self) -> bool {
        self.stage is Bind ==> self.numa_node < NODE_MASK_BITS
    }

    /// The request that the current stage is about.
    pub open spec fn request(self) -> AllocAction {
        match self.stage {
            AllocStage::MapHuge => AllocAction::MapMemory {
                len: self.size,
                shared: true,
                huge_pages: true,
            },
            AllocStage::MapPlain => AllocAction::MapMemory {
                len: self.size,
                shared: true,
                huge_pages: false,
            },
            AllocStage::Bind(addr) => AllocAction::Bind {
                addr,
                len: self.size,
                mode: MPOL_BIND,
                nodemask: pow2(self.numa_node as nat) as u64,
                maxnode: NODE_MASK_BITS,
                flags: (MPOL_MF_MOVE + MPOL_MF_STRICT) as u32,
            },
            AllocStage::Done(addr) => AllocAction::Finish(addr),
        }
    }

    /// The event answers the current request.
    pub open spec fn expects(self, event: AllocEvent) -> bool {
        match self.stage {
            AllocStage::MapHuge | AllocStage::MapPlain => event is Mapped || event is MapFailed,
            AllocStage::Bind(_) => event is Bound,
            AllocStage::Done(_) => false,
        }
    }

    /// The allocation after the answer: ordinary pages are tried after huge
    /// ones, memory is bound once it is mapped, and a binding that fails is no
    /// reason to give the memory up.
    pub open spec fn after(self, event: AllocEvent) -> CxlAllocation {
        let stage = match (self.stage, event) {
            (AllocStage::MapHuge, AllocEvent::MapFailed) => AllocStage::MapPlain,
            (AllocStage::MapPlain, AllocEvent::MapFailed) => AllocStage::Done(None),
            (AllocStage::MapHuge, AllocEvent::Mapped(addr)) => AllocStage::Bind(addr),
            (AllocStage::MapPlain, AllocEvent::Mapped(addr)) => AllocStage::Bind(addr),
            (AllocStage::Bind(addr), AllocEvent::Bound) => AllocStage::Done(non_null(addr)),
            (stage, _) => stage,
        };
        CxlAllocation { stage, ..self }
    }

    /// The next request.
    pub fn action(&self) -> (r: AllocAction)
        requires
            self.wf(),
        ensures
            r == self.request(),
    {
        match self.stage {
            AllocStage::MapHuge => AllocAction::MapMemory {
                len: self.size,
                shared: true,
                huge_pages: true,
            },
            AllocStage::MapPlain => AllocAction::MapMemory {
                len: self.size,
                shared: true,
                huge_pages: false,
            },
            AllocStage::Bind(addr) => {
                let node: u64 = self.numa_node as u64;
                proof {
                    lemma_u64_pow2_no_overflow(node as nat);
                    lemma_u64_shl_is_mul(1, node);
                }
                AllocAction::Bind {
                    addr,
                    len: self.size,
                    mode: MPOL_BIND,
                    nodemask: 1u64 << node,
                    maxnode: NODE_MASK_BITS,
                    flags: MPOL_MF_MOVE + MPOL_MF_STRICT,
                }
            },
            AllocStage::Done(addr) => AllocAction::Finish(addr),
        }
    }

    /// Take the answer to the current request.
    pub fn advance(&mut self, event: AllocEvent)
        requires
            old(self).wf(),
            old(self).expects(event),
            event is Mapped ==> old(self).numa_node < NODE_MASK_BITS,
        ensures
            *final(self) == old(self).after(event),
            final(self).wf(),
    {
        match (self.stage, event) {
            (AllocStage::MapHuge, AllocEvent::MapFailed) => {
                self.stage = AllocStage::MapPlain;
            },
            (AllocStage::MapPlain, AllocEvent::MapFailed) => {
                self.stage = AllocStage::Done(None);
            },
            (AllocStage::MapHuge, AllocEvent::Mapped(addr)) => {
                self.stage = AllocStage::Bind(addr);
            },
            (AllocStage::MapPlain, AllocEvent::Mapped(addr)) => {
                self.stage = AllocStage::Bind(addr);
            },
            (AllocStage::Bind(addr), AllocEvent::Bound) => {
                self.stage = AllocStage::Done(if addr == 0 { None } else { Some(addr) });
            },
            _ => {},
        }
    }
}

/// Allocates memory on CXL-attached NUMA nodes.
pub struct CxlAllocator;

impl CxlAllocator {
    /// The NUMA nodes with CXL memory, from the directories that describe the
    /// nodes; node 0 if there are none.
    pub fn detect_cxl_nodes(entries: &Vec<NodeEntry>) -> (r: Vec<usize>)
        ensures
            r@ == detected_nodes(entries@),
            r@.len() > 0,
    {
        let mut nodes: Vec<usize> = Vec::new();
        assert(entries@.take(0) =~= Seq::<NodeEntry>::empty());
        for k in 0..entries.len()
            invariant
                nodes@ == listed_nodes(entries@.take(k as int)),
        {
            let entry: &NodeEntry = &entries[k];
            let ghost before = nodes@;
            assert(entries@.take(k + 1).drop_last() =~= entries@.take(k as int));
            if let Some(id) = Self::parse_node_id(&entry.name) {
                if let Some(flag) = &entry.has_cxl_memory {
                    let flag: Vec<char> = text::trim(&text::chars_of(flag.as_str()));
                    if Self::is_one(&flag) {
                        nodes.push(id);
                    }
                }
                if let Some(list) = &entry.cpulist {
                    if text::trim(&text::chars_of(list.as_str())).len() == 0 {
                        nodes.push(id);
                    }
                }
            }
            assert(nodes@ =~= before + entry.cxl_nodes());
        }
        assert(entries@.take(entries@.len() as int) =~= entries@);
        if nodes.len() == 0 {
            nodes.push(0);
        }
        nodes
    }

    /// The node number in a directory name.
    fn parse_node_id(name: &String) -> (r: Option<usize>)
        ensures
            r == (if text::begins_with(name@, "node"@) {
                match text::number(name@.skip("node"@.len() as int), usize::MAX as nat) {
                    Some(n) => Some(n as usize),
                    None => None,
                }
            } else {
                None
            }),
    {
        let chars: Vec<char> = text::chars_of(name.as_str());
        if !text::starts_with(&chars, "node") {
            return None;
        }
        proof {
            reveal_strlit("node");
        }
        let mut digits: Vec<char> = Vec::new();
        for i in 4..chars.len()
            invariant
                4 <= chars@.len(),
                digits@ == chars@.subrange(4, i as int),
        {
            digits.push(chars[i]);
            assert(digits@ =~= chars@.subrange(4, i + 1));
        }
        assert(digits@ =~= name@.skip(4));
        match text::parse_number(&digits, usize::MAX as u64) {
            Some(n) => Some(n as usize),
            None => None,
        }
    }

    /// Whether a text is "1".
    fn is_one(s: &Vec<char>) -> (r: bool)
        ensures
            r == (s@ == "1"@),
    {
        proof {
            reveal_strlit("1");
            if s@.len() == 1 && s@[0] == '1' {
                assert(s@ =~= "1"@);
            }
        }
        s.len() == 1 && s[0] == '1'
    }

    /// Start an allocation of `size` bytes on a NUMA node.
    pub fn allocate_on_cxl(size: usize, numa_node: usize) -> (r: CxlAllocation)
        ensures
            r.wf(),
            r.size == size,
            r.numa_node == numa_node,
            r.stage == AllocStage::MapHuge,
    {
        CxlAllocation { size, numa_node, stage: AllocStage::MapHuge }
    }
}

/// The state matrix, written by the CPU, and the actuator command, written by
/// the strategy engine, side by side in one block of shared memory.  A value
/// stands for the block at `base`, which is the address that is aligned.
pub struct SharedMemoryContext {
    /// CPU to engine: telemetry.
    pub state_matrix: KernelStateMatrix,
    /// Engine to CPU: dispatch map.
    pub actuator_command: ActuatorCommand,
    /// Where the block starts.
    pub base: u64,
}

impl SharedMemoryContext {
    /// Bytes in the block: two matrices of 128 by 128 bytes.
    pub const SIZE: usize = 2 * 128 * 128;

    /// The block starts at a multiple of this.
    pub const ALIGN: u64 = 4096;

    /// The block is aligned and does not run past the end of the address space.
    pub open spec fn wf(self) -> bool {
        self.base % Self::ALIGN == 0 && self.base + Self::SIZE <= u64::MAX
    }

    /// Start the allocation of a block, on the first node with CXL memory.
    pub fn allocate(entries: &Vec<NodeEntry>) -> (r: CxlAllocation)
        ensures
            r.wf(),
            r.size == Self::SIZE,
            r.numa_node == detected_nodes(entries@)[0],
            r.stage == AllocStage::MapHuge,
    {
        let nodes: Vec<usize> = CxlAllocator::detect_cxl_nodes(entries);
        CxlAllocator::allocate_on_cxl(Self::SIZE, nodes[0])
    }

    /// The context in a block of fresh memory, which is zero.
    pub fn mapped_at(base: u64) -> (r: SharedMemoryContext)
        requires
            base % Self::ALIGN == 0,
            base + Self::SIZE <= u64::MAX,
        ensures
            r.wf(),
            r.base == base,
            forall|i: int, j: int|
                0 <= i < 128 && 0 <= j < 128 ==> #[trigger] r.state_matrix.data@[i]@[j] == Fp8(
                    Fp8::ZERO,
                ),
            forall|i: int, j: int|
                0 <= i < 128 && 0 <= j < 128
                    ==> #[trigger] r.actuator_command.target_dispatch_map@[i]@[j] == Fp8(Fp8::ZERO),
    {
        SharedMemoryContext {
            state_matrix: KernelStateMatrix { data: zero_state_matrix() },
            actuator_command: ActuatorCommand { target_dispatch_map: zero_state_matrix() },
            base,
        }
    }

    /// The address of the block, which the engine uses as well.
    pub fn physical_address(&self) -> (r: u64)
        ensures
            r == self.base,
    {
        self.base
    }

    /// The address of the state matrix, at the start of the block.
    pub fn state_matrix_gpu_ptr(&self) -> (r: u64)
        ensures
            r == self.base,
    {
        self.base
    }

    /// The address of the actuator command, behind the state matrix.
    pub fn actuator_command_gpu_ptr(&self) -> (r: u64)
        requires
            self.wf(),
        ensures
            r == self.base + KernelStateMatrix::SIZE,
    {
        self.base + KernelStateMatrix::SIZE as u64
    }
}

/// How far the mapping of a PCIe BAR has come.
#[derive(Clone, Copy, PartialEq, Eq, Debug, Structural)]
pub enum BarStage {
    /// The memory device is to be opened.
    Open,
    /// The device is open and the BAR is to be mapped.
    MapBar(i32),
    /// The device is to be closed; the address of the BAR, if it was mapped.
    Close(i32, Option<u64>),
    /// All is done; the address of the BAR, if it was mapped.
    Done(Option<u64>),
}

/// What the operating system is asked to do next.
#[derive(Clone, Copy, PartialEq, Eq, Debug, Structural)]
pub enum BarAction {
    /// Open the memory device for reading and writing, without caching.
    Open,
    /// Map `len` readable, writable and shared bytes of the device from `offset` on.
    MapDevice { fd: i32, len: usize, offset: u64 },
    /// Close the device.
    Close { fd: i32 },
    /// Nothing; the mapping has this result.
    Finish(Option<u64>),
}

/// What the operating system answered.
#[derive(Clone, Copy, PartialEq, Eq, Debug, Structural)]
pub enum BarEvent {
    /// The device was opened as this descriptor; a negative one is a failure.
    Opened(i32),
    /// The BAR was mapped at this address.
    Mapped(u64),
    /// The BAR could not be mapped.
    MapFailed,
    /// The device was closed, or could not be closed.
    Closed,
}

/// The mapping of a PCIe BAR in progress.
#[derive(Clone, Copy, PartialEq, Eq, Debug, Structural)]
pub struct BarMapping {
    /// Physical address of the BAR.
    pub bar_addr: u64,
    /// Bytes in the BAR.
    pub size: usize,
    /// How far it has come.
    pub stage: BarStage,
}

impl BarMapping {
    /// The request that the current stage is about.
    pub open spec fn request(self) -> BarAction {
        match self.stage {
            BarStage::Open => BarAction::Open,
            BarStage::MapBar(fd) => BarAction::MapDevice {
                fd,
                len: self.size,
                offset: self.bar_addr,
            },
            BarStage::Close(fd, _) => BarAction::Close { fd },
            BarStage::Done(addr) => BarAction::Finish(addr),
        }
    }

    /// The event answers the current request.
    pub open spec fn expects(self, event: BarEvent) -> bool {
        match self.stage {
            BarStage::Open => event is Opened,
            BarStage::MapBar(_) => event is Mapped || event is MapFailed,
            BarStage::Close(_, _) => event is Closed,
            BarStage::Done(_) => false,
        }
    }

    /// The mapping after the answer: an open device is closed again whether or
    /// not the BAR could be mapped.
    pub open spec fn after(self, event: BarEvent) -> BarMapping {
        let stage = match (self.stage, event) {
            (BarStage::Open, BarEvent::Opened(fd)) => if fd < 0 {
                BarStage::Done(None)
            } else {
                BarStage::MapBar(fd)
            },
            (BarStage::MapBar(fd), BarEvent::Mapped(addr)) => BarStage::Close(fd, non_null(addr)),
            (BarStage::MapBar(fd), BarEvent::MapFailed) => BarStage::Close(fd, None),
            (BarStage::Close(_, addr), BarEvent::Closed) => BarStage::Done(addr),
            (stage, _) => stage,
        };
        BarMapping { stage, ..self }
    }

    /// The next request.
    pub fn action(&self) -> (r: BarAction)
        ensures
            r == self.request(),
    {
        match self.stage {
            BarStage::Open => BarAction::Open,
            BarStage::MapBar(fd) => BarAction::MapDevice {
                fd,
                len: self.size,
                offset: self.bar_addr,
            },
            BarStage::Close(fd, _) => BarAction::Close { fd },
            BarStage::Done(addr) => BarAction::Finish(addr),
        }
    }

    /// Take the answer to the current request.
    pub fn advance(&mut self, event: BarEvent)
        requires
            old(self).expects(event),
        ensures
            *final(self) == old(self).after(event),
    {
        match (self.stage, event) {
            (BarStage::Open, BarEvent::Opened(fd)) => {
                self.stage = if fd < 0 { BarStage::Done(None) } else { BarStage::MapBar(fd) };
            },
            (BarStage::MapBar(fd), BarEvent::Mapped(addr)) => {
                self.stage = BarStage::Close(fd, if addr == 0 { None } else { Some(addr) });
            },
            (BarStage::MapBar(fd), BarEvent::MapFailed) => {
                self.stage = BarStage::Close(fd, None);
            },
            (BarStage::Close(_, addr), BarEvent::Closed) => {
                self.stage = BarStage::Done(addr);
            },
            _ => {},
        }
    }
}

/// Maps the BAR of a device into the address space, where there is no CXL.
pub struct PcieBarMapper;

impl PcieBarMapper {
    /// Start mapping the `size` bytes of the BAR at physical address `bar_addr`.
    pub fn map_bar(bar_addr: u64, size: usize) -> (r: BarMapping)
        ensures
            r == (BarMapping { bar_addr, size, stage: BarStage::Open }),
    {
        BarMapping { bar_addr, size, stage: BarStage::Open }
    }
}

/// Law: the two matrices lie inside the block, apart from each other, and both
/// at multiples of 256.
pub proof fn law_shared_matrices_are_apart_and_aligned(context: SharedMemoryContext)
    requires
        context.wf(),
    ensures
        ({
            let matrix = context.base as int;
            let command = context.base + KernelStateMatrix::SIZE;
            &&& matrix + KernelStateMatrix::SIZE <= command
            &&& command + ActuatorCommand::SIZE == context.base + SharedMemoryContext::SIZE
            &&& matrix % 256 == 0
            &&& command % 256 == 0
        }),
{
}

/// Law: there is always a node to allocate from.
pub proof fn law_some_node_is_detected(entries: Seq<NodeEntry>)
    ensures
        detected_nodes(entries).len() > 0,
{
}

/// Law: every detected node but the fallback is named by a directory that shows
/// a sign of CXL memory.
pub proof fn law_detected_nodes_have_cxl_memory(entries: Seq<NodeEntry>, i: int)
    requires
        0 <= i < listed_nodes(entries).len(),
    ensures
        exists|k: int|
            0 <= k < entries.len() && ((#[trigger] entries[k]).flagged() || entries[k].memory_only())
                && (entries[k].node_id() matches Some(id) && listed_nodes(entries)[i] == id as usize),
    decreases entries.len(),
{
    let before = listed_nodes(entries.drop_last());
    if i < before.len() {
        law_detected_nodes_have_cxl_memory(entries.drop_last(), i);
        let k = choose|k: int|
            0 <= k < entries.drop_last().len() && ((#[trigger] entries.drop_last()[k]).flagged()
                || entries.drop_last()[k].memory_only()) && (entries.drop_last()[k].node_id() matches Some(
                id,
            ) && before[i] == id as usize);
        assert(entries[k] == entries.drop_last()[k]);
    } else {
        let last = entries[entries.len() - 1];
        assert(last.cxl_nodes()[i - before.len()] == listed_nodes(entries)[i]);
    }
}

/// Law: every node whose directory shows a sign of CXL memory is detected.
pub proof fn law_cxl_nodes_are_detected(entries: Seq<NodeEntry>, k: int)
    requires
        0 <= k < entries.len(),
        entries[k].flagged() || entries[k].memory_only(),
        entries[k].node_id() is Some,
    ensures
        listed_nodes(entries).contains(entries[k].node_id()->0 as usize),
        detected_nodes(entries).contains(entries[k].node_id()->0 as usize),
    decreases entries.len(),
{
    let id = entries[k].node_id()->0 as usize;
    let before = listed_nodes(entries.drop_last());
    let added = entries.last().cxl_nodes();
    if k < entries.len() - 1 {
        assert(entries.drop_last()[k] == entries[k]);
        law_cxl_nodes_are_detected(entries.drop_last(), k);
        let i = choose|i: int| 0 <= i < before.len() && before[i] == id;
        assert(listed_nodes(entries)[i] == id);
    } else {
        assert(added[0] == id);
        assert(listed_nodes(entries)[before.len() as int] == id);
    }
}

/// Answers that an allocation can still take.
pub open spec fn answers_left(stage: AllocStage) -> nat {
    match stage {
        AllocStage::MapHuge => 3,
        AllocStage::MapPlain => 2,
        AllocStage::Bind(_) => 1,
        AllocStage::Done(_) => 0,
    }
}

/// Law: every answer brings an allocation nearer to its end, and it ends only in
/// the last stage.
pub proof fn law_allocation_ends(allocation: CxlAllocation, event: AllocEvent)
    requires
        allocation.expects(event),
    ensures
        answers_left(allocation.after(event).stage) < answers_left(allocation.stage),
        answers_left(allocation.stage) == 0 <==> allocation.request() is Finish,
{
}

/// Law: an allocation yields the memory of the first mapping that succeeds,
/// whether or not it could be bound, and nothing only if both mappings fail or
/// the memory is at the null address.
pub proof fn law_allocation_result(start: CxlAllocation, huge: Option<u64>, plain: Option<u64>)
    requires
        start.stage == AllocStage::MapHuge,
    ensures
        huge matches Some(addr) ==> start.after(AllocEvent::Mapped(addr)).after(
            AllocEvent::Bound,
        ).request() == AllocAction::Finish(non_null(addr)),
        huge is None && plain is Some ==> start.after(AllocEvent::MapFailed).after(
            AllocEvent::Mapped(plain->0),
        ).after(AllocEvent::Bound).request() == AllocAction::Finish(non_null(plain->0)),
        start.after(AllocEvent::MapFailed).after(AllocEvent::MapFailed).request()
            == AllocAction::Finish(None),
{
}

/// Law: memory is handed out only after a request to bind all of it to the
/// node that was asked for.
pub proof fn law_memory_is_bound_before_use(allocation: CxlAllocation, event: AllocEvent, addr: u64)
    requires
        allocation.expects(event),
        allocation.after(event).request() == AllocAction::Finish(Some(addr)),
    ensures
        allocation.request() matches AllocAction::Bind { addr: bound, len, mode, nodemask, .. }
            && bound == addr && len == allocation.size && mode == MPOL_BIND && nodemask == pow2(
            allocation.numa_node as nat,
        ) as u64,
{
}

/// Requests that a BAR mapping can still make before it is done.
pub open spec fn requests_left(stage: BarStage) -> nat {
    match stage {
        BarStage::Open => 3,
        BarStage::MapBar(_) => 2,
        BarStage::Close(_, _) => 1,
        BarStage::Done(_) => 0,
    }
}

/// Law: every answer brings a BAR mapping nearer to its end.
pub proof fn law_bar_mapping_ends(mapping: BarMapping, event: BarEvent)
    requires
        mapping.expects(event),
    ensures
        requests_left(mapping.after(event).stage) < requests_left(mapping.stage),
        requests_left(mapping.stage) == 0 <==> mapping.request() is Finish,
{
}

/// Law: once the device is open, whatever comes of the mapping, that very
/// descriptor is closed next, and only then does the mapping end, with the
/// address that was mapped.
pub proof fn law_open_device_is_closed(start: BarMapping, fd: i32, mapped: BarEvent)
    requires
        start.stage == BarStage::Open,
        fd >= 0,
        mapped is Mapped || mapped is MapFailed,
    ensures
        ({
            let open = start.after(BarEvent::Opened(fd));
            let result = match mapped {
                BarEvent::Mapped(addr) => non_null(addr),
                _ => None,
            };
            &&& open.expects(mapped)
            &&& open.request() == BarAction::MapDevice {
                fd,
                len: start.size,
                offset: start.bar_addr,
            }
            &&& open.after(mapped).request() == BarAction::Close { fd }
            &&& open.after(mapped).after(BarEvent::Closed).request() == BarAction::Finish(result)
        }),
{
}

/// Law: a device that cannot be opened is neither mapped nor closed.
pub proof fn law_unopened_device_is_left_alone(start: BarMapping, fd: i32)
    requires
        start.stage == BarStage::Open,
        fd < 0,
    ensures
        start.after(BarEvent::Opened(fd)).request() == BarAction::Finish(None),
{
}

/// Law: every request to map memory asks for exactly the bytes of the allocation,
/// shared, with huge pages in the first stage and without in the second, and
/// these two stages do ask for memory.
pub proof fn law_mapping_asks_for_all_bytes(allocation: CxlAllocation)
    ensures
        allocation.request() matches AllocAction::MapMemory { len, shared, huge_pages } ==> {
            &&& len == allocation.size
            &&& shared
            &&& huge_pages <==> allocation.stage is MapHuge
            &&& !huge_pages <==> allocation.stage is MapPlain
        },
        allocation.request() is MapMemory <==> allocation.stage is MapHuge || allocation.stage is MapPlain,
{
}

/// Law: the range that is bound is the range that was mapped, and the node mask
/// of the binding names the node that was asked for and no other.
pub proof fn law_bound_range_is_the_mapped_range(
    allocation: CxlAllocation,
    addr: u64,
    node: nat,
)
    requires
        allocation.request() is MapMemory,
        allocation.numa_node < 64,
        node < 64,
    ensures
        allocation.after(AllocEvent::Mapped(addr)).request() matches AllocAction::Bind {
            addr: bound,
            len,
            mode,
            nodemask,
            maxnode,
            flags,
        } && {
            &&& bound == addr
            &&& allocation.request()->MapMemory_len == len
            &&& mode == 2
            &&& maxnode == 64
            &&& flags == 3
            &&& (nodemask as nat / pow2(node)) % 2 == 1 <==> node == allocation.numa_node
        },
{
    let mine = allocation.numa_node as nat;
    lemma_u64_pow2_no_overflow(mine);
    lemma_pow2_pos(node);
    if node == mine {
        vstd::arithmetic::div_mod::lemma_div_by_self(pow2(node) as int);
    } else if node < mine {
        let apart = (mine - node) as nat;
        lemma_pow2_adds(node, apart);
        vstd::arithmetic::mul::lemma_mul_is_commutative(pow2(node) as int, pow2(apart) as int);
        vstd::arithmetic::div_mod::lemma_div_by_multiple(pow2(apart) as int, pow2(node) as int);
        lemma_pow2_unfold(apart);
        assert((2 * pow2((apart - 1) as nat)) % 2 == 0);
    } else {
        lemma_pow2_strictly_increases(mine, node);
        vstd::arithmetic::div_mod::lemma_basic_div(pow2(mine) as int, pow2(node) as int);
    }
}

/// Law: an allocation keeps its size and its node, and takes either answer to a
/// mapping, whatever the address, and the answer to a binding.
pub proof fn law_allocation_keeps_size_and_node(
    allocation: CxlAllocation,
    event: AllocEvent,
    addr: u64,
)
    ensures
        allocation.after(event).size == allocation.size,
        allocation.after(event).numa_node == allocation.numa_node,
        allocation.request() is MapMemory <==> allocation.expects(AllocEvent::Mapped(addr)),
        allocation.request() is MapMemory <==> allocation.expects(AllocEvent::MapFailed),
        allocation.request() is Bind <==> allocation.expects(AllocEvent::Bound),
        allocation.request() is Finish <==> allocation.stage is Done,
{
}

/// Law: memory that was mapped anywhere but at the null address is what the
/// allocation yields once it was bound; at the null address there is none.
pub proof fn law_mapped_memory_is_handed_out(allocation: CxlAllocation, addr: u64)
    requires
        allocation.request() is MapMemory,
    ensures
        allocation.after(AllocEvent::Mapped(addr)).after(AllocEvent::Bound).request() == (if addr
            == 0 {
            AllocAction::Finish(None)
        } else {
            AllocAction::Finish(Some(addr))
        }),
{
}

/// Law: a BAR mapping starts by opening the device, takes whatever descriptor
/// comes back, and a BAR that was mapped anywhere but at the null address is
/// what it yields.
pub proof fn law_bar_mapping_result(start: BarMapping, fd: i32, addr: u64)
    requires
        start.stage == BarStage::Open,
    ensures
        start.request() == BarAction::Open,
        start.expects(BarEvent::Opened(fd)),
        fd >= 0 ==> ({
            let open = start.after(BarEvent::Opened(fd));
            let mapped = open.after(BarEvent::Mapped(addr));
            let failed = open.after(BarEvent::MapFailed);
            &&& open.expects(BarEvent::Mapped(addr)) && open.expects(BarEvent::MapFailed)
            &&& mapped.expects(BarEvent::Closed) && failed.expects(BarEvent::Closed)
            &&& mapped.after(BarEvent::Closed).request() == BarAction::Finish(
                if addr == 0 {
                    None
                } else {
                    Some(addr)
                },
            )
            &&& failed.after(BarEvent::Closed).request() == BarAction::Finish(None)
            &&& mapped.bar_addr == start.bar_addr && mapped.size == start.size
        }),
{
}

/// Law: a directory is about a node exactly if its name is `node` and a number
/// behind it, and that is the node's number.
pub proof fn law_node_number_stands_behind_node(entry: NodeEntry, rest: Seq<char>)
    ensures
        entry.name@ == seq!['n', 'o', 'd', 'e'] + rest ==> entry.node_id() == text::number(
            rest,
            usize::MAX as nat,
        ),
        entry.node_id() is Some ==> entry.name@.len() > 4 && entry.name@.take(4) == seq![
            'n',
            'o',
            'd',
            'e',
        ],
{
    reveal_strlit("node");
    assert("node"@ =~= seq!['n', 'o', 'd', 'e']);
    if entry.name@ == "node"@ + rest {
        text::law_text_begins_with_what_it_continues(entry.name@, "node"@, rest);
        assert(entry.name@.skip(4) =~= rest);
    }
    if entry.node_id() is Some && entry.name@.len() == 4 {
        assert(entry.name@.skip(4) =~= Seq::<char>::empty());
    }
}

/// Law: a node is flagged if its flag is a one with nothing but white space
/// around it, and only if the flag holds nothing but a one once it is trimmed.
pub proof fn law_flag_is_a_one(entry: NodeEntry, a: Seq<char>, b: Seq<char>)
    requires
        forall|i: int| 0 <= i < a.len() ==> text::white_space(#[trigger] a[i]),
        forall|i: int| 0 <= i < b.len() ==> text::white_space(#[trigger] b[i]),
    ensures
        entry.has_cxl_memory matches Some(flag) && flag@ == a + seq!['1'] + b ==> entry.flagged(),
        entry.flagged() ==> (entry.has_cxl_memory matches Some(flag) && text::trimmed(flag@)
            == seq!['1']),
{
    reveal_strlit("1");
    assert("1"@ =~= seq!['1']);
    text::law_trimming_leaves_the_middle(a, seq!['1'], b);
}

/// Law: a node has no CPUs exactly if its list of them can be read and is nothing
/// but white space.
pub proof fn law_memory_only_nodes_list_no_cpu(entry: NodeEntry)
    ensures
        entry.memory_only() <==> (entry.cpulist matches Some(list) && forall|i: int|
            0 <= i < list@.len() ==> text::white_space(#[trigger] list@[i])),
{
    if let Some(list) = entry.cpulist {
        let s = list@;
        if forall|i: int| 0 <= i < s.len() ==> text::white_space(#[trigger] s[i]) {
            assert(s + Seq::<char>::empty() + Seq::<char>::empty() =~= s);
            text::law_trimming_leaves_the_middle(s, Seq::empty(), Seq::empty());
        } else if text::trimmed(s).len() == 0 {
            text::law_empty_when_trimmed(s);
        }
    }
}

/// Law: the nodes that directories tell of are those of the first ones and then
/// those of the others, wherever the list is cut.
pub proof fn law_listed_nodes_of_parts(a: Seq<NodeEntry>, b: Seq<NodeEntry>)
    ensures
        listed_nodes(a + b) == listed_nodes(a) + listed_nodes(b),
    decreases b.len(),
{
    if b.len() == 0 {
        assert(a + b =~= a);
        assert(listed_nodes(a) + listed_nodes(b) =~= listed_nodes(a));
    } else {
        assert((a + b).drop_last() =~= a + b.drop_last());
        assert((a + b).last() == b.last());
        law_listed_nodes_of_parts(a, b.drop_last());
        assert((listed_nodes(a) + listed_nodes(b.drop_last())) + b.last().cxl_nodes()
            =~= listed_nodes(a) + (listed_nodes(b.drop_last()) + b.last().cxl_nodes()));
    }
}

/// Law: a directory about a node tells of it once for each of the two signs of
/// CXL memory that it shows; any other directory tells of none.
pub proof fn law_node_is_listed_once_for_each_sign(entry: NodeEntry, i: int)
    ensures
        listed_nodes(seq![entry]).len() == (if entry.node_id() is None {
            0int
        } else {
            (if entry.flagged() {
                1int
            } else {
                0
            }) + (if entry.memory_only() {
                1int
            } else {
                0
            })
        }),
        0 <= i < listed_nodes(seq![entry]).len() ==> listed_nodes(seq![entry])[i]
            == entry.node_id()->0 as usize,
{
    let one = seq![entry];
    assert(one.last() == entry);
    assert(listed_nodes(one.drop_last()) =~= Seq::<usize>::empty());
    assert(listed_nodes(one) =~= entry.cxl_nodes());
}

/// Law: what is detected is what the directories tell of, and node 0 alone if
/// they tell of none.
pub proof fn law_detected_nodes_are_the_listed_ones(entries: Seq<NodeEntry>)
    ensures
        listed_nodes(entries).len() > 0 ==> detected_nodes(entries) == listed_nodes(entries),
        listed_nodes(entries).len() == 0 ==> detected_nodes(entries) == seq![0usize],
{
}

} // verus!
