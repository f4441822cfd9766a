//! CMTIP, the protocol by which model agents exchange tensors: the packet
//! header, the seeds of the adapter weights and the message bus.
use vstd::arithmetic::mul::*;
use vstd::prelude::*;

verus! {

/// The header in front of every tensor on the bus.
pub struct TensorPacketHeader {
    /// Magic number: 0x484D544C ('HMTL').
    pub magic_number: u32,
    /// Sender agent id.
    pub source_model_id: u64,
    /// Tensor shape, e.g. [1, 128, 128, 1].
    pub tensor_shape: [u32; 4],
    /// Data type tag: 0 = FP8 (E4M3), 1 = BF16, 2 = FP16, others reserved.
    pub data_type: u8,
    /// Reserved padding.
    pub _reserved: [u8; 3],
    /// Address of the axis-mapping metadata, or zero.
    pub axis_mapping_ptr: u64,
}

impl TensorPacketHeader {
    /// The magic number of a valid packet.
    pub const MAGIC: u32 = 0x484D544C;

    /// The magic number is right.
    pub open spec fn valid(self) -> bool {
        self.magic_number == Self::MAGIC
    }

    /// One dimension of the shape.
    pub open spec fn dim(self, i: int) -> nat {
        self.tensor_shape@[i] as nat
    }

    /// The product of all four dimensions.
    pub open spec fn elements(self) -> nat {
        self.dim(0) * self.dim(1) * self.dim(2) * self.dim(3)
    }

    /// The dimensions can be multiplied up, one after the other, in a `usize`.
    pub open spec fn countable(self) -> bool {
        &&& self.dim(0) * self.dim(1) <= usize::MAX
        &&& self.dim(0) * self.dim(1) * self.dim(2) <= usize::MAX
        &&& self.elements() <= usize::MAX
    }

    /// Bytes that one element takes; a reserved tag counts as one byte.
    pub open spec fn element_bytes(self) -> nat {
        if self.data_type == 1 || self.data_type == 2 {
            2
        } else {
            1
        }
    }

    /// The header of an FP8 tensor.
    pub fn new_fp8(source_model_id: u64, shape: [u32; 4]) -> (r: TensorPacketHeader)
        ensures
            r.valid(),
            r.source_model_id == source_model_id,
            r.tensor_shape == shape,
            r.data_type == 0,
            r._reserved@ == seq![0u8, 0u8, 0u8],
            r.axis_mapping_ptr == 0,
    {
        TensorPacketHeader {
            magic_number: Self::MAGIC,
            source_model_id,
            tensor_shape: shape,
            data_type: 0,
            _reserved: [0, 0, 0],
            axis_mapping_ptr: 0,
        }
    }

    /// Whether the magic number is right.
    pub fn is_valid(&self) -> (r: bool)
        ensures
            r == self.valid(),
    {
        self.magic_number == Self::MAGIC
    }

    /// Number of elements in the payload.
    pub fn num_elements(&self) -> (r: usize)
        requires
            self.countable(),
        ensures
            r == self.elements(),
    {
        let mut product: usize = self.tensor_shape[0] as usize;
        product = product * self.tensor_shape[1] as usize;
        product = product * self.tensor_shape[2] as usize;
        product = product * self.tensor_shape[3] as usize;
        product
    }

    /// Bytes in the payload, without the header.
    pub fn payload_bytes(&self) -> (r: usize)
        requires
            self.countable(),
            self.elements() * self.element_bytes() <= usize::MAX,
        ensures
            r == self.elements() * self.element_bytes(),
    {
        let bytes_per_element: usize = match self.data_type {
            0 => 1,
            1 => 2,
            2 => 2,
            _ => 1,
        };
        self.num_elements() * bytes_per_element
    }
}

/// A header with its payload of `N` bytes behind it; `N` should be the header's
/// payload size.
pub struct TensorPacket<const N: usize> {
    pub header: TensorPacketHeader,
    pub payload: [u8; N],
}

/// The whole number from which the initial adapter weight at (`row`, `col`) is
/// derived.
pub open spec fn weight_seed_spec(row: usize, col: usize) -> usize {
    row.wrapping_mul(2654435761) ^ col.wrapping_mul(1597334677)
}

/// The seed of one adapter weight: the two indices, each spread out by a
/// multiplication that wraps, mixed together.
pub fn weight_seed(row: usize, col: usize) -> (r: usize)
    ensures
        r == weight_seed_spec(row, col),
{
    row.wrapping_mul(2654435761) ^ col.wrapping_mul(1597334677)
}

/// What can go wrong on the bus.
#[derive(Clone, Copy, PartialEq, Eq, Debug, Structural)]
pub enum CmtipError {
    /// The agent has no receive buffer on the bus.
    AgentNotRegistered(usize),
    /// The bus has no such agent.
    AgentIdOutOfRange(usize),
    /// A received packet has the wrong magic number.
    InvalidMagic,
    /// A received payload has the wrong size.
    PayloadSizeMismatch { expected: usize, actual: usize },
}

/// Routes packets between agents.
pub struct CmtipBus {
    receivers: Vec<Option<u64>>,
}

impl View for CmtipBus {
    type V = Seq<Option<u64>>;

    /// The receive buffer address of each agent id, where one is registered.
    closed spec fn view(&self) -> Seq<Option<u64>> {
        self.receivers@
    }
}

/// What a send to `target_id` gives on a bus with the given receivers.
pub open spec fn send_result(receivers: Seq<Option<u64>>, target_id: usize) -> Result<
    (),
    CmtipError,
> {
    if target_id >= receivers.len() {
        Err(CmtipError::AgentIdOutOfRange(target_id))
    } else if receivers[target_id as int] is None {
        Err(CmtipError::AgentNotRegistered(target_id))
    } else {
        Ok(())
    }
}

impl CmtipBus {
    /// A bus for agent ids below `max_agents`, with nobody registered.
    pub fn new(max_agents: usize) -> (r: CmtipBus)
        ensures
            r@ == Seq::new(max_agents as nat, |i: int| None::<u64>),
    {
        let mut receivers: Vec<Option<u64>> = Vec::new();
        for i in 0..max_agents
            invariant
                receivers@ == Seq::new(i as nat, |i: int| None::<u64>),
        {
            receivers.push(None);
        }
        CmtipBus { receivers }
    }

    /// Register an agent's receive buffer, in place of an earlier one.
    pub fn register_receiver(&mut self, agent_id: usize, buffer_addr: u64)
        requires
            agent_id < old(self)@.len(),
        ensures
            final(self)@ == old(self)@.update(agent_id as int, Some(buffer_addr)),
    {
        self.receivers[agent_id] = Some(buffer_addr);
    }

    /// Send a packet to the target agent: it goes through exactly if the target
    /// is registered.
    pub fn send(
        &self,
        _source_id: usize,
        target_id: usize,
        _packet_addr: u64,
        _packet_size: usize,
    ) -> (r: Result<(), CmtipError>)
        ensures
            r == send_result(self@, target_id),
    {
        match self.receivers.get(target_id) {
            Some(Some(_addr)) => Ok(()),
            Some(None) => Err(CmtipError::AgentNotRegistered(target_id)),
            None => Err(CmtipError::AgentIdOutOfRange(target_id)),
        }
    }
}

/// Law: after a registration a send to that agent goes through, and sends to
/// all others end as before.
pub proof fn law_registration_opens_one_route(
    receivers: Seq<Option<u64>>,
    agent_id: usize,
    buffer_addr: u64,
    target_id: usize,
)
    requires
        agent_id < receivers.len(),
    ensures
        ({
            let after = receivers.update(agent_id as int, Some(buffer_addr));
            &&& send_result(after, agent_id) == Ok::<(), CmtipError>(())
            &&& target_id != agent_id ==> send_result(after, target_id) == send_result(
                receivers,
                target_id,
            )
        }),
{
}

/// Law: on a new bus every send fails, and the error tells whether the bus has
/// the agent at all.
pub proof fn law_new_bus_delivers_nothing(max_agents: usize, target_id: usize)
    ensures
        send_result(Seq::new(max_agents as nat, |i: int| None::<u64>), target_id) == (if target_id
            < max_agents {
            Err::<(), CmtipError>(CmtipError::AgentNotRegistered(target_id))
        } else {
            Err::<(), CmtipError>(CmtipError::AgentIdOutOfRange(target_id))
        }),
{
}

/// Law: the payload of an FP8 header has one byte for each element.
pub proof fn law_fp8_payload_is_one_byte_per_element(header: TensorPacketHeader)
    requires
        header.data_type == 0,
    ensures
        header.elements() * header.element_bytes() == header.elements(),
{
}

/// Law: the number of elements is proportional to every dimension, and that of a
/// tensor with one dimension is that dimension.
pub proof fn law_elements_grow_with_each_dimension(
    a: TensorPacketHeader,
    b: TensorPacketHeader,
    i: int,
)
    requires
        0 <= i < 4,
        forall|j: int|
            0 <= j < 4 && j != i ==> #[trigger] a.tensor_shape@[j] == b.tensor_shape@[j],
    ensures
        a.elements() * b.tensor_shape@[i] == b.elements() * a.tensor_shape@[i],
        (forall|j: int| 0 <= j < 4 && j != i ==> #[trigger] a.tensor_shape@[j] == 1)
            ==> a.elements() == a.tensor_shape@[i],
{
    let x = a.tensor_shape@[i] as int;
    let y = b.tensor_shape@[i] as int;
    let p = a.tensor_shape@[0] as int;
    let q = a.tensor_shape@[1] as int;
    let r = a.tensor_shape@[2] as int;
    let t = a.tensor_shape@[3] as int;
    if i == 0 {
        assert((x * q * r * t) * y == (y * q * r * t) * x) by (nonlinear_arith);
    } else if i == 1 {
        assert((p * x * r * t) * y == (p * y * r * t) * x) by (nonlinear_arith);
    } else if i == 2 {
        assert((p * q * x * t) * y == (p * q * y * t) * x) by (nonlinear_arith);
    } else {
        assert((p * q * r * x) * y == (p * q * r * y) * x) by (nonlinear_arith);
    }
    if forall|j: int| 0 <= j < 4 && j != i ==> #[trigger] a.tensor_shape@[j] == 1 {
        lemma_mul_basics(x);
    }
}

/// Law: a tensor whose dimensions are all positive can be counted exactly if its
/// number of elements fits.
pub proof fn law_tensors_that_fit_are_countable(header: TensorPacketHeader)
    requires
        forall|j: int| 0 <= j < 4 ==> #[trigger] header.tensor_shape@[j] > 0,
    ensures
        header.countable() <==> header.elements() <= usize::MAX,
{
    let p = header.dim(0) as int;
    let q = header.dim(1) as int;
    let r = header.dim(2) as int;
    let t = header.dim(3) as int;
    assert(header.tensor_shape@[2] > 0 && header.tensor_shape@[3] > 0);
    lemma_mul_nonnegative(p, q);
    lemma_mul_nonnegative(p * q, r);
    lemma_mul_inequality(1, r, p * q);
    lemma_mul_inequality(1, t, p * q * r);
    lemma_mul_is_commutative(p * q, r);
    lemma_mul_is_commutative(p * q * r, t);
}

/// Law: an element of BF16 or FP16 takes two bytes, and one of any other type one.
pub proof fn law_bytes_of_an_element(header: TensorPacketHeader)
    ensures
        header.element_bytes() == 2 <==> header.data_type == 1 || header.data_type == 2,
        header.element_bytes() == 1 <==> header.data_type == 0 || header.data_type > 2,
        header.valid() <==> header.magic_number == 0x484D544C,
{
}

/// Law: a send goes through exactly if the target is registered, and the error
/// otherwise names the target and tells whether the bus has it.
pub proof fn law_send_goes_to_registered_agents(receivers: Seq<Option<u64>>, target_id: usize)
    ensures
        send_result(receivers, target_id) is Ok <==> target_id < receivers.len()
            && receivers[target_id as int] is Some,
        send_result(receivers, target_id) == Err::<(), CmtipError>(
            CmtipError::AgentNotRegistered(target_id),
        ) <==> target_id < receivers.len() && receivers[target_id as int] is None,
        send_result(receivers, target_id) == Err::<(), CmtipError>(
            CmtipError::AgentIdOutOfRange(target_id),
        ) <==> target_id >= receivers.len(),
{
}

/// Law: a seed mixes that of its row with that of its column, each of which is a
/// multiple of its own constant, cut to the machine's word.
pub proof fn law_seed_mixes_row_and_column(row: usize, col: usize)
    ensures
        weight_seed_spec(row, 0) == (row * 2654435761) % (usize::MAX + 1),
        weight_seed_spec(0, col) == (col * 1597334677) % (usize::MAX + 1),
        weight_seed_spec(row, col) == weight_seed_spec(row, 0) ^ weight_seed_spec(0, col),
{
    let r = row.wrapping_mul(2654435761);
    let c = col.wrapping_mul(1597334677);
    assert(0usize.wrapping_mul(2654435761) == 0);
    assert(0usize.wrapping_mul(1597334677) == 0);
    assert(r ^ 0usize == r) by (bit_vector);
    assert(0usize ^ c == c) by (bit_vector);
}

} // verus!
