//! Registered buffers and the `user_data` encoding.
//!
//! Everything here exists to keep the hot path free of syscalls and allocations.
//! Buffers are registered once so the kernel never has to pin pages per operation,
//! and a completion identifies its connection by index rather than by a heap
//! pointer.

use vstd::prelude::*;
use vstd::slice::*;

verus! {

/// Operation kind, carried in the top byte of `user_data`.
#[derive(Debug, Clone, Copy, PartialEq, Eq, Structural)]
pub enum Op {
    Accept,
    ClientRead,
    ClientWrite,
    UpstreamConnect,
    UpstreamWrite,
    UpstreamRead,
    Close,
}

/// The number of an operation, from 1 on.
pub open spec fn op_code(op: Op) -> u8 {
    match op {
        Op::Accept => 1,
        Op::ClientRead => 2,
        Op::ClientWrite => 3,
        Op::UpstreamConnect => 4,
        Op::UpstreamWrite => 5,
        Op::UpstreamRead => 6,
        Op::Close => 7,
    }
}

impl Op {
    /// The number that stands for the operation.
    #[must_use]
    pub fn code(self) -> (r: u8)
        ensures
            r == op_code(self),
    {
        match self {
            Op::Accept => 1,
            Op::ClientRead => 2,
            Op::ClientWrite => 3,
            Op::UpstreamConnect => 4,
            Op::UpstreamWrite => 5,
            Op::UpstreamRead => 6,
            Op::Close => 7,
        }
    }

    /// The operation that a number stands for, if any.
    #[must_use]
    pub fn from_u8(v: u8) -> (r: Option<Self>)
        ensures
            r is Some <==> 1 <= v <= 7,
            r matches Some(op) ==> op_code(op) == v,
    {
        match v {
            1 => Some(Op::Accept),
            2 => Some(Op::ClientRead),
            3 => Some(Op::ClientWrite),
            4 => Some(Op::UpstreamConnect),
            5 => Some(Op::UpstreamWrite),
            6 => Some(Op::UpstreamRead),
            7 => Some(Op::Close),
            _ => None,
        }
    }
}

/// The `user_data` of an operation on a connection.
pub open spec fn packed(op: Op, generation: u32, index: u32) -> int {
    op_code(op) * 0x100_0000_0000_0000 + (generation as int % 0x100_0000) * 0x1_0000_0000 + index
}

/// `user_data` layout: `[op:8][generation:24][index:32]`.
///
/// The generation is what makes a late completion safe: a slot reused by a new
/// connection carries a different generation, so a completion from the previous
/// occupant is recognised as stale and dropped rather than applied to whoever
/// holds the slot now.
#[must_use]
pub fn pack(op: Op, generation: u32, index: u32) -> (r: u64)
    ensures
        r == packed(op, generation, index),
{
    let code: u64 = op.code() as u64;
    let g: u64 = generation as u64;
    let i: u64 = index as u64;
    let r: u64 = (code << 56) | ((g & 0xff_ffff) << 32) | i;
    assert(r == code * 0x100_0000_0000_0000 + (g % 0x100_0000) * 0x1_0000_0000 + i) by (bit_vector)
        requires
            r == (code << 56) | ((g & 0xff_ffff) << 32) | i,
            code < 0x80,
            g < 0x1_0000_0000,
            i < 0x1_0000_0000,
    ;
    r
}

/// The operation, generation and index of a `user_data`, if it names an operation.
#[must_use]
pub fn unpack(user_data: u64) -> (r: Option<(Op, u32, u32)>)
    ensures
        r is Some <==> 1 <= user_data as int / 0x100_0000_0000_0000 <= 7,
        r matches Some((op, generation, index)) ==> {
            &&& op_code(op) == user_data as int / 0x100_0000_0000_0000
            &&& generation == (user_data as int / 0x1_0000_0000) % 0x100_0000
            &&& index == user_data as int % 0x1_0000_0000
        },
{
    let top: u64 = user_data >> 56;
    let middle: u64 = (user_data >> 32) & 0xff_ffff;
    let low: u64 = user_data & 0xffff_ffff;
    assert(top == user_data / 0x100_0000_0000_0000 && top < 0x100) by (bit_vector)
        requires
            top == user_data >> 56,
    ;
    assert(middle == (user_data / 0x1_0000_0000) % 0x100_0000 && middle < 0x100_0000) by (bit_vector)
        requires
            middle == (user_data >> 32) & 0xff_ffff,
    ;
    assert(low == user_data % 0x1_0000_0000 && low < 0x1_0000_0000) by (bit_vector)
        requires
            low == user_data & 0xffff_ffff,
    ;
    match Op::from_u8(top as u8) {
        Some(op) => Some((op, middle as u32, low as u32)),
        None => None,
    }
}

/// What is packed is unpacked again, the generation to 24 bits.
pub proof fn lemma_unpack_undoes_pack(op: Op, generation: u32, index: u32)
    ensures
        ({
            let u = packed(op, generation, index);
            &&& 0 <= u <= u64::MAX
            &&& u / 0x100_0000_0000_0000 == op_code(op)
            &&& (u / 0x1_0000_0000) % 0x100_0000 == generation as int % 0x100_0000
            &&& u % 0x1_0000_0000 == index
        }),
{
    let g = generation as int % 0x100_0000;
    assert(0 <= g < 0x100_0000);
    assert(op_code(op) * 0x100_0000_0000_0000 + g * 0x1_0000_0000 + index == (op_code(op)
        * 0x100_0000 + g) * 0x1_0000_0000 + index);
}

/// Operations on different connections, generations or kinds never share their
/// `user_data`.
pub proof fn lemma_pack_is_injective(
    op1: Op,
    generation1: u32,
    index1: u32,
    op2: Op,
    generation2: u32,
    index2: u32,
)
    requires
        generation1 < 0x100_0000,
        generation2 < 0x100_0000,
        packed(op1, generation1, index1) == packed(op2, generation2, index2),
    ensures
        op1 == op2,
        generation1 == generation2,
        index1 == index2,
{
    lemma_unpack_undoes_pack(op1, generation1, index1);
    lemma_unpack_undoes_pack(op2, generation2, index2);
}

/// Why a buffer pool could not be made.
#[derive(Debug, Clone, Copy, PartialEq, Eq, Structural)]
pub enum PoolError {
    /// The buffer count is not in `1..=65535`.
    InvalidCount,
}

impl PoolError {
    /// What to tell the operator.
    #[must_use]
    pub fn message(&self) -> (r: &'static str)
        ensures
            r@ == "buffer count must be in 1..=65535"@,
    {
        "buffer count must be in 1..=65535"
    }
}

/// A pool of pre-registered, fixed-size buffers.
///
/// Registration is the point: the buffer a response is read into is the same one
/// it is written out of, so forwarding costs no copy at all.
#[derive(Debug)]
pub struct BufferPool {
    memory: Vec<u8>,
    buf_size: usize,
    free: Vec<u16>,
}

/// Whether no index occurs twice.
pub open spec fn distinct(list: Seq<u16>) -> bool {
    forall|i: int, j: int| 0 <= i < j < list.len() ==> list[i] != list[j]
}

impl BufferPool {
    /// The bytes of all buffers, one after the other.
    pub closed spec fn memory(&self) -> Seq<u8> {
        self.memory@
    }

    /// The size of a buffer.
    pub closed spec fn size(&self) -> nat {
        self.buf_size as nat
    }

    /// The buffers that are free, the next one to be handed out last.
    pub closed spec fn free(&self) -> Seq<u16> {
        self.free@
    }

    /// Whether every free index is a buffer of the pool and none is free twice.
    pub open spec fn sound(&self, count: nat) -> bool {
        &&& distinct(self.free())
        &&& forall|i: int| 0 <= i < self.free().len() ==> (#[trigger] self.free()[i]) < count
        &&& self.memory().len() == count * self.size()
        &&& count <= 65535
    }

    /// A pool of `count` buffers of `buf_size` bytes, all zero and all free.
    pub fn new(count: usize, buf_size: usize) -> (r: Result<Self, PoolError>)
        requires
            count * buf_size <= isize::MAX,
        ensures
            r is Ok <==> 1 <= count <= 65535,
            r matches Ok(pool) ==> {
                &&& pool.memory() == Seq::new((count * buf_size) as nat, |i: int| 0u8)
                &&& pool.size() == buf_size
                &&& pool.free() == Seq::new(count as nat, |i: int| (count - 1 - i) as u16)
                &&& pool.sound(count as nat)
            },
            r matches Err(e) ==> e == PoolError::InvalidCount,
    {
        if count == 0 || count > 65535 {
            return Err(PoolError::InvalidCount);
        }
        let total: usize = count * buf_size;
        let memory: Vec<u8> = vec![0u8; total];
        let mut free: Vec<u16> = Vec::new();
        let mut left: usize = count;
        while left > 0
            invariant
                left <= count <= 65535,
                free@.len() == count - left,
                forall|i: int| 0 <= i < free@.len() ==> #[trigger] free@[i] == count - 1 - i,
            decreases left,
        {
            left = left - 1;
            free.push(left as u16);
        }
        let pool = Self { memory, buf_size, free };
        assert(pool.memory() =~= Seq::new((count * buf_size) as nat, |i: int| 0u8));
        assert(pool.free() =~= Seq::new(count as nat, |i: int| (count - 1 - i) as u16));
        Ok(pool)
    }

    /// The size of a buffer.
    #[must_use]
    pub fn buf_size(&self) -> (r: usize)
        ensures
            r == self.size(),
    {
        self.buf_size
    }

    /// All buffers' bytes, for the caller to register and to have filled.
    pub fn memory_mut(&mut self) -> (r: &mut [u8])
        ensures
            (*r)@ == old(self).memory(),
            final(self).memory() == final(r)@,
            final(self).size() == old(self).size(),
            final(self).free() == old(self).free(),
    {
        self.memory.as_mut_slice()
    }

    /// Take a free buffer, if there is one.
    pub fn allocate(&mut self) -> (r: Option<u16>)
        ensures
            final(self).memory() == old(self).memory(),
            final(self).size() == old(self).size(),
            r is None <==> old(self).free().len() == 0,
            r is None ==> final(self).free() == old(self).free(),
            r matches Some(index) ==> index == old(self).free().last() && final(self).free()
                == old(self).free().drop_last(),
    {
        let r = self.free.pop();
        assert(old(self).free().len() > 0 ==> self.free() =~= old(self).free().drop_last());
        r
    }

    /// Give a buffer back.
    pub fn release(&mut self, index: u16)
        ensures
            final(self).memory() == old(self).memory(),
            final(self).size() == old(self).size(),
            final(self).free() == old(self).free().push(index),
    {
        self.free.push(index);
    }

    /// Part of a buffer.
    #[must_use]
    pub fn slice(&self, index: u16, offset: usize, len: usize) -> (r: &[u8])
        requires
            index * self.size() + offset + len <= self.memory().len(),
        ensures
            r@ == self.memory().subrange(
                index * self.size() + offset,
                index * self.size() + offset + len,
            ),
    {
        let total: usize = self.memory.len();
        assert(0 <= index * self.buf_size) by (nonlinear_arith)
            requires
                0 <= index,
                0 <= self.buf_size,
        ;
        let start: usize = index as usize * self.buf_size + offset;
        slice_subrange(self.memory.as_slice(), start, start + len)
    }
}

/// Taking a buffer and giving one back keep the pool sound: what is handed out was
/// free, is not free any more, and may be given back.
pub proof fn lemma_alloc_and_release_stay_sound(free: Seq<u16>, count: nat, index: u16)
    requires
        distinct(free),
        forall|i: int| 0 <= i < free.len() ==> (#[trigger] free[i]) < count,
    ensures
        free.len() > 0 ==> {
            &&& distinct(free.drop_last())
            &&& free.last() < count
            &&& !free.drop_last().contains(free.last())
            &&& free.drop_last().push(free.last()) == free
        },
        index < count && !free.contains(index) ==> distinct(free.push(index)) && forall|i: int|
            0 <= i < free.push(index).len() ==> (#[trigger] free.push(index)[i]) < count,
{
    if free.len() > 0 {
        assert(free.drop_last().push(free.last()) =~= free);
    }
    if index < count && !free.contains(index) {
        let grown = free.push(index);
        assert forall|i: int, j: int| 0 <= i < j < grown.len() implies grown[i] != grown[j] by {
            if j == free.len() {
                assert(free.contains(free[i]));
            }
        }
    }
}

} // verus!
