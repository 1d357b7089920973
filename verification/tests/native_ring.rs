//! Completion tags and registered buffers.

use lb::proxy_native::ring::{pack, unpack, BufferPool, Op, PoolError};

const OPS: [Op; 7] = [
    Op::Accept,
    Op::ClientRead,
    Op::ClientWrite,
    Op::UpstreamConnect,
    Op::UpstreamRead,
    Op::UpstreamWrite,
    Op::Close,
];

#[test]
fn tags_round_trip() {
    for op in OPS {
        for generation in [0, 1, 0x00ff_ffff] {
            for index in [0, 7, u32::MAX] {
                let tag = pack(op, generation, index);
                assert_eq!(unpack(tag), Some((op, generation, index)));
            }
        }
    }
}

#[test]
fn a_tag_of_no_operation_is_not_read() {
    assert_eq!(unpack(0), None);
    assert_eq!(Op::from_u8(0), None);
    assert_eq!(Op::from_u8(8), None);
    for op in OPS {
        assert_eq!(Op::from_u8(op.code()), Some(op));
    }
}

#[test]
fn the_tag_keeps_the_low_bits_of_a_generation() {
    assert_eq!(
        unpack(pack(Op::ClientRead, 0x0100_0005, 3)),
        Some((Op::ClientRead, 5, 3))
    );
}

#[test]
fn buffers_are_handed_out_once_until_they_come_back() {
    let mut pool = BufferPool::new(2, 16).unwrap();
    assert_eq!(pool.buf_size(), 16);
    let a = pool.allocate().unwrap();
    let b = pool.allocate().unwrap();
    assert_ne!(a, b);
    assert_eq!(pool.allocate(), None);
    pool.release(a);
    assert_eq!(pool.allocate(), Some(a));
}

#[test]
fn a_buffer_is_a_piece_of_the_pool() {
    let mut pool = BufferPool::new(2, 4).unwrap();
    pool.memory_mut().copy_from_slice(b"abcdefgh");
    assert_eq!(pool.slice(0, 1, 2), b"bc");
    assert_eq!(pool.slice(1, 0, 4), b"efgh");
}

#[test]
fn a_pool_has_some_buffers_but_not_too_many() {
    assert_eq!(BufferPool::new(0, 16).err(), Some(PoolError::InvalidCount));
    assert_eq!(BufferPool::new(65_536, 16).err(), Some(PoolError::InvalidCount));
    assert_eq!(
        PoolError::InvalidCount.message(),
        "buffer count must be in 1..=65535"
    );
}
