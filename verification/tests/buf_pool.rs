use bytes::BytesMut;
use ghostrpc::buf_pool::{
    get_vec, return_vec, BytesPool, PooledBytesMut, PooledVec, VecPool, BUF_CAPACITY, POOL_SIZE,
};

#[test]
fn new_vectors_are_empty_and_roomy() {
    let mut pool = VecPool::new();
    let v = get_vec(&mut pool);
    assert!(v.is_empty());
    assert!(v.capacity() >= BUF_CAPACITY);
}

#[test]
fn given_back_vector_is_used_again() {
    let mut pool = VecPool::new();
    let mut v: Vec<u8> = Vec::with_capacity(BUF_CAPACITY + 12345);
    v.push(1);
    let capacity = v.capacity();
    return_vec(&mut pool, v);
    let again = get_vec(&mut pool);
    assert_eq!(again.capacity(), capacity);
    assert!(again.is_empty());
    assert!(get_vec(&mut pool).capacity() < capacity);
}

#[test]
fn small_vector_is_not_kept() {
    let mut pool = VecPool::new();
    return_vec(&mut pool, Vec::with_capacity(16));
    assert!(get_vec(&mut pool).capacity() >= BUF_CAPACITY);
}

#[test]
fn first_given_back_is_first_taken() {
    let mut pool = VecPool::new();
    let a: Vec<u8> = Vec::with_capacity(BUF_CAPACITY + 1000);
    let b: Vec<u8> = Vec::with_capacity(BUF_CAPACITY + 5000);
    let (ca, cb) = (a.capacity(), b.capacity());
    return_vec(&mut pool, a);
    return_vec(&mut pool, b);
    assert_eq!(get_vec(&mut pool).capacity(), ca);
    assert_eq!(get_vec(&mut pool).capacity(), cb);
}

#[test]
fn full_pool_keeps_nothing_more() {
    let mut pool = VecPool::new();
    for _ in 0..POOL_SIZE {
        pool.offer(Vec::new(), BUF_CAPACITY);
    }
    let large: Vec<u8> = Vec::with_capacity(BUF_CAPACITY);
    return_vec(&mut pool, large);
    for _ in 0..POOL_SIZE {
        assert_eq!(get_vec(&mut pool).capacity(), 0);
    }
    assert!(get_vec(&mut pool).capacity() >= BUF_CAPACITY);
}

#[test]
fn pooled_vector_goes_back() {
    let mut pool = VecPool::new();
    let mut v = PooledVec::new_with_size(&mut pool, 3);
    assert_eq!(v.deref(), &vec![0, 0, 0]);
    v.deref_mut().push(7);
    v.deref_mut().reserve_exact(BUF_CAPACITY * 3);
    let capacity = v.deref().capacity();
    v.release(&mut pool);
    let again = PooledVec::new(&mut pool);
    assert!(again.deref().is_empty());
    assert_eq!(again.deref().capacity(), capacity);
    again.release(&mut pool);
    let zeros = PooledVec::new_with_size(&mut pool, 4);
    assert_eq!(zeros.deref(), &vec![0, 0, 0, 0]);
}

#[test]
fn pooled_bytes_go_back() {
    let mut pool = BytesPool::new();
    let mut b = PooledBytesMut::new(&mut pool);
    assert!(b.deref().is_empty());
    assert!(b.deref().capacity() >= BUF_CAPACITY);
    b.deref_mut().reserve(BUF_CAPACITY * 4);
    b.deref_mut().extend_from_slice(b"data");
    let capacity = b.deref().capacity();
    b.release(&mut pool);
    let again = PooledBytesMut::new(&mut pool);
    assert!(again.deref().is_empty());
    assert_eq!(again.deref().capacity(), capacity);
    pool.offer(BytesMut::new(), 16);
    assert!(PooledBytesMut::new(&mut pool).deref().capacity() >= BUF_CAPACITY);
}
