//! Pools of buffers that are used again.
//!
//! A pool is a bounded queue: a buffer that is given back goes to its end, unless the pool is
//! full or the buffer is too small to be worth keeping, and a buffer is taken from its front.
use crate::buffers;
use bytes::BytesMut;
use crossbeam_queue::ArrayQueue;
use vstd::prelude::*;

verus! {

/// How many buffers a pool holds at most.
pub const POOL_SIZE: usize = 10000;

/// How much room a buffer has at least.
pub const BUF_CAPACITY: usize = 8192;

/// `crossbeam_queue::ArrayQueue`, a bounded queue.
#[verifier::external_type_specification]
#[verifier::external_body]
#[verifier::reject_recursive_types(T)]
pub struct ExArrayQueue<T>(crossbeam_queue::ArrayQueue<T>);

/// What the vectors in a queue hold, from its front to its end.
pub uninterp spec fn vec_queue(q: ArrayQueue<Vec<u8>>) -> Seq<Seq<u8>>;

/// How many vectors fit into a queue.
pub uninterp spec fn vec_queue_limit(q: ArrayQueue<Vec<u8>>) -> nat;

/// What the buffers in a queue hold, from its front to its end.
pub uninterp spec fn bytes_queue(q: ArrayQueue<BytesMut>) -> Seq<Seq<u8>>;

/// How many buffers fit into a queue.
pub uninterp spec fn bytes_queue_limit(q: ArrayQueue<BytesMut>) -> nat;

/// `ArrayQueue::new`: an empty queue with room for `limit` vectors. It panics where `limit` is
/// zero or too large for the memory.
#[verifier::external_body]
fn vec_queue_new(limit: usize) -> (r: ArrayQueue<Vec<u8>>)
    requires
        0 < limit <= POOL_SIZE,
    ensures
        vec_queue(r) == Seq::<Seq<u8>>::empty(),
        vec_queue_limit(r) == limit,
{
    ArrayQueue::new(limit)
}

/// `ArrayQueue::push` on a queue that nobody else uses at the same time: appends the vector
/// unless the queue is full.
#[verifier::external_body]
fn vec_queue_push(q: &mut ArrayQueue<Vec<u8>>, v: Vec<u8>)
    ensures
        vec_queue_limit(*final(q)) == vec_queue_limit(*old(q)),
        vec_queue(*final(q)) == (if vec_queue(*old(q)).len() < vec_queue_limit(*old(q)) {
            vec_queue(*old(q)).push(v@)
        } else {
            vec_queue(*old(q))
        }),
{
    let _ = q.push(v);
}

/// `ArrayQueue::pop` on a queue that nobody else uses at the same time: takes the vector at the
/// front, where there is one.
#[verifier::external_body]
fn vec_queue_pop(q: &mut ArrayQueue<Vec<u8>>) -> (r: Option<Vec<u8>>)
    ensures
        vec_queue_limit(*final(q)) == vec_queue_limit(*old(q)),
        r is Some <==> vec_queue(*old(q)).len() > 0,
        r matches Some(v) ==> v@ == vec_queue(*old(q))[0] && vec_queue(*final(q)) == vec_queue(
            *old(q),
        ).skip(1),
        r is None ==> vec_queue(*final(q)) == vec_queue(*old(q)),
{
    q.pop()
}

/// `ArrayQueue::new`: an empty queue with room for `limit` buffers. It panics where `limit` is
/// zero or too large for the memory.
#[verifier::external_body]
fn bytes_queue_new(limit: usize) -> (r: ArrayQueue<BytesMut>)
    requires
        0 < limit <= POOL_SIZE,
    ensures
        bytes_queue(r) == Seq::<Seq<u8>>::empty(),
        bytes_queue_limit(r) == limit,
{
    ArrayQueue::new(limit)
}

/// `ArrayQueue::push` on a queue that nobody else uses at the same time: appends the buffer
/// unless the queue is full.
#[verifier::external_body]
fn bytes_queue_push(q: &mut ArrayQueue<BytesMut>, b: BytesMut)
    ensures
        bytes_queue_limit(*final(q)) == bytes_queue_limit(*old(q)),
        bytes_queue(*final(q)) == (if bytes_queue(*old(q)).len() < bytes_queue_limit(*old(q)) {
            bytes_queue(*old(q)).push(buffers::bytes_mut_seq(b))
        } else {
            bytes_queue(*old(q))
        }),
{
    let _ = q.push(b);
}

/// `ArrayQueue::pop` on a queue that nobody else uses at the same time: takes the buffer at the
/// front, where there is one.
#[verifier::external_body]
fn bytes_queue_pop(q: &mut ArrayQueue<BytesMut>) -> (r: Option<BytesMut>)
    ensures
        bytes_queue_limit(*final(q)) == bytes_queue_limit(*old(q)),
        r is Some <==> bytes_queue(*old(q)).len() > 0,
        r matches Some(b) ==> buffers::bytes_mut_seq(b) == bytes_queue(*old(q))[0] && bytes_queue(
            *final(q),
        ) == bytes_queue(*old(q)).skip(1),
        r is None ==> bytes_queue(*final(q)) == bytes_queue(*old(q)),
{
    q.pop()
}

/// `Vec::capacity`: never less than the length. What the allocator gave beyond that is left
/// unsaid.
#[verifier::external_body]
fn vec_capacity(v: &Vec<u8>) -> (r: usize)
    ensures
        r >= v@.len(),
{
    v.capacity()
}

/// `BytesMut::capacity`: never less than the length. What the allocator gave beyond that is left
/// unsaid.
#[verifier::external_body]
fn bytes_mut_capacity(b: &BytesMut) -> (r: usize)
    ensures
        r >= buffers::bytes_mut_seq(*b).len(),
{
    b.capacity()
}

/// A pool of vectors.
pub struct VecPool {
    queue: ArrayQueue<Vec<u8>>,
}

impl View for VecPool {
    type V = Seq<Seq<u8>>;

    /// What the vectors in the pool hold, in the order in which they will be taken.
    closed spec fn view(&self) -> Seq<Seq<u8>> {
        vec_queue(self.queue)
    }
}

/// `pool` after a buffer that holds `contents` and has room for `capacity` bytes was given back.
pub open spec fn pool_with(pool: Seq<Seq<u8>>, contents: Seq<u8>, capacity: usize) -> Seq<Seq<u8>> {
    if capacity >= BUF_CAPACITY && pool.len() < POOL_SIZE {
        pool.push(contents)
    } else {
        pool
    }
}

/// `pool` after a buffer was taken.
pub open spec fn pool_without_first(pool: Seq<Seq<u8>>) -> Seq<Seq<u8>> {
    if pool.len() > 0 {
        pool.skip(1)
    } else {
        pool
    }
}

impl VecPool {
    /// The queue has room for `POOL_SIZE` vectors and holds no more.
    pub closed spec fn wf(&self) -> bool {
        vec_queue_limit(self.queue) == POOL_SIZE && vec_queue(self.queue).len() <= POOL_SIZE
    }

    /// An empty pool.
    pub fn new() -> (r: Self)
        ensures
            r.wf(),
            r@ == Seq::<Seq<u8>>::empty(),
    {
        VecPool { queue: vec_queue_new(POOL_SIZE) }
    }

    /// Gives back a vector that has room for `capacity` bytes.
    pub fn offer(&mut self, vec: Vec<u8>, capacity: usize)
        requires
            old(self).wf(),
        ensures
            final(self).wf(),
            final(self)@ == pool_with(old(self)@, vec@, capacity),
    {
        if capacity >= BUF_CAPACITY {
            vec_queue_push(&mut self.queue, vec);
        }
    }
}

/// Takes an empty vector from the pool, or makes one.
pub fn get_vec(pool: &mut VecPool) -> (r: Vec<u8>)
    requires
        old(pool).wf(),
    ensures
        r@ == Seq::<u8>::empty(),
        final(pool).wf(),
        final(pool)@ == pool_without_first(old(pool)@),
{
    match vec_queue_pop(&mut pool.queue) {
        Some(mut vec) => {
            vec.clear();
            vec
        },
        None => Vec::with_capacity(BUF_CAPACITY),
    }
}

/// Gives a vector back to the pool, which keeps it where it is large enough and fits in.
pub fn return_vec(pool: &mut VecPool, vec: Vec<u8>)
    requires
        old(pool).wf(),
    ensures
        final(pool).wf(),
        exists|capacity: usize|
            capacity >= vec@.len() && final(pool)@ == #[trigger] pool_with(old(pool)@, vec@, capacity),
{
    let capacity: usize = vec_capacity(&vec);
    pool.offer(vec, capacity);
}

/// A vector of a pool.
pub struct PooledVec {
    vec: Vec<u8>,
}

impl View for PooledVec {
    type V = Seq<u8>;

    closed spec fn view(&self) -> Seq<u8> {
        self.vec@
    }
}

impl PooledVec {
    /// An empty vector, from the pool where that has one.
    pub fn new(pool: &mut VecPool) -> (r: Self)
        requires
            old(pool).wf(),
        ensures
            r@ == Seq::<u8>::empty(),
            final(pool).wf(),
            final(pool)@ == pool_without_first(old(pool)@),
    {
        PooledVec { vec: get_vec(pool) }
    }

    /// A vector of `size` zeros, from the pool where that has one.
    pub fn new_with_size(pool: &mut VecPool, size: usize) -> (r: Self)
        requires
            old(pool).wf(),
        ensures
            r@ == Seq::new(size as nat, |i: int| 0u8),
            final(pool).wf(),
            final(pool)@ == pool_without_first(old(pool)@),
    {
        let mut vec: Vec<u8> = get_vec(pool);
        vec.resize(size, 0);
        proof {
            assert(vec@ =~= Seq::new(size as nat, |i: int| 0u8));
        }
        PooledVec { vec }
    }

    /// The vector.
    pub fn deref(&self) -> (r: &Vec<u8>)
        ensures
            r@ == self@,
    {
        &self.vec
    }

    /// The vector.
    pub fn deref_mut(&mut self) -> (r: &mut Vec<u8>)
        ensures
            r@ == old(self)@,
            final(self)@ == final(r)@,
    {
        &mut self.vec
    }

    /// Gives the vector back to the pool.
    pub fn release(self, pool: &mut VecPool)
        requires
            old(pool).wf(),
        ensures
            final(pool).wf(),
            exists|capacity: usize|
                capacity >= self@.len() && final(pool)@ == #[trigger] pool_with(
                    old(pool)@,
                    self@,
                    capacity,
                ),
    {
        let ghost before = pool@;
        let capacity: usize = vec_capacity(&self.vec);
        pool.offer(self.vec, capacity);
        proof {
            assert(pool@ == pool_with(before, self@, capacity));
        }
    }
}

/// A pool of `bytes` buffers.
pub struct BytesPool {
    queue: ArrayQueue<BytesMut>,
}

impl View for BytesPool {
    type V = Seq<Seq<u8>>;

    /// What the buffers in the pool hold, in the order in which they will be taken.
    closed spec fn view(&self) -> Seq<Seq<u8>> {
        bytes_queue(self.queue)
    }
}

impl BytesPool {
    /// The queue has room for `POOL_SIZE` buffers and holds no more.
    pub closed spec fn wf(&self) -> bool {
        bytes_queue_limit(self.queue) == POOL_SIZE && bytes_queue(self.queue).len() <= POOL_SIZE
    }

    /// An empty pool.
    pub fn new() -> (r: Self)
        ensures
            r.wf(),
            r@ == Seq::<Seq<u8>>::empty(),
    {
        BytesPool { queue: bytes_queue_new(POOL_SIZE) }
    }

    /// Gives back a buffer that has room for `capacity` bytes.
    pub fn offer(&mut self, buf: BytesMut, capacity: usize)
        requires
            old(self).wf(),
        ensures
            final(self).wf(),
            final(self)@ == pool_with(old(self)@, buffers::bytes_mut_seq(buf), capacity),
    {
        if capacity >= BUF_CAPACITY {
            bytes_queue_push(&mut self.queue, buf);
        }
    }
}

/// A `bytes` buffer of a pool.
pub struct PooledBytesMut {
    buf: BytesMut,
}

impl View for PooledBytesMut {
    type V = Seq<u8>;

    closed spec fn view(&self) -> Seq<u8> {
        buffers::bytes_mut_seq(self.buf)
    }
}

impl PooledBytesMut {
    /// An empty buffer, from the pool where that has one.
    pub fn new(pool: &mut BytesPool) -> (r: Self)
        requires
            old(pool).wf(),
        ensures
            r@ == Seq::<u8>::empty(),
            final(pool).wf(),
            final(pool)@ == pool_without_first(old(pool)@),
    {
        let buf: BytesMut = match bytes_queue_pop(&mut pool.queue) {
            Some(mut buf) => {
                buffers::bytes_mut_clear(&mut buf);
                buf
            },
            None => buffers::bytes_mut_with_capacity(BUF_CAPACITY),
        };
        PooledBytesMut { buf }
    }

    /// The buffer.
    pub fn deref(&self) -> (r: &BytesMut)
        ensures
            buffers::bytes_mut_seq(*r) == self@,
    {
        &self.buf
    }

    /// The buffer.
    pub fn deref_mut(&mut self) -> (r: &mut BytesMut)
        ensures
            buffers::bytes_mut_seq(*r) == old(self)@,
            final(self)@ == buffers::bytes_mut_seq(*final(r)),
    {
        &mut self.buf
    }

    /// Gives the buffer back to the pool.
    pub fn release(self, pool: &mut BytesPool)
        requires
            old(pool).wf(),
        ensures
            final(pool).wf(),
            exists|capacity: usize|
                capacity >= self@.len() && final(pool)@ == #[trigger] pool_with(
                    old(pool)@,
                    self@,
                    capacity,
                ),
    {
        let ghost before = pool@;
        let capacity: usize = bytes_mut_capacity(&self.buf);
        pool.offer(self.buf, capacity);
        proof {
            assert(pool@ == pool_with(before, self@, capacity));
        }
    }
}

/// A pool of vectors never holds more than `POOL_SIZE` of them.
pub proof fn lemma_vec_pool_is_bounded(pool: VecPool)
    requires
        pool.wf(),
    ensures
        pool@.len() <= 10000,
{
}

/// A pool of `bytes` buffers never holds more than `POOL_SIZE` of them.
pub proof fn lemma_bytes_pool_is_bounded(pool: BytesPool)
    requires
        pool.wf(),
    ensures
        pool@.len() <= 10000,
{
}

/// Buffers are taken in the order in which they were given back: one that is given back to a pool
/// with room is taken after all that the pool holds, and at once where it holds none.
pub proof fn lemma_first_given_back_is_first_taken(pool: Seq<Seq<u8>>, contents: Seq<u8>, capacity: usize)
    requires
        capacity >= 8192,
        pool.len() < 10000,
    ensures
        pool_with(pool, contents, capacity).len() == pool.len() + 1,
        pool_with(pool, contents, capacity).last() == contents,
        forall|i: int|
            0 <= i < pool.len() ==> #[trigger] pool_with(pool, contents, capacity)[i] == pool[i],
        pool_without_first(pool) == (if pool.len() > 0 {
            pool.subrange(1, pool.len() as int)
        } else {
            pool
        }),
        pool.len() > 0 ==> {
            &&& pool_with(pool, contents, capacity)[0] == pool[0]
            &&& pool_without_first(pool_with(pool, contents, capacity)) == pool_with(
                pool_without_first(pool),
                contents,
                capacity,
            )
        },
        pool.len() == 0 ==> pool_without_first(pool_with(pool, contents, capacity)) == pool,
{
    let after = pool_with(pool, contents, capacity);
    if pool.len() > 0 {
        assert(pool.skip(1) =~= pool.subrange(1, pool.len() as int));
        assert(after.skip(1) =~= pool.skip(1).push(contents));
    } else {
        assert(after.skip(1) =~= pool);
    }
}

/// A buffer that is too small, or that comes to a full pool, changes nothing.
pub proof fn lemma_dropped(pool: Seq<Seq<u8>>, contents: Seq<u8>, capacity: usize)
    requires
        capacity < 8192 || pool.len() >= 10000,
    ensures
        pool_with(pool, contents, capacity) == pool,
{
}

} // verus!
