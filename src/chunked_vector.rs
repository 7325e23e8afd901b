//! An append-only arena made of fixed-size chunks: what was written is never
//! moved, and a chunk that fills up is followed by a fresh one from the pool.
use vstd::prelude::*;

verus! {

/// One block of the arena: its elements and the number it can hold.
pub struct Chunk<T> {
    pub data: Vec<T>,
    pub capacity: usize,
}

impl<T: Copy> Chunk<T> {
    pub fn allocate(capacity: usize) -> (r: Chunk<T>)
        ensures
            r.data@.len() == 0,
            r.capacity == capacity,
    {
        Chunk { data: Vec::new(), capacity }
    }
}

/// Relies on replace_with::replace_with_or_abort: `dest` afterwards holds what
/// the closure returned for the old value, here an empty chunk of `capacity`.
#[verifier::external_body]
fn replace_with_larger_chunk<T: Copy>(dest: &mut Chunk<T>, capacity: usize)
    ensures
        final(dest).data@.len() == 0,
        final(dest).capacity == capacity,
{
    replace_with::replace_with_or_abort(dest, |_old| Chunk::allocate(capacity))
}

/// Hands out chunks of a suggested length.
#[derive(Clone, Copy)]
pub struct ChunkedVectorPool {
    suggested_length: usize,
}

impl ChunkedVectorPool {
    pub closed spec fn chunk_len(&self) -> nat {
        self.suggested_length as nat
    }

    pub fn new(suggested_length: usize) -> (r: ChunkedVectorPool)
        ensures
            r.chunk_len() == suggested_length,
    {
        ChunkedVectorPool { suggested_length }
    }

    fn take_object_owned<T: Copy>(&self) -> (r: Chunk<T>)
        ensures
            r.data@.len() == 0,
            r.capacity == self.chunk_len(),
    {
        Chunk::allocate(self.suggested_length)
    }
}

pub open spec fn chunks_contents<T>(c: Seq<Chunk<T>>) -> Seq<T>
    decreases c.len(),
{
    if c.len() == 0 {
        seq![]
    } else {
        chunks_contents(c.drop_last()) + c.last().data@
    }
}

pub struct ChunkedVector<T: Copy> {
    pub pool: ChunkedVectorPool,
    pub chunks: Vec<Chunk<T>>,
    pub current_size_left: usize,
}

impl<T: Copy> ChunkedVector<T> {
    /// Everything written so far, in order.
    pub open spec fn contents(&self) -> Seq<T> {
        chunks_contents(self.chunks@)
    }

    pub open spec fn wf(&self) -> bool {
        &&& self.chunks@.len() >= 1
        &&& forall|i: int|
            0 <= i < self.chunks@.len() ==> (#[trigger] self.chunks@[i]).data@.len()
                <= self.chunks@[i].capacity
        &&& self.current_size_left == self.chunks@.last().capacity
            - self.chunks@.last().data@.len()
    }

    pub closed spec fn pool_chunk_len(&self) -> nat {
        self.pool.chunk_len()
    }

    pub fn new(pool: ChunkedVectorPool) -> (r: ChunkedVector<T>)
        ensures
            r.wf(),
            r.contents() == Seq::<T>::empty(),
            r.current_size_left == pool.chunk_len(),
            r.pool_chunk_len() == pool.chunk_len(),
    {
        let first_chunk: Chunk<T> = pool.take_object_owned();
        let length = first_chunk.capacity;
        let mut chunks: Vec<Chunk<T>> = Vec::new();
        chunks.push(first_chunk);
        let r = ChunkedVector { pool, chunks, current_size_left: length };
        proof {
            assert(r.chunks@.drop_last() =~= Seq::<Chunk<T>>::empty());
            assert(chunks_contents(r.chunks@.drop_last()) =~= Seq::<T>::empty());
            assert(r.chunks@.last().data@ =~= Seq::<T>::empty());
            assert(r.contents() =~= Seq::<T>::empty());
        }
        r
    }

    /// Forgets everything written; keeps only the first chunk.
    pub fn clear(&mut self)
        requires
            old(self).wf(),
        ensures
            final(self).wf(),
            final(self).contents() == Seq::<T>::empty(),
            final(self).current_size_left == old(self).chunks@[0].capacity,
            final(self).pool_chunk_len() == old(self).pool_chunk_len(),
    {
        self.chunks.truncate(1);
        let mut first = self.chunks.pop().unwrap();
        first.data.clear();
        self.current_size_left = first.capacity;
        self.chunks.push(first);
        proof {
            assert(self.chunks@.drop_last() =~= Seq::<Chunk<T>>::empty());
            assert(chunks_contents(self.chunks@.drop_last()) =~= Seq::<T>::empty());
            assert(self.chunks@.last().data@ =~= Seq::<T>::empty());
            assert(self.contents() =~= Seq::<T>::empty());
        }
    }

    /// Makes room for `size` contiguous elements, starting a new chunk when the
    /// current one has less room left.
    pub fn ensure_reserve(&mut self, size: usize)
        requires
            old(self).wf(),
        ensures
            final(self).wf(),
            final(self).contents() == old(self).contents(),
            final(self).current_size_left >= size,
            old(self).current_size_left >= size ==> final(self).current_size_left == old(
                self,
            ).current_size_left,
            final(self).pool_chunk_len() == old(self).pool_chunk_len(),
    {
        if self.current_size_left < size {
            let mut new_chunk: Chunk<T> = self.pool.take_object_owned();
            if new_chunk.capacity < size {
                replace_with_larger_chunk(&mut new_chunk, size);
            }
            self.current_size_left = new_chunk.capacity;
            let ghost before = self.chunks@;
            self.chunks.push(new_chunk);
            proof {
                assert(self.chunks@.drop_last() =~= before);
                assert(self.contents() =~= chunks_contents(before));
                assert forall|i: int| 0 <= i < self.chunks@.len() implies (
                #[trigger] self.chunks@[i]).data@.len() <= self.chunks@[i].capacity by {
                    if i < before.len() {
                        assert(self.chunks@[i] == before[i]);
                    }
                }
            }
        }
    }

    /// Appends one element to the current chunk, which must have room for it.
    pub fn push_contiguous(&mut self, data: &T)
        requires
            old(self).wf(),
            old(self).current_size_left > 0,
        ensures
            final(self).wf(),
            final(self).contents() == old(self).contents().push(*data),
            final(self).current_size_left == old(self).current_size_left - 1,
            final(self).pool_chunk_len() == old(self).pool_chunk_len(),
    {
        let ghost before = self.chunks@;
        let mut last = self.chunks.pop().unwrap();
        proof {
            assert(self.chunks@ =~= before.drop_last());
        }
        last.data.push(*data);
        self.chunks.push(last);
        self.current_size_left = self.current_size_left - 1;
        proof {
            assert(self.chunks@.drop_last() =~= before.drop_last());
            assert(self.contents() =~= chunks_contents(before).push(*data));
            assert forall|i: int| 0 <= i < self.chunks@.len() implies (
            #[trigger] self.chunks@[i]).data@.len() <= self.chunks@[i].capacity by {
                if i < before.len() - 1 {
                    assert(self.chunks@[i] == before[i]);
                }
            }
        }
    }

    /// Appends a slice to the current chunk, which must have room for all of it.
    pub fn push_contiguous_slice(&mut self, data: &[T])
        requires
            old(self).wf(),
            data@.len() <= old(self).current_size_left,
        ensures
            final(self).wf(),
            final(self).contents() == old(self).contents() + data@,
            final(self).current_size_left == old(self).current_size_left - data@.len(),
            final(self).pool_chunk_len() == old(self).pool_chunk_len(),
    {
        let ghost before = self.chunks@;
        let mut last = self.chunks.pop().unwrap();
        proof {
            assert(self.chunks@ =~= before.drop_last());
        }
        let ghost start = last.data@;
        let mut i: usize = 0;
        while i < data.len()
            invariant
                i <= data@.len(),
                last.capacity == before.last().capacity,
                last.data@ == start + data@.subrange(0, i as int),
            decreases data@.len() - i,
        {
            last.data.push(data[i]);
            proof {
                assert(last.data@ =~= start + data@.subrange(0, i + 1));
            }
            i = i + 1;
        }
        proof {
            assert(data@.subrange(0, i as int) =~= data@);
        }
        self.chunks.push(last);
        self.current_size_left = self.current_size_left - data.len();
        proof {
            assert(self.chunks@.drop_last() =~= before.drop_last());
            assert(self.contents() =~= chunks_contents(before) + data@);
            assert forall|i: int| 0 <= i < self.chunks@.len() implies (
            #[trigger] self.chunks@[i]).data@.len() <= self.chunks@[i].capacity by {
                if i < before.len() - 1 {
                    assert(self.chunks@[i] == before[i]);
                }
            }
        }
    }
}

impl ChunkedVector<u8> {
    /// Writes all of `buf`, which must fit in the current chunk.
    pub fn write_all(&mut self, buf: &[u8])
        requires
            old(self).wf(),
            buf@.len() <= old(self).current_size_left,
        ensures
            final(self).wf(),
            final(self).contents() == old(self).contents() + buf@,
            final(self).current_size_left == old(self).current_size_left - buf@.len(),
    {
        self.push_contiguous_slice(buf);
    }
}

} // verus!
