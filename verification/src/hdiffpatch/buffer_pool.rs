//! Reuse of byte buffers.

use vstd::prelude::*;

verus! {

/// `Vec::capacity`: never less than the length. What the allocator gave is not
/// known beyond that.
#[verifier::external_body]
fn capacity_of(buf: &Vec<u8>) -> (r: usize)
    ensures
        r >= buf@.len(),
{
    buf.capacity()
}

/// `Vec::shrink_to`: gives memory back and keeps the contents.
#[verifier::external_body]
fn shrink_buffer(buf: &mut Vec<u8>, min_capacity: usize)
    ensures
        final(buf)@ == old(buf)@,
{
    buf.shrink_to(min_capacity)
}

/// An idle buffer, with the capacity that it was seen to have.
pub struct IdleBuffer {
    pub buf: Vec<u8>,
    pub capacity: usize,
}

/// Idle buffers, of which at most `max_idle` are kept.
pub struct BufferPool {
    pub buffers: Vec<IdleBuffer>,
    pub max_idle: usize,
}

/// The first of the smallest capacities that are at least `min_capacity`, among
/// the first `n` buffers.
pub open spec fn best_fit(pool: Seq<IdleBuffer>, min_capacity: usize, n: int) -> Option<int>
    decreases n,
{
    if n <= 0 {
        None
    } else {
        let c = pool[n - 1].capacity;
        match best_fit(pool, min_capacity, n - 1) {
            None => if c >= min_capacity && c < usize::MAX {
                Some(n - 1)
            } else {
                None
            },
            Some(b) => if c >= min_capacity && c < pool[b].capacity {
                Some(n - 1)
            } else {
                Some(b)
            },
        }
    }
}

impl BufferPool {
    /// An empty pool.
    pub fn new(max_idle: usize) -> (r: BufferPool)
        ensures
            r.buffers@.len() == 0,
            r.max_idle == max_idle,
            r.wf(),
    {
        BufferPool { buffers: Vec::new(), max_idle }
    }

    /// No more buffers are kept than allowed, and each holds what it can.
    pub open spec fn wf(&self) -> bool {
        &&& self.buffers@.len() <= self.max_idle
        &&& forall|i: int|
            0 <= i < self.buffers@.len() ==> (#[trigger] self.buffers@[i]).buf@.len()
                <= self.buffers@[i].capacity
    }

    /// Takes the buffer out of the pool that fits best, or makes a new one.
    pub fn take(&mut self, min_capacity: usize) -> (r: Vec<u8>)
        requires
            old(self).wf(),
        ensures
            final(self).wf(),
            final(self).max_idle == old(self).max_idle,
            match best_fit(old(self).buffers@, min_capacity, old(self).buffers@.len() as int) {
                Some(i) => {
                    &&& r == old(self).buffers@[i].buf
                    &&& final(self).buffers@ == old(self).buffers@.update(
                        i,
                        old(self).buffers@.last(),
                    ).drop_last()
                },
                None => r@.len() == 0 && final(self).buffers@ == old(self).buffers@,
            },
    {
        let mut best_idx: Option<usize> = None;
        let mut best_cap: usize = usize::MAX;
        let mut i: usize = 0;
        while i < self.buffers.len()
            invariant
                i <= self.buffers@.len(),
                *self == *old(self),
                match best_idx {
                    Some(b) => b < i && best_fit(self.buffers@, min_capacity, i as int) == Some(
                        b as int,
                    ) && best_cap == self.buffers@[b as int].capacity,
                    None => best_fit(self.buffers@, min_capacity, i as int) is None && best_cap
                        == usize::MAX,
                },
            decreases self.buffers@.len() - i,
        {
            let cap: usize = self.buffers[i].capacity;
            if cap >= min_capacity && cap < best_cap {
                best_idx = Some(i);
                best_cap = cap;
            }
            i += 1;
        }
        match best_idx {
            Some(b) => {
                let taken = self.buffers.swap_remove(b);
                taken.buf
            },
            None => Vec::with_capacity(min_capacity),
        }
    }

    /// Keeps `buf`, seen to have the given capacity, if there is room for it.
    pub fn keep(&mut self, buf: Vec<u8>, capacity: usize)
        requires
            old(self).wf(),
            buf@.len() <= capacity,
        ensures
            final(self).wf(),
            final(self).max_idle == old(self).max_idle,
            final(self).buffers@ == if old(self).buffers@.len() < old(self).max_idle {
                old(self).buffers@.push(IdleBuffer { buf, capacity })
            } else {
                old(self).buffers@
            },
    {
        if self.buffers.len() < self.max_idle {
            self.buffers.push(IdleBuffer { buf, capacity });
        }
    }

    /// Gives `buf` back to the pool.
    pub fn return_buf(&mut self, buf: Vec<u8>)
        requires
            old(self).wf(),
        ensures
            final(self).wf(),
            final(self).max_idle == old(self).max_idle,
            old(self).buffers@.len() >= old(self).max_idle ==> final(self).buffers@ == old(
                self).buffers@,
            old(self).buffers@.len() < old(self).max_idle ==> {
                &&& final(self).buffers@.len() == old(self).buffers@.len() + 1
                &&& final(self).buffers@.drop_last() == old(self).buffers@
                &&& final(self).buffers@.last().buf == buf
            },
    {
        let capacity: usize = capacity_of(&buf);
        self.keep(buf, capacity);
        proof {
            if old(self).buffers@.len() < old(self).max_idle {
                assert(self.buffers@.drop_last() =~= old(self).buffers@);
            }
        }
    }

    /// Keeps `buf`, seen to have the given capacity, if there is room for it and it
    /// is not above `max_cap`. What is to give back memory before it is kept comes
    /// back.
    pub fn keep_within(&mut self, buf: Vec<u8>, capacity: usize, max_cap: usize) -> (r: Option<
        Vec<u8>,
    >)
        requires
            old(self).wf(),
            buf@.len() <= capacity,
        ensures
            final(self).wf(),
            final(self).max_idle == old(self).max_idle,
            if old(self).buffers@.len() < old(self).max_idle && capacity > max_cap {
                r == Some(buf) && final(self).buffers@ == old(self).buffers@
            } else {
                &&& r is None
                &&& final(self).buffers@ == if old(self).buffers@.len() < old(self).max_idle {
                    old(self).buffers@.push(IdleBuffer { buf, capacity })
                } else {
                    old(self).buffers@
                }
            },
    {
        if self.buffers.len() < self.max_idle && shrinks(capacity, max_cap) {
            return Some(buf);
        }
        self.keep(buf, capacity);
        None
    }

    /// Gives `buf` back to the pool; of a capacity above `max_cap`, memory is
    /// given back first. What capacity is left then is for the allocator to say.
    pub fn return_buf_shrunken(&mut self, buf: Vec<u8>, max_cap: usize)
        requires
            old(self).wf(),
        ensures
            final(self).wf(),
            final(self).max_idle == old(self).max_idle,
            old(self).buffers@.len() >= old(self).max_idle ==> final(self).buffers@ == old(
                self).buffers@,
            old(self).buffers@.len() < old(self).max_idle ==> {
                &&& final(self).buffers@.len() == old(self).buffers@.len() + 1
                &&& final(self).buffers@.drop_last() == old(self).buffers@
                &&& final(self).buffers@.last().buf@ == buf@
            },
    {
        let capacity: usize = capacity_of(&buf);
        match self.keep_within(buf, capacity, max_cap) {
            Some(large) => {
                let mut kept = large;
                shrink_buffer(&mut kept, max_cap);
                let left: usize = capacity_of(&kept);
                self.keep(kept, left);
            },
            None => {},
        }
        proof {
            if old(self).buffers@.len() < old(self).max_idle {
                assert(self.buffers@.drop_last() =~= old(self).buffers@);
            }
        }
    }
}

/// Whether a buffer of the given capacity gives back memory before it is kept.
pub fn shrinks(capacity: usize, max_cap: usize) -> (r: bool)
    ensures
        r == (capacity > max_cap),
{
    capacity > max_cap
}

/// The buffer that fits best is large enough, no other that is large enough is
/// smaller, and no earlier one is as small.
pub proof fn law_best_fit(pool: Seq<IdleBuffer>, min_capacity: usize, n: int)
    requires
        0 <= n <= pool.len(),
    ensures
        match best_fit(pool, min_capacity, n) {
            Some(b) => {
                &&& 0 <= b < n
                &&& pool[b].capacity >= min_capacity
                &&& forall|i: int|
                    0 <= i < n && (#[trigger] pool[i]).capacity >= min_capacity
                        ==> pool[b].capacity <= pool[i].capacity && (i < b ==> pool[b].capacity
                        < pool[i].capacity)
            },
            None => forall|i: int|
                0 <= i < n ==> (#[trigger] pool[i]).capacity < min_capacity || pool[i].capacity
                    == usize::MAX,
        },
    decreases n,
{
    if n > 0 {
        law_best_fit(pool, min_capacity, n - 1);
    }
}

} // verus!
