//! A fixed-capacity ring buffer that keeps the most recent items pushed into it.

use vstd::prelude::*;
use vstd::arithmetic::div_mod::lemma_small_mod;
use vstd::arithmetic::div_mod::lemma_mod_self_0;

verus! {

/// The last `cap` items of `s` (all of `s` when it has no more than `cap`).
pub open spec fn window<T>(s: Seq<T>, cap: nat) -> Seq<T> {
    if s.len() <= cap {
        s
    } else {
        s.skip(s.len() - cap)
    }
}

/// A buffer of at most `capacity` items. Once full, each push overwrites the
/// oldest item.
pub struct CircularBuffer<T> {
    buffer: Vec<T>,
    head: usize,
    tail: usize,
    capacity: usize,
    size: usize,
}

impl<T> View for CircularBuffer<T> {
    type V = Seq<T>;

    /// The items held, oldest first.
    closed spec fn view(&self) -> Seq<T> {
        self.buffer@.skip(self.head as int) + self.buffer@.take(self.head as int)
    }
}

impl<T> CircularBuffer<T> {
    /// The internal consistency of the buffer: items fill the storage from the
    /// start until it is full; from then on `head` (= `tail`) marks the oldest item.
    pub closed spec fn wf(&self) -> bool {
        &&& self.buffer@.len() == self.size
        &&& self.size <= self.capacity
        &&& self.size < self.capacity ==> self.head == 0 && self.tail == self.size
        &&& self.size == self.capacity && self.capacity > 0 ==> self.head == self.tail
            && self.head < self.capacity
        &&& self.capacity == 0 ==> self.head == 0 && self.tail == 0
    }

    /// The most items the buffer holds.
    pub closed spec fn cap(&self) -> nat {
        self.capacity as nat
    }

    /// An empty buffer that keeps at most `capacity` items.
    pub fn with_capacity(capacity: usize) -> (r: Self)
        ensures
            r.wf(),
            r@ == Seq::<T>::empty(),
            r.cap() == capacity,
    {
        let r = CircularBuffer { buffer: Vec::new(), head: 0, tail: 0, capacity, size: 0 };
        assert(r@ =~= Seq::<T>::empty());
        r
    }

    /// Adds `element` as the newest item; when the buffer is full the oldest item
    /// is dropped. A buffer of capacity 0 stays empty.
    pub fn push(&mut self, element: T)
        requires
            old(self).wf(),
        ensures
            final(self).wf(),
            final(self).cap() == old(self).cap(),
            final(self)@ == window(old(self)@.push(element), old(self).cap()),
    {
        if self.capacity == 0 {
            assert(self@ =~= Seq::<T>::empty());
            assert(window(old(self)@.push(element), 0) =~= Seq::<T>::empty());
            return ;
        }
        let ghost b = self.buffer@;
        let ghost h = self.head as int;
        let ghost t = self.tail as int;
        proof {
            let cap = self.capacity as int;
            if h + 1 < cap {
                lemma_small_mod((h + 1) as nat, cap as nat);
            } else {
                lemma_mod_self_0(cap);
            }
            if t + 1 < cap {
                lemma_small_mod((t + 1) as nat, cap as nat);
            } else if t + 1 == cap {
                lemma_mod_self_0(cap);
            }
        }
        if self.tail == self.buffer.len() {
            self.buffer.push(element);
        } else {
            self.buffer.set(self.tail, element);
        }
        if self.size == self.capacity {
            self.head = (self.head + 1) % self.capacity;
        } else {
            self.size += 1;
        }
        self.tail = (self.tail + 1) % self.capacity;
        proof {
            let cap = self.capacity as int;
            let s = b.skip(h) + b.take(h);
            if self.size as int == b.len() + 1 {
                // the buffer was not full: it grew at its end
                assert(h == 0);
                assert(b.take(0) =~= Seq::<T>::empty());
                assert(b.skip(0) =~= b);
                assert(self.buffer@.take(self.head as int) =~= Seq::<T>::empty());
                assert(self.buffer@.skip(self.head as int) =~= b.push(element));
                assert(s =~= b);
            } else {
                // the buffer was full: the oldest item at `h` was overwritten
                let nb = b.update(h, element);
                assert(self.buffer@ == nb);
                assert(s.push(element).len() == cap + 1);
                if h + 1 < cap {
                    assert(self.head as int == h + 1);
                    assert(self@ =~= s.push(element).skip(1));
                } else {
                    assert(self.head == 0);
                    assert(self@ =~= s.push(element).skip(1));
                }
            }
        }
    }

    /// The items held, oldest first.
    pub fn into_vec(self) -> (r: Vec<T>)
        requires
            self.wf(),
        ensures
            r@ == self@,
    {
        if self.head == 0 {
            assert(self.buffer@.skip(0) + self.buffer@.take(0) =~= self.buffer@);
            self.buffer
        } else {
            let mut front = self.buffer;
            let mut back = front.split_off(self.head);
            back.append(&mut front);
            back
        }
    }
}

/// Pushing onto a buffer that holds the last `cap` items of `s` leaves the last
/// `cap` items of `s` followed by the new item: a ring buffer always holds the
/// most recent `cap` items pushed into it, in the order they came.
pub proof fn lemma_window_push<T>(s: Seq<T>, e: T, cap: nat)
    ensures
        window(window(s, cap).push(e), cap) == window(s.push(e), cap),
        window(s, cap).len() == if s.len() <= cap { s.len() } else { cap },
{
    if cap == 0 {
        assert(window(window(s, cap).push(e), cap) =~= Seq::<T>::empty());
        assert(window(s.push(e), cap) =~= Seq::<T>::empty());
    } else if s.len() > cap {
        assert(window(s, cap).push(e) =~= s.skip(s.len() - cap).push(e));
        assert(window(window(s, cap).push(e), cap) =~= window(s.push(e), cap));
    } else if s.len() == cap {
        assert(window(window(s, cap).push(e), cap) =~= window(s.push(e), cap));
    }
}

} // verus!
