//! A free list of block addresses kept in a fixed array, so that it needs
//! no memory of its own beyond the array.

use vstd::prelude::*;

verus! {

/// The most blocks one free list can hold: the number of pages in the heap.
pub const FREE_LIST_CAPACITY: usize = 1024;

/// A list of block addresses; the head is at index 0.
pub struct FreeList {
    slots: [u64; FREE_LIST_CAPACITY],
    len: usize,
}

impl View for FreeList {
    type V = Seq<u64>;

    closed spec fn view(&self) -> Seq<u64> {
        self.slots@.subrange(0, self.len as int)
    }
}

impl FreeList {
    /// The list's length is within the array.
    pub closed spec fn valid(&self) -> bool {
        self.len <= FREE_LIST_CAPACITY
    }

    /// A valid list holds at most `FREE_LIST_CAPACITY` addresses.
    pub proof fn lemma_valid_len(&self)
        requires
            self.valid(),
        ensures
            self@.len() <= FREE_LIST_CAPACITY,
    {
    }

    /// An empty list.
    pub fn new() -> (r: Self)
        ensures
            r.valid(),
            r@ == Seq::<u64>::empty(),
    {
        let r = FreeList { slots: [0u64; FREE_LIST_CAPACITY], len: 0 };
        assert(r@ =~= Seq::<u64>::empty());
        r
    }

    /// Number of addresses in the list.
    pub fn len(&self) -> (n: usize)
        requires
            self.valid(),
        ensures
            n == self@.len(),
    {
        self.len
    }

    /// The address at position `i`.
    pub fn get(&self, i: usize) -> (a: u64)
        requires
            self.valid(),
            i < self@.len(),
        ensures
            a == self@[i as int],
    {
        self.slots[i]
    }

    /// Puts `x` at the head of the list.
    pub fn push_front(&mut self, x: u64)
        requires
            old(self).valid(),
            old(self)@.len() < FREE_LIST_CAPACITY,
        ensures
            final(self).valid(),
            final(self)@ == old(self)@.insert(0, x),
    {
        let ghost s0 = self@;
        let n = self.len;
        let mut j = n;
        while j > 0
            invariant
                n == self.len,
                n < FREE_LIST_CAPACITY,
                s0 == old(self)@,
                s0.len() == n,
                0 <= j <= n,
                forall|t: int| 0 <= t < j ==> #[trigger] self.slots@[t] == s0[t],
                forall|t: int| j < t <= n ==> #[trigger] self.slots@[t] == s0[t - 1],
            decreases j,
        {
            let v = self.slots[j - 1];
            self.slots[j] = v;
            j = j - 1;
        }
        self.slots[0] = x;
        self.len = n + 1;
        assert(self@ =~= s0.insert(0, x));
    }

    /// Takes the address at position `i` off the list and returns it.
    pub fn remove(&mut self, i: usize) -> (a: u64)
        requires
            old(self).valid(),
            i < old(self)@.len(),
        ensures
            final(self).valid(),
            a == old(self)@[i as int],
            final(self)@ == old(self)@.remove(i as int),
    {
        let ghost s0 = self@;
        let n = self.len;
        let a = self.slots[i];
        let mut j = i;
        while j + 1 < n
            invariant
                n == self.len,
                n <= FREE_LIST_CAPACITY,
                s0 == old(self)@,
                s0.len() == n,
                i <= j < n,
                forall|t: int| 0 <= t < i ==> #[trigger] self.slots@[t] == s0[t],
                forall|t: int| i <= t < j ==> #[trigger] self.slots@[t] == s0[t + 1],
                forall|t: int| j < t < n ==> #[trigger] self.slots@[t] == s0[t],
            decreases n - j,
        {
            let v = self.slots[j + 1];
            self.slots[j] = v;
            j = j + 1;
        }
        self.len = n - 1;
        assert(self@ =~= s0.remove(i as int));
        a
    }
}

} // verus!
