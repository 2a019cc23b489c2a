//! Buddy allocator over a heap of `2^(MAX_ORDER - 1)` pages.
//!
//! Memory is handed out in blocks of `2^order` pages. Each order keeps a
//! free list whose head is the element at index 0. Allocation takes the head
//! of the smallest non-empty list at or above the requested order and splits
//! it down, pushing each upper half ("buddy") onto the list of its order.
//! Deallocation looks for the buddy of the freed block (the other half of the
//! enclosing block of the next order); while the buddy is free the two merge
//! into a block of the next order.

use vstd::prelude::*;
use vstd::arithmetic::power2::{pow2, lemma_pow2_unfold, lemma_pow2_adds, lemma_pow2_strictly_increases, lemma2_to64};
use vstd::bits::{lemma_u64_shl_is_mul, lemma_u64_pow2_no_overflow};
use crate::boot_info::BootInfo;
use crate::free_list::{FreeList, FREE_LIST_CAPACITY};

verus! {

/// Number of orders managed by the allocator (`0 ..= MAX_ORDER - 1`).
pub const MAX_ORDER: usize = 11;

/// Size in bytes of one page.
pub const PAGE_SIZE: usize = 4096;

/// Size in bytes of a block of the given order: `2^order` pages.
pub open spec fn block_bytes(order: nat) -> nat {
    pow2(order) * 4096
}

/// Size in bytes of the whole heap: one block of the highest order.
pub open spec fn heap_bytes() -> nat {
    block_bytes((MAX_ORDER - 1) as nat)
}

/// Block sizes double from one order to the next.
pub proof fn lemma_block_bytes_double(order: nat)
    ensures
        block_bytes(order + 1) == 2 * block_bytes(order),
{
    lemma_pow2_unfold(order + 1);
}

/// Block sizes grow with the order.
pub proof fn lemma_block_bytes_le(j: nat, c: nat)
    requires
        j <= c,
    ensures
        block_bytes(j) <= block_bytes(c),
        block_bytes(j) > 0,
{
    vstd::arithmetic::power2::lemma_pow2_pos(j);
    if j < c {
        lemma_pow2_strictly_increases(j, c);
    }
}

/// The size of a smaller block divides the size of a larger one.
pub proof fn lemma_block_bytes_divides(j: nat, c: nat)
    requires
        j <= c,
    ensures
        block_bytes(c) % block_bytes(j) == 0,
        block_bytes(c) == pow2((c - j) as nat) * block_bytes(j),
{
    lemma_pow2_adds(j, (c - j) as nat);
    vstd::arithmetic::power2::lemma_pow2_pos(j);
    let p = pow2((c - j) as nat) as int;
    let q = pow2(j) as int;
    assert(pow2(c) == p * q);
    assert(block_bytes(c) == p * (q * 4096)) by (nonlinear_arith)
        requires
            block_bytes(c) == pow2(c) * 4096,
            pow2(c) == p * q,
    ;
    vstd::arithmetic::div_mod::lemma_mod_multiples_basic(p, (q * 4096) as int);
}

/// The heap size in bytes.
pub proof fn lemma_heap_bytes()
    ensures
        heap_bytes() == 0x40_0000,
        block_bytes(0) == 0x1000,
{
    lemma2_to64();
}

/// Size in bytes of a block of the given order.
fn order_block_bytes(order: usize) -> (r: u64)
    requires
        order < MAX_ORDER,
    ensures
        r == block_bytes(order as nat),
        r <= heap_bytes(),
{
    proof {
        lemma_u64_pow2_no_overflow(order as nat);
        lemma_u64_shl_is_mul(1, order as u64);
        lemma_block_bytes_le(order as nat, (MAX_ORDER - 1) as nat);
        lemma_heap_bytes();
    }
    (1u64 << (order as u64)) * (PAGE_SIZE as u64)
}

/// A node of a singly linked free list: the address of the next free block
/// of the same order, if any.
pub struct FreeNode {
    /// Address of the next free block in the list.
    pub next: Option<u64>,
}

/// The buddy allocator: one free list per order, and the base of the heap.
pub struct BuddyAllocator {
    free_lists: [FreeList; MAX_ORDER],
    base_addr: u64,
}

/// Every free block of `lists` ends inside the 64-bit address space.
pub open spec fn lists_fit(lists: Seq<Seq<u64>>) -> bool {
    forall|k: int, i: int|
        0 <= k < lists.len() && 0 <= i < lists[k].len() ==> #[trigger] lists[k][i] + block_bytes(
            k as nat,
        ) <= u64::MAX
}

/// `c` is the order an allocation of `order` is served from: the smallest
/// order at or above `order` whose free list is not empty.
pub open spec fn is_source(lists: Seq<Seq<u64>>, order: int, c: int) -> bool {
    &&& order <= c < lists.len()
    &&& lists[c].len() > 0
    &&& forall|k: int| order <= k < c ==> #[trigger] lists[k].len() == 0
}

/// The free lists after serving an allocation of `order` from order `c` with
/// the head `block` of list `c`: list `c` loses its head, and each order `k`
/// in `order .. c` gains, at its head, the upper half `block + block_bytes(k)`
/// split off on the way down.
pub open spec fn split_lists(lists: Seq<Seq<u64>>, order: int, c: int, block: u64) -> Seq<
    Seq<u64>,
> {
    Seq::new(
        lists.len(),
        |k: int|
            if k == c {
                lists[c].drop_first()
            } else if order <= k < c {
                lists[k].insert(0, (block + block_bytes(k as nat)) as u64)
            } else {
                lists[k]
            },
    )
}

/// An allocation is served exactly when some list at or above the requested
/// order is non-empty, and then from the smallest such order.
pub proof fn lemma_is_source_exact(lists: Seq<Seq<u64>>, order: int)
    requires
        0 <= order,
    ensures
        forall|c: int|
            is_source(lists, order, c) <==> (order <= c < lists.len() && lists[c].len() > 0
                && forall|k: int| order <= k < c ==> #[trigger] lists[k].len() == 0),
        (exists|c: int| is_source(lists, order, c)) <==> (exists|k: int|
            order <= k < lists.len() && #[trigger] lists[k].len() > 0),
{
    if exists|k: int| order <= k < lists.len() && #[trigger] lists[k].len() > 0 {
        let k = choose|k: int| order <= k < lists.len() && #[trigger] lists[k].len() > 0;
        lemma_smallest_nonempty(lists, order, k);
    }
}

/// Below a non-empty list at or above `order` there is a smallest one.
proof fn lemma_smallest_nonempty(lists: Seq<Seq<u64>>, order: int, k: int)
    requires
        0 <= order <= k < lists.len(),
        lists[k].len() > 0,
    ensures
        exists|c: int| is_source(lists, order, c),
    decreases k - order,
{
    if exists|j: int| order <= j < k && #[trigger] lists[j].len() > 0 {
        let j = choose|j: int| order <= j < k && #[trigger] lists[j].len() > 0;
        lemma_smallest_nonempty(lists, order, j);
    } else {
        assert(is_source(lists, order, k));
    }
}

/// Index of the first occurrence of `x` in `s`.
pub open spec fn first_index(s: Seq<u64>, x: u64) -> int {
    choose|i: int| 0 <= i < s.len() && s[i] == x && forall|j: int| 0 <= j < i ==> s[j] != x
}

/// `s` without the first occurrence of `x` (unchanged if `x` does not occur).
pub open spec fn remove_first(s: Seq<u64>, x: u64) -> Seq<u64> {
    if s.contains(x) {
        s.remove(first_index(s, x))
    } else {
        s
    }
}

/// The buddy of the block at `addr` of the given order: the other half of
/// the block of the next order that contains it.
pub open spec fn buddy_of(base: int, addr: int, order: nat) -> int {
    if ((addr - base) / (block_bytes(order) as int)) % 2 == 0 {
        addr + block_bytes(order)
    } else {
        addr - block_bytes(order)
    }
}

/// The free lists after freeing the block at `addr` of the given order:
/// while the buddy is free (and the order is below the top one) it is taken
/// off its list and the two merge into the block of the next order that
/// starts at the lower of the two addresses; the final block is pushed at
/// the head of its list.
pub open spec fn merge_lists(lists: Seq<Seq<u64>>, base: int, addr: int, order: nat) -> Seq<
    Seq<u64>,
>
    decreases MAX_ORDER - order,
{
    let b = buddy_of(base, addr, order);
    if order + 1 < MAX_ORDER && lists[order as int].contains(b as u64) {
        merge_lists(
            lists.update(order as int, remove_first(lists[order as int], b as u64)),
            base,
            if addr < b {
                addr
            } else {
                b
            },
            order + 1,
        )
    } else {
        lists.update(order as int, lists[order as int].insert(0, addr as u64))
    }
}

/// A block of the given order at `addr` lies inside the heap that starts at
/// `base`, aligned to its own size relative to `base`.
pub open spec fn aligned_in_heap(base: int, addr: int, order: nat) -> bool {
    &&& base <= addr
    &&& (addr - base) % (block_bytes(order) as int) == 0
    &&& addr - base + block_bytes(order) <= heap_bytes()
}

impl BuddyAllocator {
    /// The free lists, one per order; the head of each list is at index 0.
    pub closed spec fn lists(&self) -> Seq<Seq<u64>> {
        Seq::new(MAX_ORDER as nat, |k: int| self.free_lists[k]@)
    }

    /// The base address of the heap.
    pub closed spec fn base(&self) -> u64 {
        self.base_addr
    }

    /// Every free list lies within its array.
    pub closed spec fn lists_valid(&self) -> bool {
        forall|k: int| 0 <= k < MAX_ORDER ==> #[trigger] self.free_lists[k].valid()
    }

    /// There is one free list per order.
    pub proof fn lemma_lists_len(&self)
        ensures
            self.lists().len() == MAX_ORDER,
    {
    }

    /// The standing invariant: one list per order, no free block and no part
    /// of the heap reaches past the end of the address space.
    pub open spec fn inv(&self) -> bool {
        &&& self.lists().len() == MAX_ORDER
        &&& self.lists_valid()
        &&& lists_fit(self.lists())
        &&& self.base() + heap_bytes() <= u64::MAX
    }

    /// The full invariant: on top of `inv`, every free block lies inside the
    /// heap aligned to its size, no two free blocks overlap, and no free block
    /// has its buddy free at the same order.
    pub open spec fn wf(&self) -> bool {
        &&& self.inv()
        &&& entries_placed(self.lists(), self.base() as int)
        &&& entries_disjoint(self.lists())
        &&& no_free_buddies(self.lists(), self.base() as int)
    }

    /// The addresses of all free bytes.
    pub open spec fn free_bytes(&self) -> Set<int> {
        free_bytes_of(self.lists())
    }

    /// The amount of free memory in bytes, counted over the free lists.
    pub open spec fn free_amount(&self) -> int {
        free_total(self.lists())
    }

    /// Creates an allocator with no free memory and base address 0.
    pub fn new() -> (r: Self)
        ensures
            r.base() == 0,
            r.lists() == Seq::new(MAX_ORDER as nat, |k: int| Seq::<u64>::empty()),
            r.wf(),
            r.free_bytes() == Set::<int>::empty(),
    {
        proof {
            lemma_heap_bytes();
        }
        let r = BuddyAllocator {
            free_lists: [
                FreeList::new(),
                FreeList::new(),
                FreeList::new(),
                FreeList::new(),
                FreeList::new(),
                FreeList::new(),
                FreeList::new(),
                FreeList::new(),
                FreeList::new(),
                FreeList::new(),
                FreeList::new(),
            ],
            base_addr: 0,
        };
        assert(r.lists() =~= Seq::new(MAX_ORDER as nat, |k: int| Seq::<u64>::empty()));
        assert(r.free_bytes() =~= Set::<int>::empty());
        r
    }

    /// Sets the heap base to the heap start of `boot_info`, which must name a
    /// region of RAM, and makes the whole
    /// heap, one block of the highest order, the only entry of the
    /// highest-order free list. The other lists are left as they are.
    pub fn init(&mut self, boot_info: &BootInfo)
        requires
            boot_info.fr.heap_start is Some,
        ensures
            final(self).base() == boot_info.fr.heap_start->0,
            final(self).lists() == old(self).lists().update(
                MAX_ORDER - 1,
                seq![boot_info.fr.heap_start->0],
            ),
            old(self).inv() && boot_info.fr.heap_start->0 + heap_bytes() <= u64::MAX
                ==> final(self).inv(),
            old(self).inv() && boot_info.fr.heap_start->0 + heap_bytes() <= u64::MAX && (forall|k: int|
                0 <= k < MAX_ORDER - 1 ==> #[trigger] old(self).lists()[k].len() == 0) ==> final(
                self).wf() && final(self).free_bytes() == block_range(
                boot_info.fr.heap_start->0 as int,
                (MAX_ORDER - 1) as nat,
            ),
    {
        self.base_addr = boot_info.fr.heap_start.unwrap();
        let node = self.base_addr;
        let mut list = FreeList::new();
        list.push_front(node);
        assert(list@ =~= seq![node]);
        self.free_lists[MAX_ORDER - 1] = list;
        proof {
            assert(self.lists() =~= old(self).lists().update(
                MAX_ORDER - 1,
                seq![boot_info.fr.heap_start->0],
            ));
            let l = self.lists();
            if old(self).inv() && boot_info.fr.heap_start->0 + heap_bytes() <= u64::MAX && (forall|k: int|
                0 <= k < MAX_ORDER - 1 ==> #[trigger] old(self).lists()[k].len() == 0) {
                assert forall|k: int, i: int| valid_entry(l, k, i) implies k == MAX_ORDER - 1 && i == 0 by {
                    if k < MAX_ORDER - 1 {
                        assert(old(self).lists()[k].len() == 0);
                    }
                }
                lemma_block_bytes_le(0, (MAX_ORDER - 1) as nat);
                assert(l[MAX_ORDER - 1][0] == self.base());
                assert(0int % (heap_bytes() as int) == 0);
                assert(aligned_in_heap(self.base() as int, self.base() as int, (MAX_ORDER - 1) as nat));
                assert forall|k: int, i: int| valid_entry(l, k, i) implies aligned_in_heap(
                    self.base() as int, #[trigger] l[k][i] as int, k as nat) by {}
                assert(entries_placed(l, self.base() as int));
                let r = block_range(boot_info.fr.heap_start->0 as int, (MAX_ORDER - 1) as nat);
                assert forall|y: int| self.free_bytes().contains(y) == r.contains(y) by {
                    if r.contains(y) {
                        assert(entry_covers(l, MAX_ORDER - 1, 0, y));
                    }
                }
                assert(self.free_bytes() =~= r);
            }
        }
    }

    /// Takes the first occurrence of `target` off the free list of `order`;
    /// tells whether it was there.
    fn remove_from_freelist(&mut self, order: usize, target: u64) -> (found: bool)
        requires
            order < MAX_ORDER,
            old(self).lists_valid(),
        ensures
            final(self).lists_valid(),
            found == old(self).lists()[order as int].contains(target),
            final(self).lists() == old(self).lists().update(
                order as int,
                remove_first(old(self).lists()[order as int], target),
            ),
            final(self).base() == old(self).base(),
    {
        let ghost l0 = self.lists();
        let mut i: usize = 0;
        while i < self.free_lists[order].len()
            invariant
                order < MAX_ORDER,
                self.lists() == l0,
                self.base() == old(self).base(),
                l0 == old(self).lists(),
                self.lists_valid(),
                0 <= i <= l0[order as int].len(),
                forall|j: int| 0 <= j < i ==> l0[order as int][j] != target,
            decreases l0[order as int].len() - i,
        {
            if self.free_lists[order].get(i) == target {
                self.free_lists[order].remove(i);
                proof {
                    let s = l0[order as int];
                    assert(s[i as int] == target);
                    assert(s.contains(target));
                    let fi = first_index(s, target);
                    assert(0 <= fi < s.len() && s[fi] == target && forall|j: int|
                        0 <= j < fi ==> s[j] != target);
                    if fi < i {
                        assert(s[fi] != target);
                    }
                    if fi > i {
                        assert(s[i as int] != target);
                    }
                    assert(fi == i);
                    assert(self.lists() =~= l0.update(order as int, remove_first(s, target)));
                }
                return true;
            }
            i = i + 1;
        }
        proof {
            let s = l0[order as int];
            assert(!s.contains(target));
            assert(self.lists() =~= l0.update(order as int, remove_first(s, target)));
        }
        false
    }

    /// Allocates a block of `2^order` pages and returns its address, or
    /// `None` when `order` is not below `MAX_ORDER` or no free block of that
    /// order or above is left.
    pub fn allocate(&mut self, order: usize) -> (r: Option<u64>)
        requires
            old(self).inv(),
        ensures
            final(self).inv(),
            final(self).base() == old(self).base(),
            r is Some <==> exists|c: int| is_source(old(self).lists(), order as int, c),
            r is Some <==> (order < MAX_ORDER && exists|k: int|
                order <= k < MAX_ORDER && #[trigger] old(self).lists()[k].len() > 0),
            r matches Some(a) ==> exists|c: int|
                order <= c < MAX_ORDER && #[trigger] old(self).lists()[c].len() > 0 && (forall|k: int|
                    order <= k < c ==> old(self).lists()[k].len() == 0) && a == old(self).lists()[c][0],
            r is None ==> final(self).lists() == old(self).lists(),
            r matches Some(a) ==> exists|c: int|
                #![trigger is_source(old(self).lists(), order as int, c)]
                is_source(old(self).lists(), order as int, c) && a == old(self).lists()[c][0]
                    && final(self).lists() == split_lists(old(self).lists(), order as int, c, a),
            r is Some ==> final(self).free_amount() == old(self).free_amount() - block_bytes(
                order as nat,
            ),
            old(self).wf() ==> final(self).wf(),
            old(self).wf() ==> (r matches Some(a) ==> {
                &&& aligned_in_heap(old(self).base() as int, a as int, order as nat)
                &&& block_range(a as int, order as nat).subset_of(old(self).free_bytes())
                &&& final(self).free_bytes() == old(self).free_bytes().difference(
                    block_range(a as int, order as nat),
                )
            }),
    {
        let ghost l0 = self.lists();
        proof {
            lemma_is_source_exact(l0, order as int);
        }
        if order >= MAX_ORDER {
            return None;
        }
        let mut current_order = order;
        while current_order < MAX_ORDER
            invariant
                order <= current_order <= MAX_ORDER,
                self.lists() == l0,
                l0 == old(self).lists(),
                self.base() == old(self).base(),
                old(self).inv(),
                self.lists_valid(),
                forall|k: int| order <= k < current_order ==> #[trigger] l0[k].len() == 0,
            decreases MAX_ORDER - current_order,
        {
            if self.free_lists[current_order].len() > 0 {
                let c = current_order;
                let ghost lists_before = self.free_lists;
                let block = self.free_lists[c].remove(0);
                proof {
                    assert forall|k: int| 0 <= k < MAX_ORDER implies #[trigger] self.free_lists[k].valid() by {
                        assert(k != c ==> self.free_lists[k] == lists_before[k]);
                    }
                }
                let mut size = order_block_bytes(c);
                let mut j = c;
                proof {
                    assert(is_source(l0, order as int, c as int));
                    assert(block == l0[c as int][0]);
                    assert(l0[c as int][0] + block_bytes(c as nat) <= u64::MAX);
                    assert(self.lists() =~= split_lists(l0, c as int, c as int, block));
                }
                while j > order
                    invariant
                        order <= j <= c < MAX_ORDER,
                        size == block_bytes(j as nat),
                        block + block_bytes(c as nat) <= u64::MAX,
                        self.lists() == split_lists(l0, j as int, c as int, block),
                        self.base() == old(self).base(),
                        l0.len() == MAX_ORDER,
                        self.lists_valid(),
                        is_source(l0, order as int, c as int),
                    decreases j,
                {
                    j = j - 1;
                    proof {
                        lemma_block_bytes_double(j as nat);
                        lemma_block_bytes_le((j + 1) as nat, c as nat);
                    }
                    size = size / 2;
                    let buddy = block + size;
                    let ghost before = self.lists();
                    let ghost before_lists = self.free_lists;
                    assert(self.lists()[j as int] == l0[j as int]);
                    self.free_lists[j].push_front(buddy);
                    proof {
                        assert(buddy == block + block_bytes(j as nat));
                        assert(before[j as int] == l0[j as int]);
                        assert(self.lists()[j as int] == l0[j as int].insert(0, buddy));
                        assert forall|k: int| 0 <= k < MAX_ORDER implies #[trigger] self.free_lists[k].valid() by {
                            assert(k != j ==> self.free_lists[k] == before_lists[k]);
                        }
                        assert forall|k: int| 0 <= k < MAX_ORDER implies self.lists()[k]
                            == split_lists(l0, j as int, c as int, block)[k] by {
                            if k != j {
                                assert(self.lists()[k] == before[k]);
                                assert(before[k] == split_lists(l0, j + 1, c as int, block)[k]);
                            }
                        }
                        assert(self.lists() =~= split_lists(l0, j as int, c as int, block));
                    }
                }
                proof {
                    lemma_split_fit(l0, order as int, c as int, block);
                    lemma_split_total(l0, order as int, c as int, block);
                    if old(self).wf() {
                        lemma_split_laws(l0, self.base() as int, order as int, c as int, block);
                        lemma_split_no_buddies(l0, self.base() as int, order as int, c as int, block);
                    }
                }
                return Some(block);
            }
            current_order = current_order + 1;
        }
        proof {
            assert forall|c: int| !is_source(l0, order as int, c) by {
                if is_source(l0, order as int, c) {
                    assert(l0[c].len() == 0);
                }
            }
        }
        None
    }

    /// Frees the block of `2^order` pages at `ptr` and merges it with its
    /// buddy, order by order, for as long as the buddy is free.
    ///
    /// The block must be one this allocator handed out with this order and
    /// that is not free yet: it lies inside the heap, aligned to its size, and
    /// shares no byte with free memory.
    pub fn dealloc(&mut self, ptr: u64, order: usize)
        requires
            old(self).wf(),
            order < MAX_ORDER,
            aligned_in_heap(old(self).base() as int, ptr as int, order as nat),
            block_range(ptr as int, order as nat).disjoint(old(self).free_bytes()),
        ensures
            final(self).wf(),
            final(self).inv(),
            final(self).base() == old(self).base(),
            final(self).lists() == merge_lists(
                old(self).lists(),
                old(self).base() as int,
                ptr as int,
                order as nat,
            ),
            final(self).free_bytes() == old(self).free_bytes().union(
                block_range(ptr as int, order as nat),
            ),
            final(self).free_amount() == old(self).free_amount() + block_bytes(order as nat),
    {
        let ghost l0 = self.lists();
        proof {
            lemma_merge_laws(l0, self.base() as int, ptr as int, order as nat);
            lemma_merge_total(l0, self.base() as int, ptr as int, order as nat);
            lemma_apart_of_disjoint(l0, ptr as int, order as nat);
            lemma_merge_no_buddies(l0, self.base() as int, ptr as int, order as nat);
        }
        let base = self.base_addr;
        let mut current_addr = ptr;
        let mut cur_order = order;
        while cur_order < MAX_ORDER - 1
            invariant
                cur_order < MAX_ORDER,
                self.base() == base,
                base + heap_bytes() <= u64::MAX,
                self.lists().len() == MAX_ORDER,
                lists_fit(self.lists()),
                self.lists_valid(),
                entries_placed(self.lists(), base as int),
                entries_disjoint(self.lists()),
                entries_apart(self.lists(), current_addr as int, current_addr + block_bytes(cur_order as nat)),
                aligned_in_heap(base as int, current_addr as int, cur_order as nat),
                merge_lists(self.lists(), base as int, current_addr as int, cur_order as nat)
                    == merge_lists(l0, base as int, ptr as int, order as nat),
            ensures
                cur_order < MAX_ORDER,
                self.base() == base,
                self.lists().len() == MAX_ORDER,
                lists_fit(self.lists()),
                self.lists_valid(),
                entries_placed(self.lists(), base as int),
                entries_disjoint(self.lists()),
                entries_apart(self.lists(), current_addr as int, current_addr + block_bytes(cur_order as nat)),
                aligned_in_heap(base as int, current_addr as int, cur_order as nat),
                merge_lists(self.lists(), base as int, current_addr as int, cur_order as nat)
                    == merge_lists(l0, base as int, ptr as int, order as nat),
                cur_order + 1 == MAX_ORDER || !self.lists()[cur_order as int].contains(
                    buddy_of(base as int, current_addr as int, cur_order as nat) as u64,
                ),
            decreases MAX_ORDER - cur_order,
        {
            let block_offset = current_addr - base;
            let size = order_block_bytes(cur_order);
            let buddy_offset = block_offset ^ size;
            proof {
                lemma_heap_bytes();
                lemma_u64_pow2_no_overflow((cur_order + 12) as nat);
                lemma_u64_shl_is_mul(1, (cur_order + 12) as u64);
                lemma_pow2_adds(cur_order as nat, 12);
                lemma2_to64();
                lemma_xor_buddy(block_offset, size, (cur_order + 12) as u64);
                lemma_buddy_halves(base as int, current_addr as int, cur_order as nat);
            }
            let buddy_addr = base + buddy_offset;
            proof {
                assert(buddy_addr == buddy_of(base as int, current_addr as int, cur_order as nat));
            }
            let ghost before = self.lists();
            if self.remove_from_freelist(cur_order, buddy_addr) {
                proof {
                    lemma_remove_fit(before, cur_order as int, buddy_addr);
                    let s = block_bytes(cur_order as nat) as int;
                    lemma_remove_wf(before, base as int, cur_order as int, buddy_addr,
                        current_addr as int, current_addr + s);
                    lemma_block_bytes_double(cur_order as nat);
                    let l2 = self.lists();
                    if current_addr < buddy_addr {
                        lemma_apart_join(l2, current_addr as int, buddy_addr as int, buddy_addr + s);
                    } else {
                        lemma_apart_join(l2, buddy_addr as int, current_addr as int, current_addr + s);
                    }
                }
                current_addr = if current_addr < buddy_addr {
                    current_addr
                } else {
                    buddy_addr
                };
                cur_order = cur_order + 1;
            } else {
                break;
            }
        }
        let ghost before = self.lists();
        let ghost before_lists = self.free_lists;
        proof {
            lemma_list_room(before, base as int, cur_order as int, current_addr);
        }
        self.free_lists[cur_order].push_front(current_addr);
        proof {
            assert forall|k: int| 0 <= k < MAX_ORDER implies #[trigger] self.free_lists[k].valid() by {
                assert(k != cur_order ==> self.free_lists[k] == before_lists[k]);
            }
            assert(self.lists() =~= before.update(
                cur_order as int,
                before[cur_order as int].insert(0, current_addr),
            ));
            lemma_block_bytes_le(cur_order as nat, (MAX_ORDER - 1) as nat);
            lemma_insert_fit(before, cur_order as int, current_addr);
        }
    }
}


/// A list of an order has room for one more block that lies in the heap and
/// overlaps no free block: the free blocks of one order and that block start
/// at distinct pages of the heap, of which there are `FREE_LIST_CAPACITY`.
pub proof fn lemma_list_room(lists: Seq<Seq<u64>>, base: int, k: int, a: u64)
    requires
        lists.len() == MAX_ORDER,
        0 <= k < lists.len(),
        entries_placed(lists, base),
        entries_disjoint(lists),
        aligned_in_heap(base, a as int, k as nat),
        entries_apart(lists, a as int, a + block_bytes(k as nat)),
    ensures
        lists[k].len() < FREE_LIST_CAPACITY,
{
    let l = lists[k].push(a);
    let pages = Seq::new(l.len(), |i: int| (l[i] - base) / 4096);
    lemma_heap_bytes();
    lemma_block_bytes_le(k as nat, k as nat);
    assert forall|i: int| 0 <= i < l.len() implies (l[i] - base) % 4096 == 0 && 0 <= #[trigger] pages[i] < 1024 by {
        assert(aligned_in_heap(base, l[i] as int, k as nat)) by {
            if i < lists[k].len() {
                assert(l[i] == lists[k][i]);
            }
        }
        lemma_aligned_lower(base, l[i] as int, 0, k as nat);
        lemma_block_bytes_le(0, k as nat);
        lemma_block_bytes_le(k as nat, (MAX_ORDER - 1) as nat);
    }
    assert(pages.no_duplicates()) by {
        assert forall|i: int, j: int| 0 <= i < pages.len() && 0 <= j < pages.len() && i != j implies pages[i] != pages[j] by {
            assert(l[i] != l[j]) by {
                if i < lists[k].len() && j < lists[k].len() {
                    assert(l[i] == lists[k][i] && l[j] == lists[k][j]);
                    assert(blocks_apart(lists[k][i] as int, k as nat, lists[k][j] as int, k as nat));
                } else if i < lists[k].len() {
                    assert(l[i] == lists[k][i]);
                    assert(lists[k][i] + block_bytes(k as nat) <= a || a + block_bytes(k as nat) <= lists[k][i]);
                } else {
                    assert(l[j] == lists[k][j]);
                    assert(lists[k][j] + block_bytes(k as nat) <= a || a + block_bytes(k as nat) <= lists[k][j]);
                }
            }
            assert(0 <= pages[i] < 1024 && 0 <= pages[j] < 1024);
            assert((l[i] - base) % 4096 == 0 && (l[j] - base) % 4096 == 0);
            vstd::arithmetic::div_mod::lemma_fundamental_div_mod(l[i] - base, 4096);
            vstd::arithmetic::div_mod::lemma_fundamental_div_mod(l[j] - base, 4096);
        }
    }
    pages.unique_seq_to_set();
    vstd::set_lib::lemma_int_range(0, 1024);
    assert(pages.to_set().subset_of(vstd::set_lib::set_int_range(0, 1024)));
    vstd::set_lib::lemma_len_subset(pages.to_set(), vstd::set_lib::set_int_range(0, 1024));
}

/// For an offset aligned to a power of two `s`, flipping the bit of `s`
/// moves to the other half of the enclosing block of size `2 * s`.
proof fn lemma_xor_buddy(x: u64, s: u64, e: u64)
    by (bit_vector)
    requires
        e < 32,
        s == 1u64 << e,
        x % s == 0,
        x < 0x1_0000_0000u64,
    ensures
        (x / s) % 2 == 0 ==> (x ^ s) == x + s,
        (x / s) % 2 != 0 ==> (x ^ s) == x - s,
{
}


/// A block and its buddy are the two halves of the block of the next order
/// that starts at the lower of the two addresses.
pub proof fn lemma_buddy_halves(base: int, a: int, k: nat)
    requires
        aligned_in_heap(base, a, k),
        k + 1 < MAX_ORDER,
    ensures
        ({
            let b = buddy_of(base, a, k);
            let m = if a < b { a } else { b };
            &&& aligned_in_heap(base, b, k)
            &&& aligned_in_heap(base, m, k + 1)
            &&& (m == a && b == a + block_bytes(k)) || (m == b && a == b + block_bytes(k))
        }),
{
    let s = block_bytes(k) as int;
    let off = a - base;
    lemma_block_bytes_le(k, k);
    lemma_block_bytes_double(k);
    lemma_block_bytes_divides(k + 1, (MAX_ORDER - 1) as nat);
    let h = pow2(((MAX_ORDER - 1) - (k + 1)) as nat) as int;
    assert(heap_bytes() == h * (2 * s));
    let q = off / s;
    vstd::arithmetic::div_mod::lemma_fundamental_div_mod(off, s);
    assert(off == s * q);
    assert(q >= 0) by (nonlinear_arith)
        requires off >= 0, s > 0, q == off / s;
    let r = q / 2;
    if q % 2 == 0 {
        assert(off == r * (2 * s)) by (nonlinear_arith)
            requires off == s * q, q == 2 * r;
        vstd::arithmetic::div_mod::lemma_mod_multiples_basic(r, 2 * s);
        assert(off + 2 * s <= heap_bytes()) by (nonlinear_arith)
            requires off == r * (2 * s), heap_bytes() == h * (2 * s), off + s <= heap_bytes(), s > 0, r >= 0;
        assert(off + s == (2 * r + 1) * s) by (nonlinear_arith)
            requires off == r * (2 * s);
        vstd::arithmetic::div_mod::lemma_mod_multiples_basic(2 * r + 1, s);
    } else {
        assert(q == 2 * r + 1);
        assert(off - s == r * (2 * s)) by (nonlinear_arith)
            requires off == s * q, q == 2 * r + 1;
        assert(off - s == r * s * 2) by (nonlinear_arith)
            requires off - s == r * (2 * s);
        vstd::arithmetic::div_mod::lemma_mod_multiples_basic(r, 2 * s);
        vstd::arithmetic::div_mod::lemma_mod_multiples_basic(2 * r, s);
        assert(off - s == (2 * r) * s) by (nonlinear_arith)
            requires off - s == r * (2 * s);
        assert(off - s >= 0) by (nonlinear_arith)
            requires off - s == r * (2 * s), r >= 0, s > 0;
    }
}



/// `first_index` picks the first occurrence of an element that occurs.
pub proof fn lemma_first_index(s: Seq<u64>, x: u64)
    requires
        s.contains(x),
    ensures
        0 <= first_index(s, x) < s.len(),
        s[first_index(s, x)] == x,
        forall|j: int| 0 <= j < first_index(s, x) ==> s[j] != x,
{
    let i = choose|i: int| 0 <= i < s.len() && s[i] == x;
    lemma_earliest_occurrence(s, x, i);
}

proof fn lemma_earliest_occurrence(s: Seq<u64>, x: u64, i: int)
    requires
        0 <= i < s.len(),
        s[i] == x,
    ensures
        exists|m: int| 0 <= m < s.len() && s[m] == x && forall|j: int| 0 <= j < m ==> s[j] != x,
    decreases i,
{
    if exists|j: int| 0 <= j < i && s[j] == x {
        let j = choose|j: int| 0 <= j < i && s[j] == x;
        lemma_earliest_occurrence(s, x, j);
    } else {
        assert(forall|j: int| 0 <= j < i ==> s[j] != x);
    }
}

/// Taking an entry off a list keeps every free block inside the address space.
pub proof fn lemma_remove_fit(lists: Seq<Seq<u64>>, k: int, x: u64)
    requires
        lists_fit(lists),
        0 <= k < lists.len(),
    ensures
        lists_fit(lists.update(k, remove_first(lists[k], x))),
{
    let l2 = lists.update(k, remove_first(lists[k], x));
    if lists[k].contains(x) {
        lemma_first_index(lists[k], x);
    }
    assert forall|k2: int, i: int| 0 <= k2 < l2.len() && 0 <= i < l2[k2].len() implies #[trigger] l2[k2][i]
        + block_bytes(k2 as nat) <= u64::MAX by {
        if k2 == k && lists[k].contains(x) {
            let fi = first_index(lists[k], x);
            if i < fi {
                assert(l2[k2][i] == lists[k][i]);
            } else {
                assert(l2[k2][i] == lists[k][i + 1]);
            }
        }
    }
}

/// Pushing a block that ends inside the address space keeps every free block
/// inside it.
pub proof fn lemma_insert_fit(lists: Seq<Seq<u64>>, k: int, a: u64)
    requires
        lists_fit(lists),
        0 <= k < lists.len(),
        a + block_bytes(k as nat) <= u64::MAX,
    ensures
        lists_fit(lists.update(k, lists[k].insert(0, a))),
{
    let l2 = lists.update(k, lists[k].insert(0, a));
    assert forall|k2: int, i: int| 0 <= k2 < l2.len() && 0 <= i < l2[k2].len() implies #[trigger] l2[k2][i]
        + block_bytes(k2 as nat) <= u64::MAX by {
        if k2 == k && i > 0 {
            assert(l2[k2][i] == lists[k][i - 1]);
        }
    }
}

/// Splitting keeps every free block inside the address space.
pub proof fn lemma_split_fit(lists: Seq<Seq<u64>>, order: int, c: int, block: u64)
    requires
        lists_fit(lists),
        is_source(lists, order, c),
        0 <= order,
        block == lists[c][0],
    ensures
        lists_fit(split_lists(lists, order, c, block)),
{
    let s = split_lists(lists, order, c, block);
    assert forall|k: int, i: int| 0 <= k < s.len() && 0 <= i < s[k].len() implies #[trigger] s[k][i]
        + block_bytes(k as nat) <= u64::MAX by {
        if k == c {
            assert(s[k][i] == lists[c][i + 1]);
        } else if order <= k < c {
            if i == 0 {
                lemma_block_bytes_double(k as nat);
                lemma_block_bytes_le((k + 1) as nat, c as nat);
                assert(lists[c][0] + block_bytes(c as nat) <= u64::MAX);
            } else {
                assert(s[k][i] == lists[k][i - 1]);
            }
        }
    }
}

// ---------------------------------------------------------------------------
// Free memory as a set of byte addresses, and the allocator's full invariant.
// ---------------------------------------------------------------------------

/// `(k, i)` is a position in the free lists.
pub open spec fn valid_entry(lists: Seq<Seq<u64>>, k: int, i: int) -> bool {
    0 <= k < lists.len() && 0 <= i < lists[k].len()
}

/// The byte `x` belongs to the free block at position `(k, i)`.
pub open spec fn entry_covers(lists: Seq<Seq<u64>>, k: int, i: int, x: int) -> bool {
    valid_entry(lists, k, i) && lists[k][i] <= x < lists[k][i] + block_bytes(k as nat)
}

/// The bytes of all free blocks.
pub open spec fn free_bytes_of(lists: Seq<Seq<u64>>) -> Set<int> {
    Set::new(|x: int| exists|k: int, i: int| #[trigger] entry_covers(lists, k, i, x))
}

/// The bytes of the block of the given order at `addr`.
pub open spec fn block_range(addr: int, order: nat) -> Set<int> {
    Set::new(|x: int| addr <= x < addr + block_bytes(order))
}

/// The blocks at `a` (of order `ka`) and `b` (of order `kb`) share no byte.
pub open spec fn blocks_apart(a: int, ka: nat, b: int, kb: nat) -> bool {
    a + block_bytes(ka) <= b || b + block_bytes(kb) <= a
}

/// No two positions of the free lists hold overlapping blocks.
pub open spec fn entries_disjoint(lists: Seq<Seq<u64>>) -> bool {
    forall|k1: int, i1: int, k2: int, i2: int|
        #![trigger lists[k1][i1], lists[k2][i2]]
        valid_entry(lists, k1, i1) && valid_entry(lists, k2, i2) && (k1 != k2 || i1 != i2)
            ==> blocks_apart(lists[k1][i1] as int, k1 as nat, lists[k2][i2] as int, k2 as nat)
}

/// Every free block lies inside the heap at `base`, aligned to its size.
pub open spec fn entries_placed(lists: Seq<Seq<u64>>, base: int) -> bool {
    forall|k: int, i: int|
        valid_entry(lists, k, i) ==> aligned_in_heap(base, #[trigger] lists[k][i] as int, k as nat)
}

/// No free block overlaps the byte range `lo .. hi`.
pub open spec fn entries_apart(lists: Seq<Seq<u64>>, lo: int, hi: int) -> bool {
    forall|k: int, i: int|
        valid_entry(lists, k, i) ==> #[trigger] lists[k][i] + block_bytes(k as nat) <= lo || hi
            <= lists[k][i]
}

/// Pushing a block at the head of list `k` adds exactly its bytes.
pub proof fn lemma_insert_free(lists: Seq<Seq<u64>>, k: int, a: u64)
    requires
        0 <= k < lists.len(),
    ensures
        free_bytes_of(lists.update(k, lists[k].insert(0, a))) == free_bytes_of(lists).union(
            block_range(a as int, k as nat),
        ),
{
    let l2 = lists.update(k, lists[k].insert(0, a));
    let r = block_range(a as int, k as nat);
    assert forall|x: int| free_bytes_of(l2).contains(x) == free_bytes_of(lists).union(r).contains(x) by {
        if free_bytes_of(l2).contains(x) {
            let (k2, i2) = choose|k2: int, i2: int| entry_covers(l2, k2, i2, x);
            if k2 == k && i2 > 0 {
                assert(entry_covers(lists, k, i2 - 1, x));
            } else if k2 != k {
                assert(entry_covers(lists, k2, i2, x));
            }
        }
        if free_bytes_of(lists).contains(x) {
            let (k2, i2) = choose|k2: int, i2: int| entry_covers(lists, k2, i2, x);
            if k2 == k {
                assert(entry_covers(l2, k, i2 + 1, x));
            } else {
                assert(entry_covers(l2, k2, i2, x));
            }
        }
        if r.contains(x) {
            assert(entry_covers(l2, k, 0, x));
        }
    }
    assert(free_bytes_of(l2) =~= free_bytes_of(lists).union(r));
}

/// Taking a block off list `k` removes at most its bytes, and exactly its
/// bytes when no two free blocks overlap.
pub proof fn lemma_remove_free(lists: Seq<Seq<u64>>, k: int, x: u64)
    requires
        0 <= k < lists.len(),
        lists[k].contains(x),
    ensures
        ({
            let l2 = lists.update(k, remove_first(lists[k], x));
            let r = block_range(x as int, k as nat);
            &&& free_bytes_of(l2).subset_of(free_bytes_of(lists))
            &&& free_bytes_of(lists).subset_of(free_bytes_of(l2).union(r))
            &&& r.subset_of(free_bytes_of(lists))
            &&& entries_disjoint(lists) ==> free_bytes_of(l2) == free_bytes_of(lists).difference(r)
        }),
{
    lemma_first_index(lists[k], x);
    let fi = first_index(lists[k], x);
    let l2 = lists.update(k, remove_first(lists[k], x));
    let r = block_range(x as int, k as nat);
    assert forall|y: int| #![trigger free_bytes_of(l2).contains(y)] free_bytes_of(l2).contains(y) implies free_bytes_of(lists).contains(y)
        && (entries_disjoint(lists) ==> !r.contains(y)) by {
        let (k2, i2) = choose|k2: int, i2: int| entry_covers(l2, k2, i2, y);
        let j2 = if k2 == k && i2 >= fi {
            i2 + 1
        } else {
            i2
        };
        assert(l2[k2][i2] == lists[k2][j2]);
        assert(entry_covers(lists, k2, j2, y));
        if entries_disjoint(lists) {
            assert(lists[k][fi] == x);
            assert(blocks_apart(lists[k2][j2] as int, k2 as nat, lists[k][fi] as int, k as nat));
        }
    }
    assert forall|y: int| #![trigger free_bytes_of(lists).contains(y)] free_bytes_of(lists).contains(y) implies free_bytes_of(l2).contains(y)
        || r.contains(y) by {
        let (k2, i2) = choose|k2: int, i2: int| entry_covers(lists, k2, i2, y);
        if k2 == k && i2 == fi {
            assert(r.contains(y));
        } else if k2 == k && i2 > fi {
            assert(entry_covers(l2, k, i2 - 1, y));
        } else {
            assert(entry_covers(l2, k2, i2, y));
        }
    }
    assert forall|y: int| r.contains(y) implies free_bytes_of(lists).contains(y) by {
        assert(entry_covers(lists, k, fi, y));
    }
    if entries_disjoint(lists) {
        assert forall|y: int| free_bytes_of(l2).contains(y) == free_bytes_of(lists).difference(r).contains(y) by {
            if free_bytes_of(lists).contains(y) && !r.contains(y) {
                assert(free_bytes_of(l2).contains(y) || r.contains(y));
                assert(free_bytes_of(l2).contains(y));
            }
            if free_bytes_of(l2).contains(y) {
                assert(free_bytes_of(lists).contains(y) && (entries_disjoint(lists) ==> !r.contains(y)));
            }
        }
        assert(free_bytes_of(l2) =~= free_bytes_of(lists).difference(r));
    }
}

/// Pushing a block that lies in the heap and overlaps no free block keeps
/// the free blocks placed and pairwise disjoint.
pub proof fn lemma_insert_wf(lists: Seq<Seq<u64>>, base: int, k: int, a: u64)
    requires
        0 <= k < lists.len(),
        entries_placed(lists, base),
        entries_disjoint(lists),
        aligned_in_heap(base, a as int, k as nat),
        entries_apart(lists, a as int, a + block_bytes(k as nat)),
    ensures
        entries_placed(lists.update(k, lists[k].insert(0, a)), base),
        entries_disjoint(lists.update(k, lists[k].insert(0, a))),
{
    let l2 = lists.update(k, lists[k].insert(0, a));
    assert forall|k1: int, i1: int| valid_entry(l2, k1, i1) implies aligned_in_heap(
        base,
        #[trigger] l2[k1][i1] as int,
        k1 as nat,
    ) by {
        if k1 == k && i1 > 0 {
            assert(l2[k1][i1] == lists[k][i1 - 1]);
        }
    }
    assert forall|k1: int, i1: int, k2: int, i2: int|
        #![trigger l2[k1][i1], l2[k2][i2]]
        valid_entry(l2, k1, i1) && valid_entry(l2, k2, i2) && (k1 != k2 || i1 != i2) implies blocks_apart(
        l2[k1][i1] as int,
        k1 as nat,
        l2[k2][i2] as int,
        k2 as nat,
    ) by {
        let j1 = if k1 == k { i1 - 1 } else { i1 };
        let j2 = if k2 == k { i2 - 1 } else { i2 };
        if k1 == k && i1 == 0 {
            assert(l2[k2][i2] == lists[k2][j2]);
            assert(valid_entry(lists, k2, j2));
        } else if k2 == k && i2 == 0 {
            assert(l2[k1][i1] == lists[k1][j1]);
            assert(valid_entry(lists, k1, j1));
        } else {
            assert(l2[k1][i1] == lists[k1][j1]);
            assert(l2[k2][i2] == lists[k2][j2]);
            assert(valid_entry(lists, k1, j1) && valid_entry(lists, k2, j2));
        }
    }
}

/// Taking a block off a list keeps the free blocks placed, disjoint and
/// apart from any range they were apart from; with disjoint blocks the rest
/// is also apart from the block taken off.
pub proof fn lemma_remove_wf(lists: Seq<Seq<u64>>, base: int, k: int, x: u64, lo: int, hi: int)
    requires
        0 <= k < lists.len(),
        lists[k].contains(x),
    ensures
        ({
            let l2 = lists.update(k, remove_first(lists[k], x));
            &&& entries_placed(lists, base) ==> entries_placed(l2, base)
            &&& entries_disjoint(lists) ==> entries_disjoint(l2)
            &&& entries_apart(lists, lo, hi) ==> entries_apart(l2, lo, hi)
            &&& entries_disjoint(lists) ==> entries_apart(l2, x as int, x + block_bytes(k as nat))
        }),
{
    lemma_first_index(lists[k], x);
    let fi = first_index(lists[k], x);
    let l2 = lists.update(k, remove_first(lists[k], x));
    assert forall|k1: int, i1: int| valid_entry(l2, k1, i1) implies ({
        let j1 = if k1 == k && i1 >= fi { i1 + 1 } else { i1 };
        &&& valid_entry(lists, k1, j1)
        &&& #[trigger] l2[k1][i1] == lists[k1][j1]
        &&& (k1 != k || j1 != fi)
    }) by {}
    if entries_placed(lists, base) {
        assert forall|k1: int, i1: int| valid_entry(l2, k1, i1) implies aligned_in_heap(
            base,
            #[trigger] l2[k1][i1] as int,
            k1 as nat,
        ) by {
            let j1 = if k1 == k && i1 >= fi { i1 + 1 } else { i1 };
            assert(l2[k1][i1] == lists[k1][j1]);
        }
    }
    if entries_disjoint(lists) {
        assert forall|k1: int, i1: int, k2: int, i2: int|
            #![trigger l2[k1][i1], l2[k2][i2]]
            valid_entry(l2, k1, i1) && valid_entry(l2, k2, i2) && (k1 != k2 || i1 != i2) implies blocks_apart(
            l2[k1][i1] as int,
            k1 as nat,
            l2[k2][i2] as int,
            k2 as nat,
        ) by {
            let j1 = if k1 == k && i1 >= fi { i1 + 1 } else { i1 };
            let j2 = if k2 == k && i2 >= fi { i2 + 1 } else { i2 };
            assert(l2[k1][i1] == lists[k1][j1]);
            assert(l2[k2][i2] == lists[k2][j2]);
        }
        assert forall|k1: int, i1: int| valid_entry(l2, k1, i1) implies #[trigger] l2[k1][i1]
            + block_bytes(k1 as nat) <= x || x + block_bytes(k as nat) <= l2[k1][i1] by {
            let j1 = if k1 == k && i1 >= fi { i1 + 1 } else { i1 };
            assert(l2[k1][i1] == lists[k1][j1]);
            assert(lists[k][fi] == x);
            assert(blocks_apart(lists[k1][j1] as int, k1 as nat, lists[k][fi] as int, k as nat));
        }
    }
    if entries_apart(lists, lo, hi) {
        assert forall|k1: int, i1: int| valid_entry(l2, k1, i1) implies #[trigger] l2[k1][i1]
            + block_bytes(k1 as nat) <= lo || hi <= l2[k1][i1] by {
            let j1 = if k1 == k && i1 >= fi { i1 + 1 } else { i1 };
            assert(l2[k1][i1] == lists[k1][j1]);
        }
    }
}

/// The lower half and the upper half of an aligned block are aligned blocks
/// of the order below.
pub proof fn lemma_lower_halves(base: int, a: int, k: nat)
    requires
        aligned_in_heap(base, a, k + 1),
    ensures
        aligned_in_heap(base, a, k),
        aligned_in_heap(base, a + block_bytes(k), k),
        block_bytes(k + 1) == 2 * block_bytes(k),
{
    let s = block_bytes(k) as int;
    let off = a - base;
    lemma_block_bytes_le(k, k);
    lemma_block_bytes_double(k);
    let r = off / (2 * s);
    vstd::arithmetic::div_mod::lemma_fundamental_div_mod(off, 2 * s);
    assert(off == (2 * s) * r);
    assert(r >= 0) by (nonlinear_arith)
        requires off >= 0, s > 0, r == off / (2 * s);
    assert(off == (2 * r) * s) by (nonlinear_arith)
        requires off == (2 * s) * r;
    assert(off + s == (2 * r + 1) * s) by (nonlinear_arith)
        requires off == (2 * r) * s;
    vstd::arithmetic::div_mod::lemma_mod_multiples_basic(2 * r, s);
    vstd::arithmetic::div_mod::lemma_mod_multiples_basic(2 * r + 1, s);
}

/// Free blocks apart from a range are apart from every sub-range of it.
pub proof fn lemma_apart_shrink(lists: Seq<Seq<u64>>, lo: int, hi: int, lo2: int, hi2: int)
    requires
        entries_apart(lists, lo, hi),
        lo <= lo2,
        hi2 <= hi,
    ensures
        entries_apart(lists, lo2, hi2),
{
    assert forall|k: int, i: int| valid_entry(lists, k, i) implies #[trigger] lists[k][i]
        + block_bytes(k as nat) <= lo2 || hi2 <= lists[k][i] by {
        assert(lists[k][i] + block_bytes(k as nat) <= lo || hi <= lists[k][i]);
    }
}

/// Free blocks apart from two adjacent ranges are apart from their union.
pub proof fn lemma_apart_join(lists: Seq<Seq<u64>>, lo: int, mid: int, hi: int)
    requires
        entries_apart(lists, lo, mid),
        entries_apart(lists, mid, hi),
    ensures
        entries_apart(lists, lo, hi),
{
    assert forall|k: int, i: int| valid_entry(lists, k, i) implies #[trigger] lists[k][i]
        + block_bytes(k as nat) <= lo || hi <= lists[k][i] by {
        lemma_block_bytes_le(k as nat, k as nat);
        assert(lists[k][i] + block_bytes(k as nat) <= lo || mid <= lists[k][i]);
        assert(lists[k][i] + block_bytes(k as nat) <= mid || hi <= lists[k][i]);
    }
}

/// A block whose bytes are not free is apart from every free block.
pub proof fn lemma_apart_of_disjoint(lists: Seq<Seq<u64>>, a: int, order: nat)
    requires
        block_range(a, order).disjoint(free_bytes_of(lists)),
    ensures
        entries_apart(lists, a, a + block_bytes(order)),
{
    assert forall|k: int, i: int| valid_entry(lists, k, i) implies #[trigger] lists[k][i]
        + block_bytes(k as nat) <= a || a + block_bytes(order) <= lists[k][i] by {
        lemma_block_bytes_le(k as nat, k as nat);
        lemma_block_bytes_le(order, order);
        if !(lists[k][i] + block_bytes(k as nat) <= a || a + block_bytes(order) <= lists[k][i]) {
            let y = if lists[k][i] < a { a } else { lists[k][i] as int };
            assert(entry_covers(lists, k, i, y));
            assert(free_bytes_of(lists).contains(y));
            assert(block_range(a, order).contains(y));
        }
    }
}

/// What an allocation does to the free memory: the block handed out lies in
/// the heap, was free, and is exactly what stops being free; the free blocks
/// stay placed and disjoint.
pub proof fn lemma_split_laws(lists: Seq<Seq<u64>>, base: int, order: int, c: int, block: u64)
    requires
        lists.len() == MAX_ORDER,
        0 <= order,
        0 <= base,
        base + heap_bytes() <= u64::MAX,
        entries_placed(lists, base),
        entries_disjoint(lists),
        is_source(lists, order, c),
        block == lists[c][0],
    ensures
        ({
            let sp = split_lists(lists, order, c, block);
            &&& entries_placed(sp, base)
            &&& entries_disjoint(sp)
            &&& entries_apart(sp, block as int, block + block_bytes(order as nat))
            &&& aligned_in_heap(base, block as int, order as nat)
            &&& block_range(block as int, order as nat).subset_of(free_bytes_of(lists))
            &&& free_bytes_of(sp) == free_bytes_of(lists).difference(
                block_range(block as int, order as nat),
            )
        }),
    decreases c - order,
{
    let sp = split_lists(lists, order, c, block);
    if order == c {
        let s = lists[c];
        assert(s.contains(block));
        lemma_first_index(s, block);
        assert(first_index(s, block) == 0) by {
            if first_index(s, block) > 0 {
                assert(s[0] != block);
            }
        }
        assert(sp =~= lists.update(c, remove_first(s, block)));
        lemma_remove_free(lists, c, block);
        lemma_remove_wf(lists, base, c, block, 0, 0);
        assert(aligned_in_heap(base, lists[c][0] as int, c as nat));
    } else {
        lemma_split_laws(lists, base, order + 1, c, block);
        let sp1 = split_lists(lists, order + 1, c, block);
        let o = order as nat;
        let a2 = (block + block_bytes(o)) as u64;
        lemma_lower_halves(base, block as int, o);
        assert(a2 == block + block_bytes(o));
        assert(sp1[order] == lists[order]);
        assert(sp =~= sp1.update(order, sp1[order].insert(0, a2)));
        lemma_apart_shrink(sp1, block as int, block + block_bytes(o + 1), a2 as int, a2 + block_bytes(o));
        lemma_insert_wf(sp1, base, order, a2);
        lemma_insert_free(sp1, order, a2);
        assert forall|k: int, i: int| valid_entry(sp, k, i) implies #[trigger] sp[k][i]
            + block_bytes(k as nat) <= block || block + block_bytes(o) <= sp[k][i] by {
            if k == order && i == 0 {
                assert(sp[k][i] == a2);
            } else {
                let j = if k == order { i - 1 } else { i };
                assert(sp[k][i] == sp1[k][j]);
                assert(valid_entry(sp1, k, j));
                assert(sp1[k][j] + block_bytes(k as nat) <= block || block + block_bytes(o + 1) <= sp1[k][j]);
            }
        }
        let r0 = block_range(block as int, o);
        let r1 = block_range(block as int, o + 1);
        let ra = block_range(a2 as int, o);
        assert forall|y: int| free_bytes_of(sp).contains(y) == free_bytes_of(lists).difference(r0).contains(y) by {
            if r1.contains(y) && !r0.contains(y) {
                assert(ra.contains(y));
            }
            if ra.contains(y) {
                assert(r1.contains(y));
            }
        }
        assert(free_bytes_of(sp) =~= free_bytes_of(lists).difference(r0));
    }
}

/// What freeing does to the free memory: exactly the freed block becomes
/// free; and when the block was not free before, the free blocks stay placed
/// and disjoint.
pub proof fn lemma_merge_laws(lists: Seq<Seq<u64>>, base: int, addr: int, order: nat)
    requires
        lists.len() == MAX_ORDER,
        order < MAX_ORDER,
        0 <= base,
        base + heap_bytes() <= u64::MAX,
        aligned_in_heap(base, addr, order),
    ensures
        free_bytes_of(merge_lists(lists, base, addr, order)) == free_bytes_of(lists).union(
            block_range(addr, order),
        ),
        entries_placed(lists, base) && entries_disjoint(lists) && entries_apart(
            lists,
            addr,
            addr + block_bytes(order),
        ) ==> entries_placed(merge_lists(lists, base, addr, order), base) && entries_disjoint(
            merge_lists(lists, base, addr, order),
        ),
    decreases MAX_ORDER - order,
{
    let b = buddy_of(base, addr, order);
    let ra = block_range(addr, order);
    if order + 1 < MAX_ORDER && lists[order as int].contains(b as u64) {
        lemma_buddy_halves(base, addr, order);
        let m = if addr < b { addr } else { b };
        let l2 = lists.update(order as int, remove_first(lists[order as int], b as u64));
        let rb = block_range(b, order);
        let rm = block_range(m, order + 1);
        lemma_remove_free(lists, order as int, b as u64);
        lemma_remove_wf(lists, base, order as int, b as u64, addr, addr + block_bytes(order));
        lemma_merge_laws(l2, base, m, order + 1);
        lemma_block_bytes_double(order);
        assert(rm =~= ra.union(rb));
        assert(free_bytes_of(l2).union(rm) =~= free_bytes_of(lists).union(ra));
        if entries_placed(lists, base) && entries_disjoint(lists) && entries_apart(
            lists,
            addr,
            addr + block_bytes(order),
        ) {
            if m == addr {
                lemma_apart_join(l2, addr, b, b + block_bytes(order));
            } else {
                lemma_apart_join(l2, b, addr, addr + block_bytes(order));
            }
        }
    } else {
        lemma_insert_free(lists, order as int, addr as u64);
        if entries_placed(lists, base) && entries_disjoint(lists) && entries_apart(
            lists,
            addr,
            addr + block_bytes(order),
        ) {
            lemma_insert_wf(lists, base, order as int, addr as u64);
        }
    }
}

/// Freeing a block right after it was allocated gives back exactly the free
/// memory there was before the allocation.
pub proof fn lemma_alloc_then_dealloc_restores(lists: Seq<Seq<u64>>, base: int, order: int, c: int)
    requires
        lists.len() == MAX_ORDER,
        0 <= order,
        0 <= base,
        base + heap_bytes() <= u64::MAX,
        entries_placed(lists, base),
        entries_disjoint(lists),
        is_source(lists, order, c),
    ensures
        aligned_in_heap(base, lists[c][0] as int, order as nat),
        free_bytes_of(
            merge_lists(
                split_lists(lists, order, c, lists[c][0]),
                base,
                lists[c][0] as int,
                order as nat,
            ),
        ) == free_bytes_of(lists),
{
    let a = lists[c][0];
    let sp = split_lists(lists, order, c, a);
    lemma_split_laws(lists, base, order, c, a);
    assert(sp.len() == MAX_ORDER);
    lemma_merge_laws(sp, base, a as int, order as nat);
    let r = block_range(a as int, order as nat);
    assert(free_bytes_of(lists).difference(r).union(r) =~= free_bytes_of(lists));
}

/// Two allocations in a row hand out blocks that share no byte.
pub proof fn lemma_allocations_disjoint(
    lists: Seq<Seq<u64>>,
    base: int,
    o1: int,
    c1: int,
    o2: int,
    c2: int,
)
    requires
        lists.len() == MAX_ORDER,
        0 <= o1,
        0 <= o2,
        0 <= base,
        base + heap_bytes() <= u64::MAX,
        entries_placed(lists, base),
        entries_disjoint(lists),
        is_source(lists, o1, c1),
        is_source(split_lists(lists, o1, c1, lists[c1][0]), o2, c2),
    ensures
        blocks_apart(
            lists[c1][0] as int,
            o1 as nat,
            split_lists(lists, o1, c1, lists[c1][0])[c2][0] as int,
            o2 as nat,
        ),
{
    let a1 = lists[c1][0];
    let l1 = split_lists(lists, o1, c1, a1);
    let a2 = l1[c2][0];
    lemma_split_laws(lists, base, o1, c1, a1);
    lemma_split_laws(l1, base, o2, c2, a2);
    lemma_block_bytes_le(o1 as nat, o1 as nat);
    lemma_block_bytes_le(o2 as nat, o2 as nat);
    if !blocks_apart(a1 as int, o1 as nat, a2 as int, o2 as nat) {
        let y = if a1 < a2 { a2 as int } else { a1 as int };
        assert(block_range(a2 as int, o2 as nat).contains(y));
        assert(free_bytes_of(l1).contains(y));
        assert(block_range(a1 as int, o1 as nat).contains(y));
    }
}

/// A freed block whose buddy is not free goes to the head of its list, so
/// the next allocation of that order hands the same block out again.
pub proof fn lemma_dealloc_then_alloc_reuses(lists: Seq<Seq<u64>>, base: int, addr: u64, order: nat)
    requires
        lists.len() == MAX_ORDER,
        order < MAX_ORDER,
        !(order + 1 < MAX_ORDER && lists[order as int].contains(
            buddy_of(base, addr as int, order) as u64,
        )),
    ensures
        is_source(merge_lists(lists, base, addr as int, order), order as int, order as int),
        merge_lists(lists, base, addr as int, order)[order as int][0] == addr,
{
}

/// No free block below the highest order has its buddy free at the same
/// order: freeing has merged every pair of free buddies.
pub open spec fn no_free_buddies(lists: Seq<Seq<u64>>, base: int) -> bool {
    forall|k: int, i: int|
        valid_entry(lists, k, i) && k + 1 < MAX_ORDER ==> !lists[k].contains(
            buddy_of(base, #[trigger] lists[k][i] as int, k as nat) as u64,
        )
}

/// The buddy of a block's buddy is the block itself, and differs from it.
pub proof fn lemma_buddy_involution(base: int, a: int, k: nat)
    requires
        aligned_in_heap(base, a, k),
        k + 1 < MAX_ORDER,
    ensures
        buddy_of(base, buddy_of(base, a, k), k) == a,
        buddy_of(base, a, k) != a,
{
    let s = block_bytes(k) as int;
    lemma_block_bytes_le(k, k);
    let off = a - base;
    let q = off / s;
    vstd::arithmetic::div_mod::lemma_fundamental_div_mod(off, s);
    assert(off == s * q);
    vstd::arithmetic::div_mod::lemma_div_multiples_vanish(q + 1, s);
    vstd::arithmetic::div_mod::lemma_div_multiples_vanish(q - 1, s);
    assert(s * (q + 1) == off + s) by (nonlinear_arith)
        requires off == s * q;
    assert(s * (q - 1) == off - s) by (nonlinear_arith)
        requires off == s * q;
}

/// A block aligned to its order is aligned to every lower order.
pub proof fn lemma_aligned_lower(base: int, a: int, j: nat, c: nat)
    requires
        aligned_in_heap(base, a, c),
        j <= c,
    ensures
        (a - base) % (block_bytes(j) as int) == 0,
{
    lemma_block_bytes_divides(j, c);
    lemma_block_bytes_le(j, c);
    let p = pow2((c - j) as nat) as int;
    let sj = block_bytes(j) as int;
    let sc = block_bytes(c) as int;
    let off = a - base;
    let t = off / sc;
    vstd::arithmetic::div_mod::lemma_fundamental_div_mod(off, sc);
    assert(off == (t * p) * sj) by (nonlinear_arith)
        requires off == sc * t + 0, sc == p * sj;
    vstd::arithmetic::div_mod::lemma_mod_multiples_basic(t * p, sj);
}

/// Splitting keeps free buddies merged: the halves pushed on the way down
/// land on lists that were empty, and their buddies are taken.
pub proof fn lemma_split_no_buddies(lists: Seq<Seq<u64>>, base: int, order: int, c: int, block: u64)
    requires
        lists.len() == MAX_ORDER,
        0 <= order,
        0 <= base,
        base + heap_bytes() <= u64::MAX,
        entries_placed(lists, base),
        no_free_buddies(lists, base),
        is_source(lists, order, c),
        block == lists[c][0],
    ensures
        no_free_buddies(split_lists(lists, order, c, block), base),
{
    let sp = split_lists(lists, order, c, block);
    assert(aligned_in_heap(base, lists[c][0] as int, c as nat));
    assert forall|k: int, i: int| valid_entry(sp, k, i) && k + 1 < MAX_ORDER implies !sp[k].contains(
        buddy_of(base, #[trigger] sp[k][i] as int, k as nat) as u64,
    ) by {
        if k == c {
            let b = buddy_of(base, sp[k][i] as int, k as nat) as u64;
            assert(sp[k][i] == lists[c][i + 1]);
            assert(!lists[c].contains(buddy_of(base, lists[c][i + 1] as int, k as nat) as u64));
            if sp[k].contains(b) {
                let j = choose|j: int| 0 <= j < sp[k].len() && sp[k][j] == b;
                assert(lists[c][j + 1] == b);
            }
        } else if order <= k < c {
            let s = block_bytes(k as nat) as int;
            lemma_block_bytes_le(k as nat, k as nat);
            lemma_block_bytes_le((k + 1) as nat, c as nat);
            lemma_block_bytes_double(k as nat);
            assert(lists[k].len() == 0);
            assert(i == 0);
            let q = sp[k][0];
            assert(q == block + s);
            lemma_aligned_lower(base, block as int, (k + 1) as nat, c as nat);
            let off = block - base;
            let r = off / (2 * s);
            vstd::arithmetic::div_mod::lemma_fundamental_div_mod(off, 2 * s);
            vstd::arithmetic::div_mod::lemma_div_multiples_vanish(2 * r + 1, s);
            assert(s * (2 * r + 1) == off + s) by (nonlinear_arith)
                requires off == (2 * s) * r + 0;
            assert(((q - base) / s) % 2 == 1);
            assert(buddy_of(base, q as int, k as nat) == block);
            assert(sp[k].len() == 1);
        } else {
            assert(sp[k] == lists[k]);
        }
    }
}

/// Freeing keeps free buddies merged: the block ends up where its buddy is
/// not free, and no free block there had it as its buddy.
pub proof fn lemma_merge_no_buddies(lists: Seq<Seq<u64>>, base: int, addr: int, order: nat)
    requires
        lists.len() == MAX_ORDER,
        order < MAX_ORDER,
        0 <= base,
        base + heap_bytes() <= u64::MAX,
        aligned_in_heap(base, addr, order),
        entries_placed(lists, base),
        no_free_buddies(lists, base),
    ensures
        no_free_buddies(merge_lists(lists, base, addr, order), base),
    decreases MAX_ORDER - order,
{
    let b = buddy_of(base, addr, order);
    if order + 1 < MAX_ORDER && lists[order as int].contains(b as u64) {
        lemma_buddy_halves(base, addr, order);
        let m = if addr < b { addr } else { b };
        let l2 = lists.update(order as int, remove_first(lists[order as int], b as u64));
        lemma_remove_wf(lists, base, order as int, b as u64, 0, 0);
        lemma_first_index(lists[order as int], b as u64);
        let fi = first_index(lists[order as int], b as u64);
        assert forall|k: int, i: int| valid_entry(l2, k, i) && k + 1 < MAX_ORDER implies !l2[k].contains(
            buddy_of(base, #[trigger] l2[k][i] as int, k as nat) as u64,
        ) by {
            let j = if k == order && i >= fi { i + 1 } else { i };
            assert(l2[k][i] == lists[k][j]);
            let bb = buddy_of(base, lists[k][j] as int, k as nat) as u64;
            assert(!lists[k].contains(bb));
            if l2[k].contains(bb) {
                let t = choose|t: int| 0 <= t < l2[k].len() && l2[k][t] == bb;
                let u = if k == order && t >= fi { t + 1 } else { t };
                assert(lists[k][u] == bb);
            }
        }
        lemma_merge_no_buddies(l2, base, m, order + 1);
    } else {
        let l2 = lists.update(order as int, lists[order as int].insert(0, addr as u64));
        assert forall|k: int, i: int| valid_entry(l2, k, i) && k + 1 < MAX_ORDER implies !l2[k].contains(
            buddy_of(base, #[trigger] l2[k][i] as int, k as nat) as u64,
        ) by {
            if k == order {
                lemma_buddy_involution(base, addr, order);
                if i == 0 {
                    assert(l2[k][0] == addr as u64);
                    if l2[k].contains(b as u64) {
                        let t = choose|t: int| 0 <= t < l2[k].len() && l2[k][t] == b as u64;
                        lemma_buddy_halves(base, addr, order);
                        assert(t != 0);
                        assert(lists[k][t - 1] == b as u64);
                    }
                } else {
                    let q = lists[k][i - 1];
                    assert(l2[k][i] == q);
                    assert(aligned_in_heap(base, q as int, k as nat));
                    let bq = buddy_of(base, q as int, k as nat);
                    lemma_buddy_halves(base, q as int, k as nat);
                    lemma_buddy_involution(base, q as int, k as nat);
                    assert(!lists[k].contains(bq as u64));
                    if l2[k].contains(bq as u64) {
                        let t = choose|t: int| 0 <= t < l2[k].len() && l2[k][t] == bq as u64;
                        if t == 0 {
                            assert(bq == addr);
                            assert(lists[k][i - 1] == b as u64);
                        } else {
                            assert(lists[k][t - 1] == bq as u64);
                        }
                    }
                }
            } else {
                assert(l2[k] == lists[k]);
            }
        }
    }
}

/// Allocating and then freeing the same block leaves every free list exactly
/// as it was, as long as free buddies were merged.
pub proof fn lemma_alloc_then_dealloc_restores_lists(lists: Seq<Seq<u64>>, base: int, j: int, c: int, a: u64)
    requires
        lists.len() == MAX_ORDER,
        0 <= j <= c,
        0 <= base,
        base + heap_bytes() <= u64::MAX,
        entries_placed(lists, base),
        no_free_buddies(lists, base),
        is_source(lists, j, c),
        a == lists[c][0],
    ensures
        merge_lists(split_lists(lists, j, c, a), base, a as int, j as nat) == lists,
    decreases c - j,
{
    assert(aligned_in_heap(base, a as int, c as nat));
    let sp = split_lists(lists, j, c, a);
    if j == c {
        let b = buddy_of(base, a as int, c as nat);
        if c + 1 < MAX_ORDER {
            assert(lists[c][0] == a);
            assert(!lists[c].contains(b as u64));
            if sp[c].contains(b as u64) {
                let t = choose|t: int| 0 <= t < sp[c].len() && sp[c][t] == b as u64;
                assert(lists[c][t + 1] == b as u64);
            }
        }
        assert(sp[c].insert(0, a) =~= lists[c]);
        assert(sp.update(c, sp[c].insert(0, a)) =~= lists);
    } else {
        let s = block_bytes(j as nat) as int;
        lemma_block_bytes_le(j as nat, j as nat);
        lemma_block_bytes_le((j + 1) as nat, c as nat);
        lemma_block_bytes_double(j as nat);
        lemma_aligned_lower(base, a as int, (j + 1) as nat, c as nat);
        let off = a - base;
        let r = off / (2 * s);
        vstd::arithmetic::div_mod::lemma_fundamental_div_mod(off, 2 * s);
        vstd::arithmetic::div_mod::lemma_div_multiples_vanish(2 * r, s);
        assert(s * (2 * r) == off) by (nonlinear_arith)
            requires off == (2 * s) * r + 0;
        let b = buddy_of(base, a as int, j as nat);
        assert(b == a + s);
        assert(lists[j].len() == 0);
        assert(sp[j] == seq![(a + s) as u64]);
        assert(sp[j][0] == b as u64);
        lemma_first_index(sp[j], b as u64);
        assert(first_index(sp[j], b as u64) == 0);
        let l2 = sp.update(j, remove_first(sp[j], b as u64));
        assert(l2[j] =~= lists[j]);
        assert(l2 =~= split_lists(lists, j + 1, c, a));
        lemma_alloc_then_dealloc_restores_lists(lists, base, j + 1, c, a);
    }
}

/// The amount of free memory in bytes: over all orders, the number of free
/// blocks times the block size.
pub open spec fn free_total(lists: Seq<Seq<u64>>) -> int
    decreases lists.len(),
{
    if lists.len() == 0 {
        0
    } else {
        free_total(lists.drop_last()) + lists.last().len() * block_bytes((lists.len() - 1) as nat)
    }
}

/// Replacing one free list changes the free memory by the change in its
/// length times its block size.
pub proof fn lemma_free_total_update(lists: Seq<Seq<u64>>, k: int, s: Seq<u64>)
    requires
        0 <= k < lists.len(),
    ensures
        free_total(lists.update(k, s)) == free_total(lists) - lists[k].len() * block_bytes(k as nat)
            + s.len() * block_bytes(k as nat),
    decreases lists.len(),
{
    let l2 = lists.update(k, s);
    if k == lists.len() - 1 {
        assert(l2.drop_last() =~= lists.drop_last());
    } else {
        lemma_free_total_update(lists.drop_last(), k, s);
        assert(l2.drop_last() =~= lists.drop_last().update(k, s));
    }
}

/// One more block in a list of order `k` adds `block_bytes(k)`.
proof fn lemma_one_more(n: int, b: int)
    ensures
        (n + 1) * b == n * b + b,
        (n - 1) * b == n * b - b,
{
    assert((n + 1) * b == n * b + b) by (nonlinear_arith);
    assert((n - 1) * b == n * b - b) by (nonlinear_arith);
}

/// An allocation of `order` takes exactly `block_bytes(order)` bytes off
/// the free memory.
pub proof fn lemma_split_total(lists: Seq<Seq<u64>>, j: int, c: int, a: u64)
    requires
        lists.len() == MAX_ORDER,
        0 <= j <= c < MAX_ORDER,
        lists[c].len() > 0,
    ensures
        free_total(split_lists(lists, j, c, a)) == free_total(lists) - block_bytes(j as nat),
    decreases c - j,
{
    let sp = split_lists(lists, j, c, a);
    if j == c {
        assert(sp =~= lists.update(c, lists[c].drop_first()));
        lemma_free_total_update(lists, c, lists[c].drop_first());
        lemma_one_more(lists[c].len() as int, block_bytes(c as nat) as int);
    } else {
        lemma_split_total(lists, j + 1, c, a);
        let sp1 = split_lists(lists, j + 1, c, a);
        assert(sp =~= sp1.update(j, sp1[j].insert(0, (a + block_bytes(j as nat)) as u64)));
        lemma_free_total_update(sp1, j, sp1[j].insert(0, (a + block_bytes(j as nat)) as u64));
        lemma_one_more(sp1[j].len() as int, block_bytes(j as nat) as int);
        lemma_block_bytes_double(j as nat);
    }
}

/// Freeing a block of `order` adds exactly `block_bytes(order)` bytes to the
/// free memory, however far it merges.
pub proof fn lemma_merge_total(lists: Seq<Seq<u64>>, base: int, addr: int, order: nat)
    requires
        lists.len() == MAX_ORDER,
        order < MAX_ORDER,
    ensures
        free_total(merge_lists(lists, base, addr, order)) == free_total(lists) + block_bytes(order),
    decreases MAX_ORDER - order,
{
    let b = buddy_of(base, addr, order);
    let k = order as int;
    if order + 1 < MAX_ORDER && lists[k].contains(b as u64) {
        let m = if addr < b { addr } else { b };
        let r = remove_first(lists[k], b as u64);
        lemma_first_index(lists[k], b as u64);
        lemma_free_total_update(lists, k, r);
        lemma_one_more(r.len() as int, block_bytes(order) as int);
        lemma_merge_total(lists.update(k, r), base, m, order + 1);
        lemma_block_bytes_double(order);
    } else {
        lemma_free_total_update(lists, k, lists[k].insert(0, addr as u64));
        lemma_one_more(lists[k].len() as int, block_bytes(order) as int);
    }
}

} // verus!
