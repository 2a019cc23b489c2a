//! The allocator as the kernel shares it: a buddy allocator behind a spin
//! lock, and the translation of a memory layout into a block order.

use vstd::prelude::*;
use vstd::arithmetic::power2::{pow2, lemma_pow2_unfold, lemma_pow2_pos, lemma_pow2_strictly_increases, lemma2_to64, lemma2_to64_rest};
use crate::buddy::{BuddyAllocator, MAX_ORDER, PAGE_SIZE};
use crate::boot_info::BootInfo;

verus! {

/// `p` is the smallest power of two that is at least `n`.
pub open spec fn is_least_power_of_two_above(p: nat, n: nat) -> bool {
    exists|e: nat|
        #![trigger pow2(e)]
        pow2(e) == p && p >= n && (e > 0 ==> pow2((e - 1) as nat) < n)
}

/// `usize::next_power_of_two`: the smallest power of two that is at least
/// `n` (1 for 0). The documentation says it panics in debug builds when that
/// power does not fit in `usize`; such inputs are left out.
#[verifier::external_body]
fn next_power_of_two(n: usize) -> (r: usize)
    requires
        n <= pow2((usize::BITS - 1) as nat),
    ensures
        is_least_power_of_two_above(r as nat, n as nat),
{
    n.next_power_of_two()
}

/// `usize::trailing_zeros`: the number of trailing zero bits of `n`, that is
/// the largest `t` with `2^t` dividing `n` (`usize::BITS` for 0).
#[verifier::external_body]
fn trailing_zeros(n: usize) -> (r: u32)
    ensures
        n == 0 ==> r == usize::BITS,
        n != 0 ==> (n as nat) % pow2(r as nat) == 0 && ((n as nat) / pow2(r as nat)) % 2 == 1,
{
    n.trailing_zeros()
}

/// The number of pages that `bytes` bytes take, rounded up.
pub open spec fn pages_for(bytes: nat) -> nat {
    ((bytes + 4095) / 4096) as nat
}

/// The order of the smallest block that holds a layout of `size` bytes with
/// the given alignment: the smallest `order` with `2^order` pages at least
/// as many as `max(size, align)` takes.
pub fn layout_order(size: usize, align: usize) -> (order: usize)
    requires
        (if size >= align { size } else { align }) + PAGE_SIZE <= usize::MAX,
    ensures
        ({
            let pages = pages_for(if size >= align { size as nat } else { align as nat });
            &&& pow2(order as nat) >= pages
            &&& order > 0 ==> pow2((order - 1) as nat) < pages
        }),
        pow2(order as nat) * 4096 >= if size >= align { size } else { align },
        order > 0 ==> pow2((order - 1) as nat) * 4096 < if size >= align { size } else { align },
{
    let size = if size >= align { size } else { align };
    let pages = (size + PAGE_SIZE - 1) / PAGE_SIZE;
    proof {
        lemma2_to64();
        lemma2_to64_rest();
        assert(usize::BITS == 32 || usize::BITS == 64);
    }
    let p = next_power_of_two(pages);
    let tz = trailing_zeros(p);
    proof {
        assert(is_least_power_of_two_above(p as nat, pages as nat));
        let e = choose|e: nat| #![trigger pow2(e)] pow2(e) == p && p >= pages && (e > 0 ==> pow2((e - 1) as nat) < pages);
        lemma_pow2_pos(e);
        lemma_pow2_exponent(e, tz as nat);
        lemma_pages_for_exact(size as nat);
        let m = size as int;
        let pg = pages as int;
        let hi = pow2(e) as int;
        assert(hi * 4096 >= m) by (nonlinear_arith)
            requires hi >= pg, pg * 4096 >= m;
        if e > 0 {
            let lo = pow2((e - 1) as nat) as int;
            assert(lo * 4096 < m) by (nonlinear_arith)
                requires lo < pg, pg > 0 ==> (pg - 1) * 4096 < m, lo >= 0;
        }
    }
    tz as usize
}

/// `pages_for(bytes)` is the number of pages that hold `bytes` bytes and no
/// fewer: they hold them, and one page less does not.
pub proof fn lemma_pages_for_exact(bytes: nat)
    ensures
        pages_for(bytes) * 4096 >= bytes,
        pages_for(bytes) > 0 ==> (pages_for(bytes) - 1) * 4096 < bytes,
{
    let p = pages_for(bytes) as int;
    let b = bytes as int;
    vstd::arithmetic::div_mod::lemma_fundamental_div_mod(b + 4095, 4096);
    assert(0 <= (b + 4095) % 4096 < 4096);
    assert(p == (b + 4095) / 4096);
}

/// The only `t` with `2^t` dividing `2^e` an odd number of times is `e`.
proof fn lemma_pow2_exponent(e: nat, t: nat)
    requires
        pow2(e) % pow2(t) == 0,
        (pow2(e) / pow2(t)) % 2 == 1,
    ensures
        t == e,
{
    lemma_pow2_pos(e);
    lemma_pow2_pos(t);
    if t > e {
        lemma_pow2_strictly_increases(e, t);
        vstd::arithmetic::div_mod::lemma_small_mod(pow2(e), pow2(t));
    } else if t < e {
        vstd::arithmetic::power2::lemma_pow2_subtracts(t, e);
        lemma_pow2_unfold((e - t) as nat);
    }
}

/// `spin::Mutex`, a spin lock around a value; opaque here.
#[verifier::external_type_specification]
#[verifier::external_body]
#[verifier::reject_recursive_types(T)]
#[verifier::reject_recursive_types(R)]
pub struct ExSpinMutex<T: ?Sized, R>(spin::mutex::Mutex<T, R>);

/// `spin::MutexGuard`, the proof that the lock is held; opaque here.
#[verifier::external_type_specification]
#[verifier::external_body]
#[verifier::reject_recursive_types(T)]
#[verifier::reject_recursive_types(R)]
pub struct ExSpinMutexGuard<'a, T: 'a + ?Sized, R>(spin::mutex::MutexGuard<'a, T, R>);

/// `spin::Spin`, the relax strategy of a spin lock that just spins.
#[verifier::external_type_specification]
#[verifier::external_body]
pub struct ExSpin(spin::relax::Spin);

/// The free lists and the heap base of the allocator that a lock was created
/// around.
pub uninterp spec fn lock_created_with(m: spin::Mutex<BuddyAllocator>) -> (Seq<Seq<u64>>, u64);

/// `spin::Mutex::new`: puts the allocator into a new, unlocked lock. The lock
/// is created around the allocator it is given; what it holds later is
/// reached only through the lock and is not stated.
#[verifier::external_body]
fn new_lock(a: BuddyAllocator) -> (m: spin::Mutex<BuddyAllocator>)
    ensures
        lock_created_with(m) == (a.lists(), a.base()),
{
    spin::Mutex::new(a)
}

/// `spin::Mutex::lock`: spins until the lock is free, then holds it until
/// the guard is dropped.
#[verifier::external_body]
fn lock_allocator(m: &spin::Mutex<BuddyAllocator>) -> spin::MutexGuard<'_, BuddyAllocator> {
    m.lock()
}

/// `DerefMut` of `spin::MutexGuard`: the value the held lock protects.
/// Nothing is stated of it, since other holders of the lock may have changed
/// it in any way.
#[verifier::external_body]
fn guarded<'a, 'b>(g: &'a mut spin::MutexGuard<'b, BuddyAllocator>) -> &'a mut BuddyAllocator {
    &mut **g
}

/// The buddy allocator behind a spin lock, to be shared by all users.
pub struct LockedBuddyAllocator(pub spin::Mutex<BuddyAllocator>);

impl LockedBuddyAllocator {
    /// Creates a lock around an allocator with no free memory.
    pub fn new() -> (r: Self)
        ensures
            lock_created_with(r.0) == (Seq::new(MAX_ORDER as nat, |k: int| Seq::<u64>::empty()), 0u64),
    {
        LockedBuddyAllocator(new_lock(BuddyAllocator::new()))
    }

    /// Initializes the allocator under the lock (see `BuddyAllocator::init`).
    pub fn init(&self, boot_info: &BootInfo)
        requires
            boot_info.fr.heap_start is Some,
    {
        let mut guard = lock_allocator(&self.0);
        guarded(&mut guard).init(boot_info);
    }
}

} // verus!
