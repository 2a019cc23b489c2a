//! What the kernel learns from the firmware memory map at boot.

use vstd::prelude::*;
use crate::boot_info::{BootInfo, FrameBufferInfo, FrameRange};

verus! {

/// The UEFI memory type of conventional (free, usable) memory.
pub const CONVENTIONAL: u32 = 7;

/// Size in bytes of one page of the firmware memory map.
pub const UEFI_PAGE_SIZE: u64 = 4096;

/// One descriptor of the firmware memory map.
#[derive(Clone, Copy)]
pub struct MemoryEntry {
    /// UEFI memory type of the range.
    pub ty: u32,
    /// Starting physical address.
    pub phys_start: u64,
    /// Number of 4 KiB pages in the range.
    pub page_count: u64,
}

/// Byte size of a memory-map entry.
pub open spec fn entry_bytes(e: MemoryEntry) -> int {
    e.page_count * 4096
}

/// Address one past the end of a memory-map entry.
pub open spec fn entry_end(e: MemoryEntry) -> int {
    e.phys_start + entry_bytes(e)
}

/// The lowest start address of the entries (`u64::MAX` when there are none).
pub open spec fn lowest_start(s: Seq<MemoryEntry>) -> int
    decreases s.len(),
{
    if s.len() == 0 {
        u64::MAX as int
    } else {
        let m = lowest_start(s.drop_last());
        if s.last().phys_start < m {
            s.last().phys_start as int
        } else {
            m
        }
    }
}

/// The highest end address of the conventional entries (0 when there are
/// none).
pub open spec fn highest_conventional_end(s: Seq<MemoryEntry>) -> int
    decreases s.len(),
{
    if s.len() == 0 {
        0
    } else {
        let m = highest_conventional_end(s.drop_last());
        if s.last().ty == CONVENTIONAL && entry_end(s.last()) > m {
            entry_end(s.last())
        } else {
            m
        }
    }
}

/// The total number of bytes of the conventional entries.
pub open spec fn conventional_bytes(s: Seq<MemoryEntry>) -> int
    decreases s.len(),
{
    if s.len() == 0 {
        0
    } else {
        conventional_bytes(s.drop_last()) + if s.last().ty == CONVENTIONAL {
            entry_bytes(s.last())
        } else {
            0
        }
    }
}

/// Number of pages of the kernel heap: one block of the allocator's highest
/// order, 4 MiB.
pub const HEAP_PAGES: u64 = 1024;

/// Where the heap would start inside a memory-map entry: its first page, or
/// its second page when the entry starts at address 0.
pub open spec fn heap_base(e: MemoryEntry) -> int {
    if e.phys_start == 0 {
        4096
    } else {
        e.phys_start as int
    }
}

/// A memory-map entry that can hold the kernel heap: page-aligned
/// conventional RAM with room for `HEAP_PAGES` pages from its heap base on.
pub open spec fn heap_candidate(e: MemoryEntry) -> bool {
    &&& e.ty == CONVENTIONAL
    &&& e.phys_start % 4096 == 0
    &&& heap_base(e) + HEAP_PAGES * 4096 <= entry_end(e)
}

/// The lowest heap base of the entries that can hold the heap, if any.
pub open spec fn lowest_heap_start(s: Seq<MemoryEntry>) -> Option<u64>
    decreases s.len(),
{
    if s.len() == 0 {
        None
    } else {
        let m = lowest_heap_start(s.drop_last());
        if heap_candidate(s.last()) && (m is None || heap_base(s.last()) < m->0) {
            Some(heap_base(s.last()) as u64)
        } else {
            m
        }
    }
}

/// The heap start picked from a memory map is the start of an entry that can
/// hold the heap, and no such entry starts lower.
pub proof fn lemma_lowest_heap_start(s: Seq<MemoryEntry>)
    ensures
        lowest_heap_start(s) is None <==> forall|i: int| 0 <= i < s.len() ==> !heap_candidate(#[trigger] s[i]),
        lowest_heap_start(s) matches Some(h) ==> (exists|i: int| 0 <= i < s.len() && heap_candidate(#[trigger] s[i]) && heap_base(s[i]) == h)
            && (forall|i: int| 0 <= i < s.len() && heap_candidate(#[trigger] s[i]) ==> h <= heap_base(s[i])),
    decreases s.len(),
{
    if s.len() > 0 {
        let p = s.drop_last();
        lemma_lowest_heap_start(p);
        assert forall|i: int| 0 <= i < p.len() implies #[trigger] p[i] == s[i] by {}
        if let Some(h) = lowest_heap_start(p) {
            let j = choose|i: int| 0 <= i < p.len() && heap_candidate(#[trigger] p[i]) && heap_base(p[i]) == h;
            assert(s[j] == p[j]);
        }
        if lowest_heap_start(s) is None {
            assert forall|i: int| 0 <= i < s.len() implies !heap_candidate(#[trigger] s[i]) by {
                if i < p.len() {
                    assert(s[i] == p[i]);
                }
            }
        }
        if let Some(h) = lowest_heap_start(s) {
            if heap_candidate(s.last()) && (lowest_heap_start(p) is None || heap_base(s.last()) < lowest_heap_start(p)->0) {
                assert(s[s.len() - 1] == s.last());
            }
            assert forall|i: int| 0 <= i < s.len() && heap_candidate(#[trigger] s[i]) implies h <= heap_base(s[i]) by {
                if i < p.len() {
                    assert(s[i] == p[i]);
                }
            }
        }
    }
}

/// The conventional bytes of a prefix never exceed those of the whole map.
proof fn lemma_conventional_bytes_prefix(s: Seq<MemoryEntry>, i: int)
    requires
        0 <= i <= s.len(),
    ensures
        conventional_bytes(s.subrange(0, i)) <= conventional_bytes(s),
    decreases s.len() - i,
{
    if i < s.len() {
        lemma_conventional_bytes_prefix(s, i + 1);
        assert(s.subrange(0, i + 1).drop_last() =~= s.subrange(0, i));
    } else {
        assert(s.subrange(0, i) =~= s);
    }
}

/// Scans the memory map: the lowest start address of all entries, the
/// highest end address and the total size of the conventional ones, which
/// is also where the heap ends. The heap starts at the lowest heap base of
/// the conventional regions that can hold it (`None` when there is none).
pub fn frame_range_from_memory_map(entries: &[MemoryEntry]) -> (fr: FrameRange)
    requires
        forall|i: int| 0 <= i < entries@.len() ==> entry_end(#[trigger] entries@[i]) <= u64::MAX,
        conventional_bytes(entries@) <= u64::MAX,
    ensures
        fr.ram_start == lowest_start(entries@),
        fr.ram_end == highest_conventional_end(entries@),
        fr.total_conventional_bytes == conventional_bytes(entries@),
        fr.heap_start == lowest_heap_start(entries@),
        fr.heap_end == highest_conventional_end(entries@),
        fr.heap_start is None <==> forall|i: int| 0 <= i < entries@.len() ==> !heap_candidate(#[trigger] entries@[i]),
        fr.heap_start matches Some(h) ==> heap_in_region(entries@, h),
        fr.heap_start is None <==> forall|i: int|
            0 <= i < entries@.len() ==> !({
                let e = #[trigger] entries@[i];
                &&& e.ty == CONVENTIONAL
                &&& e.phys_start % 4096 == 0
                &&& (if e.phys_start == 0 { 4096 } else { e.phys_start as int }) + 1024 * 4096
                    <= e.phys_start + e.page_count * 4096
            }),
        fr.heap_start matches Some(h) ==> exists|i: int|
            0 <= i < entries@.len() && ({
                let e = #[trigger] entries@[i];
                &&& e.ty == CONVENTIONAL
                &&& e.phys_start % 4096 == 0
                &&& (if e.phys_start == 0 { 4096 } else { e.phys_start as int }) + 1024 * 4096
                    <= e.phys_start + e.page_count * 4096
                &&& h == (if e.phys_start == 0 { 4096 } else { e.phys_start as int })
            }),
        fr.heap_start matches Some(h) ==> forall|i: int|
            0 <= i < entries@.len() && ({
                let e = #[trigger] entries@[i];
                &&& e.ty == CONVENTIONAL
                &&& e.phys_start % 4096 == 0
                &&& (if e.phys_start == 0 { 4096 } else { e.phys_start as int }) + 1024 * 4096
                    <= e.phys_start + e.page_count * 4096
            }) ==> h <= (if entries@[i].phys_start == 0 { 4096 } else { entries@[i].phys_start as int }),
        forall|i: int| 0 <= i < entries@.len() ==> fr.ram_start <= #[trigger] entries@[i].phys_start,
        entries@.len() == 0 ==> fr.ram_start == u64::MAX,
        entries@.len() > 0 ==> exists|i: int|
            0 <= i < entries@.len() && fr.ram_start == #[trigger] entries@[i].phys_start,
        forall|i: int|
            0 <= i < entries@.len() && #[trigger] entries@[i].ty == CONVENTIONAL ==> entries@[i].phys_start
                + entries@[i].page_count * 4096 <= fr.ram_end,
        fr.ram_end == 0 || exists|i: int|
            0 <= i < entries@.len() && #[trigger] entries@[i].ty == CONVENTIONAL && fr.ram_end
                == entries@[i].phys_start + entries@[i].page_count * 4096,
{
    let mut min_phys_addr: u64 = u64::MAX;
    let mut max_phys_addr: u64 = 0;
    let mut total_conventional_bytes: u64 = 0;
    let mut heap: Option<u64> = None;
    let mut i: usize = 0;
    while i < entries.len()
        invariant
            0 <= i <= entries@.len(),
            forall|j: int| 0 <= j < entries@.len() ==> entry_end(#[trigger] entries@[j]) <= u64::MAX,
            conventional_bytes(entries@) <= u64::MAX,
            min_phys_addr == lowest_start(entries@.subrange(0, i as int)),
            max_phys_addr == highest_conventional_end(entries@.subrange(0, i as int)),
            total_conventional_bytes == conventional_bytes(entries@.subrange(0, i as int)),
            heap == lowest_heap_start(entries@.subrange(0, i as int)),
        decreases entries@.len() - i,
    {
        let entry = &entries[i];
        let ghost pre = entries@.subrange(0, i as int);
        let ghost next = entries@.subrange(0, i + 1);
        proof {
            assert(next.drop_last() =~= pre);
            assert(next.last() == entries@[i as int]);
            assert(entry_end(entries@[i as int]) <= u64::MAX);
            lemma_conventional_bytes_prefix(entries@, i + 1);
        }
        let start = entry.phys_start;
        let end = start + (entry.page_count * UEFI_PAGE_SIZE);
        if start < min_phys_addr {
            min_phys_addr = start;
        }
        if entry.ty == CONVENTIONAL {
            if end > max_phys_addr {
                max_phys_addr = end;
            }
            total_conventional_bytes += entry.page_count * UEFI_PAGE_SIZE;
            let heap_base = if start == 0 {
                UEFI_PAGE_SIZE
            } else {
                start
            };
            if start % UEFI_PAGE_SIZE == 0 && heap_base <= end && end - heap_base >= HEAP_PAGES * UEFI_PAGE_SIZE {
                let lower = match heap {
                    Some(h) => heap_base < h,
                    None => true,
                };
                if lower {
                    heap = Some(heap_base);
                }
            }
        }
        i = i + 1;
    }
    proof {
        assert(entries@.subrange(0, entries@.len() as int) =~= entries@);
        lemma_lowest_heap_start(entries@);
        lemma_bounds_exact(entries@);
        assert forall|i: int| 0 <= i < entries@.len() implies heap_candidate(#[trigger] entries@[i])
            == ({
                let e = entries@[i];
                &&& e.ty == CONVENTIONAL
                &&& e.phys_start % 4096 == 0
                &&& (if e.phys_start == 0 { 4096 } else { e.phys_start as int }) + 1024 * 4096
                    <= e.phys_start + e.page_count * 4096
            }) by {
            lemma_heap_candidate_exact(entries@[i]);
        }
    }
    FrameRange {
        ram_start: min_phys_addr,
        ram_end: max_phys_addr,
        total_conventional_bytes,
        heap_start: heap,
        heap_end: max_phys_addr,
    }
}

/// The heap of `HEAP_PAGES` pages at `h` lies in a conventional region of
/// the map, starts at a non-zero page boundary, and no such region offers a
/// lower start.
pub open spec fn heap_in_region(s: Seq<MemoryEntry>, h: u64) -> bool {
    &&& h != 0
    &&& h % 4096 == 0
    &&& exists|i: int|
        0 <= i < s.len() && heap_candidate(#[trigger] s[i]) && heap_base(s[i]) == h && s[i].phys_start
            <= h && h + HEAP_PAGES * 4096 <= entry_end(s[i])
    &&& forall|i: int| 0 <= i < s.len() && heap_candidate(#[trigger] s[i]) ==> h <= heap_base(s[i])
}

/// The boot information handed to the kernel: the memory layout scanned
/// from the memory map, the framebuffer, and no kernel image sizes.
pub fn boot_info_from_memory_map(entries: &[MemoryEntry], fbi: FrameBufferInfo) -> (info: BootInfo)
    requires
        forall|i: int| 0 <= i < entries@.len() ==> entry_end(#[trigger] entries@[i]) <= u64::MAX,
        conventional_bytes(entries@) <= u64::MAX,
    ensures
        info.kernel_file_size == 0,
        info.kernel_size_ram == 0,
        info.fr.ram_start == lowest_start(entries@),
        info.fr.ram_end == highest_conventional_end(entries@),
        info.fr.total_conventional_bytes == conventional_bytes(entries@),
        info.fr.heap_start == lowest_heap_start(entries@),
        info.fr.heap_end == highest_conventional_end(entries@),
        info.fr.heap_start is None <==> forall|i: int| 0 <= i < entries@.len() ==> !heap_candidate(#[trigger] entries@[i]),
        info.fr.heap_start matches Some(h) ==> heap_in_region(entries@, h),
        info.fr.heap_start is None <==> forall|i: int|
            0 <= i < entries@.len() ==> !({
                let e = #[trigger] entries@[i];
                &&& e.ty == CONVENTIONAL
                &&& e.phys_start % 4096 == 0
                &&& (if e.phys_start == 0 { 4096 } else { e.phys_start as int }) + 1024 * 4096
                    <= e.phys_start + e.page_count * 4096
            }),
        info.fr.heap_start matches Some(h) ==> exists|i: int|
            0 <= i < entries@.len() && ({
                let e = #[trigger] entries@[i];
                &&& e.ty == CONVENTIONAL
                &&& e.phys_start % 4096 == 0
                &&& (if e.phys_start == 0 { 4096 } else { e.phys_start as int }) + 1024 * 4096
                    <= e.phys_start + e.page_count * 4096
                &&& h == (if e.phys_start == 0 { 4096 } else { e.phys_start as int })
            }),
        info.fr.heap_start matches Some(h) ==> forall|i: int|
            0 <= i < entries@.len() && ({
                let e = #[trigger] entries@[i];
                &&& e.ty == CONVENTIONAL
                &&& e.phys_start % 4096 == 0
                &&& (if e.phys_start == 0 { 4096 } else { e.phys_start as int }) + 1024 * 4096
                    <= e.phys_start + e.page_count * 4096
            }) ==> h <= (if entries@[i].phys_start == 0 { 4096 } else { entries@[i].phys_start as int }),
        forall|i: int| 0 <= i < entries@.len() ==> info.fr.ram_start <= #[trigger] entries@[i].phys_start,
        entries@.len() == 0 ==> info.fr.ram_start == u64::MAX,
        entries@.len() > 0 ==> exists|i: int|
            0 <= i < entries@.len() && info.fr.ram_start == #[trigger] entries@[i].phys_start,
        forall|i: int|
            0 <= i < entries@.len() && #[trigger] entries@[i].ty == CONVENTIONAL ==> entries@[i].phys_start
                + entries@[i].page_count * 4096 <= info.fr.ram_end,
        info.fr.ram_end == 0 || exists|i: int|
            0 <= i < entries@.len() && #[trigger] entries@[i].ty == CONVENTIONAL && info.fr.ram_end
                == entries@[i].phys_start + entries@[i].page_count * 4096,
        info.fbi == fbi,
{
    let fr = frame_range_from_memory_map(entries);
    BootInfo { kernel_file_size: 0, kernel_size_ram: 0, fr, fbi }
}

/// Each figure of the scan is the figure of the other entries combined with
/// the entry at any position `i`, as if that entry came last.
proof fn lemma_scan_remove(s: Seq<MemoryEntry>, i: int)
    requires
        0 <= i < s.len(),
    ensures
        ({
            let r = s.remove(i);
            let e = s[i];
            &&& lowest_start(s) == if e.phys_start < lowest_start(r) {
                e.phys_start as int
            } else {
                lowest_start(r)
            }
            &&& highest_conventional_end(s) == if e.ty == CONVENTIONAL && entry_end(e)
                > highest_conventional_end(r) {
                entry_end(e)
            } else {
                highest_conventional_end(r)
            }
            &&& conventional_bytes(s) == conventional_bytes(r) + if e.ty == CONVENTIONAL {
                entry_bytes(e)
            } else {
                0
            }
            &&& lowest_heap_start(s) == if heap_candidate(e) && (lowest_heap_start(r) is None
                || heap_base(e) < lowest_heap_start(r)->0) {
                Some(heap_base(e) as u64)
            } else {
                lowest_heap_start(r)
            }
        }),
    decreases s.len(),
{
    if i == s.len() - 1 {
        assert(s.remove(i) =~= s.drop_last());
    } else {
        let p = s.drop_last();
        lemma_scan_remove(p, i);
        assert(s.remove(i).drop_last() =~= p.remove(i));
        assert(s.remove(i).last() == s.last());
        assert(p[i] == s[i]);
    }
}

/// The scan does not depend on the order of the memory-map entries: maps
/// that hold the same entries give the same figures and the same heap.
pub proof fn lemma_scan_order_independent(s1: Seq<MemoryEntry>, s2: Seq<MemoryEntry>)
    requires
        s1.to_multiset() == s2.to_multiset(),
    ensures
        lowest_start(s1) == lowest_start(s2),
        highest_conventional_end(s1) == highest_conventional_end(s2),
        conventional_bytes(s1) == conventional_bytes(s2),
        lowest_heap_start(s1) == lowest_heap_start(s2),
    decreases s1.len(),
{
    s1.to_multiset_ensures();
    s2.to_multiset_ensures();
    if s1.len() == 0 {
        assert(s2.len() == 0);
    } else {
        let x = s1.last();
        assert(s1.contains(x)) by {
            assert(s1[s1.len() - 1] == x);
        }
        assert(s2.to_multiset().count(x) > 0);
        assert(s2.contains(x));
        let j = choose|j: int| 0 <= j < s2.len() && s2[j] == x;
        let p1 = s1.drop_last();
        let p2 = s2.remove(j);
        assert(p1 =~= s1.remove(s1.len() - 1));
        assert(p1.to_multiset() =~= s1.to_multiset().remove(x));
        assert(p2.to_multiset() =~= s2.to_multiset().remove(x));
        lemma_scan_order_independent(p1, p2);
        lemma_scan_remove(s2, j);
    }
}

/// An entry can hold the heap exactly when it is page-aligned conventional
/// RAM with room for the heap's 1024 pages from its first page (its second
/// page when it starts at address 0) to its end; the heap then starts there.
pub proof fn lemma_heap_candidate_exact(e: MemoryEntry)
    ensures
        heap_candidate(e) <==> (e.ty == CONVENTIONAL && e.phys_start % 4096 == 0 && (if e.phys_start
            == 0 {
            4096
        } else {
            e.phys_start as int
        }) + 1024 * 4096 <= e.phys_start + e.page_count * 4096),
        heap_base(e) == if e.phys_start == 0 {
            4096
        } else {
            e.phys_start as int
        },
{
}

/// The lowest start is a lower bound of all starts and is one of them
/// (`u64::MAX` for an empty map); the highest conventional end is an upper
/// bound of all conventional ends and is one of them (or 0).
pub proof fn lemma_bounds_exact(s: Seq<MemoryEntry>)
    ensures
        forall|i: int| 0 <= i < s.len() ==> lowest_start(s) <= #[trigger] s[i].phys_start,
        s.len() == 0 ==> lowest_start(s) == u64::MAX,
        s.len() > 0 ==> exists|i: int| 0 <= i < s.len() && lowest_start(s) == #[trigger] s[i].phys_start,
        forall|i: int|
            0 <= i < s.len() && #[trigger] s[i].ty == CONVENTIONAL ==> s[i].phys_start + s[i].page_count
                * 4096 <= highest_conventional_end(s),
        highest_conventional_end(s) == 0 || exists|i: int|
            0 <= i < s.len() && #[trigger] s[i].ty == CONVENTIONAL && highest_conventional_end(s)
                == s[i].phys_start + s[i].page_count * 4096,
    decreases s.len(),
{
    if s.len() > 0 {
        let p = s.drop_last();
        lemma_bounds_exact(p);
        assert forall|i: int| 0 <= i < p.len() implies #[trigger] p[i] == s[i] by {}
        assert(s[s.len() - 1] == s.last());
        if p.len() > 0 {
            let j = choose|j: int| 0 <= j < p.len() && lowest_start(p) == #[trigger] p[j].phys_start;
            assert(s[j] == p[j]);
        }
        if highest_conventional_end(p) != 0 {
            let j = choose|j: int| 0 <= j < p.len() && #[trigger] p[j].ty == CONVENTIONAL
                && highest_conventional_end(p) == p[j].phys_start + p[j].page_count * 4096;
            assert(s[j] == p[j]);
        }
        assert forall|i: int| 0 <= i < s.len() implies lowest_start(s) <= #[trigger] s[i].phys_start by {
            if i < p.len() {
                assert(s[i] == p[i]);
            }
        }
        assert forall|i: int|
            0 <= i < s.len() && #[trigger] s[i].ty == CONVENTIONAL implies s[i].phys_start + s[i].page_count
                * 4096 <= highest_conventional_end(s) by {
            if i < p.len() {
                assert(s[i] == p[i]);
            }
        }
    }
}

/// The conventional byte total of one entry is its size when it is
/// conventional and nothing otherwise.
pub proof fn lemma_conventional_bytes_single(e: MemoryEntry)
    ensures
        conventional_bytes(seq![e]) == if e.ty == CONVENTIONAL {
            e.page_count * 4096
        } else {
            0
        },
{
    assert(seq![e].drop_last() =~= Seq::<MemoryEntry>::empty());
    assert(conventional_bytes(Seq::<MemoryEntry>::empty()) == 0);
    assert(seq![e].last() == e);
}

/// The conventional byte total of two maps put together is the sum of their
/// totals.
pub proof fn lemma_conventional_bytes_concat(s1: Seq<MemoryEntry>, s2: Seq<MemoryEntry>)
    ensures
        conventional_bytes(s1 + s2) == conventional_bytes(s1) + conventional_bytes(s2),
    decreases s2.len(),
{
    if s2.len() == 0 {
        assert(s1 + s2 =~= s1);
    } else {
        lemma_conventional_bytes_concat(s1, s2.drop_last());
        assert((s1 + s2).drop_last() =~= s1 + s2.drop_last());
        assert((s1 + s2).last() == s2.last());
    }
}

} // verus!
