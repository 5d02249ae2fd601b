//! Physical page-frame allocator.
//!
//! The heap region is carved into `PAGE_SIZE` frames. One descriptor per
//! frame sits at the start of the heap and tags the frame `Empty`, `Taken`
//! or `Last`: a multi-frame allocation is a run `Taken, .., Taken, Last`,
//! a single-frame allocation just `Last`. Frames themselves start at
//! `alloc_start`, the first page boundary after the descriptor table.

use vstd::prelude::*;

use crate::sv39::{
    e_leaf, e_phys, e_valid, lemma_interior_entry_bits, lemma_leaf_entry_bits, lemma_not_same_path,
    lemma_vpn_bound, lvl_mask, same_path, same_path_off, spec_vpn, ACCESS, DIRTY, EXECUTE, GLOBAL,
    READ, READ_EXECUTE, READ_WRITE, RWE, USER, VALID, WRITE,
};

verus! {

broadcast use crate::sv39::lemma_vpn_bound;

/// Bytes per page frame.
pub const PAGE_SIZE: u64 = 4096;

/// State of one page frame.
#[derive(Clone, Copy, PartialEq, Eq, Structural, Debug)]
pub enum PageBits {
    /// The frame is free.
    Empty,
    /// The frame is part of an allocation and more frames of the same
    /// allocation follow it.
    Taken,
    /// The frame is the final frame of an allocation.
    Last,
}

/// Descriptor of one page frame.
#[derive(Clone, Copy)]
pub struct Page {
    /// The frame's allocation state.
    pub flags: PageBits,
}

/// Handle returned by an allocation: the first frame's index and its
/// physical address. A sentinel index of `usize::MAX` reports failure.
pub struct IPage {
    index: usize,
    phys: u64,
}

impl IPage {
    /// The frame index held by the handle.
    pub closed spec fn spec_index(&self) -> usize {
        self.index
    }

    /// The physical address held by the handle.
    pub closed spec fn spec_phys(&self) -> u64 {
        self.phys
    }

    /// Whether the allocation that produced this handle succeeded.
    pub fn available(&self) -> (r: bool)
        ensures
            r == (self.spec_index() != usize::MAX),
    {
        self.index != usize::MAX
    }

    /// Physical address of the first allocated frame.
    pub fn physical(&self) -> (r: u64)
        ensures
            r == self.spec_phys(),
    {
        self.phys
    }
}

/// All frames of `f` in `[b, b + n)` are `Empty`.
pub open spec fn run_empty(f: Seq<PageBits>, b: int, n: int) -> bool {
    forall|j: int| b <= j < b + n ==> f[j] is Empty
}

/// A start index where the allocator can place a run of `n` frames: the
/// run is empty and fits inside the descriptor table (starts at or
/// before `len - n`).
pub open spec fn fit_at(f: Seq<PageBits>, b: int, n: int) -> bool {
    &&& 0 <= b
    &&& b + n <= f.len()
    &&& run_empty(f, b, n)
}

/// Descriptor states after allocating the run `[b, b + n)`: the first
/// `n - 1` frames become `Taken`, the final one `Last`, the rest keep
/// their state.
pub open spec fn mark_allocated(f: Seq<PageBits>, b: int, n: int) -> Seq<PageBits> {
    Seq::new(
        f.len(),
        |j: int|
            if b <= j < b + n - 1 {
                PageBits::Taken
            } else if j == b + n - 1 {
                PageBits::Last
            } else {
                f[j]
            },
    )
}

/// Index of the first frame at or after `b` that is not `Taken`; `f.len()`
/// if every frame from `b` on is `Taken`.
pub open spec fn run_end(f: Seq<PageBits>, b: int) -> int
    decreases f.len() - b,
{
    if b < 0 || b >= f.len() {
        f.len() as int
    } else if !(f[b] is Taken) {
        b
    } else {
        run_end(f, b + 1)
    }
}

/// Descriptor states after freeing the run that starts at `b` and ends at
/// the frame `run_end(f, b)`: that whole range becomes `Empty`, the rest
/// keeps its state.
pub open spec fn clear_run(f: Seq<PageBits>, b: int) -> Seq<PageBits> {
    Seq::new(
        f.len(),
        |j: int|
            if b <= j <= run_end(f, b) {
                PageBits::Empty
            } else {
                f[j]
            },
    )
}

/// Number of frames that are not `Empty`.
pub open spec fn count_allocated(f: Seq<PageBits>) -> int
    decreases f.len(),
{
    if f.len() == 0 {
        0
    } else {
        count_allocated(f.drop_last()) + if f.last() is Empty {
            0int
        } else {
            1int
        }
    }
}

/// Every frame from `s` to the end of the table is `Empty`.
pub open spec fn tail_free_seq(f: Seq<PageBits>, s: int) -> bool {
    forall|j: int| s <= j < f.len() ==> f[j] is Empty
}

/// Page-frame manager over a fixed heap region.
pub struct Pmem {
    descriptors: Vec<Page>,
    alloc_start: u64,
}

impl Pmem {
    /// The descriptor states, one per frame.
    pub closed spec fn flags(&self) -> Seq<PageBits> {
        Seq::new(self.descriptors@.len(), |i: int| self.descriptors@[i].flags)
    }

    /// Physical address of frame 0.
    pub closed spec fn start(&self) -> u64 {
        self.alloc_start
    }

    /// Number of page frames under management.
    pub open spec fn num_pages(&self) -> int {
        self.flags().len() as int
    }

    /// The frame area begins on a page boundary above address zero and
    /// ends within the 64-bit address space.
    pub open spec fn wf(&self) -> bool {
        &&& self.start() % PAGE_SIZE == 0
        &&& self.start() > 0
        &&& self.start() + self.num_pages() * PAGE_SIZE <= u64::MAX
    }

    /// Physical address of the frame with index `i`.
    pub open spec fn frame_addr(&self, i: int) -> int {
        self.start() + i * PAGE_SIZE
    }

    /// Every frame from `s` on is `Empty`.
    pub open spec fn tail_free(&self, s: int) -> bool {
        tail_free_seq(self.flags(), s)
    }

    /// There is a free tail of at least `k` frames: enough headroom for
    /// `k` single-frame allocations, whatever else is allocated.
    pub open spec fn has_tail(&self, k: int) -> bool {
        exists|s: int| 0 <= s && s + k <= self.num_pages() && self.tail_free(s)
    }

    /// Lay out a descriptor table for `heap_size / PAGE_SIZE` frames at
    /// the start of the heap, all `Empty`, and place `alloc_start` at the
    /// first page boundary at or above the end of the table.
    pub fn init(heap_start: u64, heap_size: u64) -> (r: Pmem)
        requires
            heap_start > 0,
            heap_size / PAGE_SIZE <= 0xffff_ffff,
            heap_start + heap_size / PAGE_SIZE + PAGE_SIZE + (heap_size / PAGE_SIZE) * PAGE_SIZE
                <= u64::MAX,
        ensures
            r.wf(),
            r.num_pages() == heap_size / PAGE_SIZE,
            forall|j: int| 0 <= j < r.num_pages() ==> r.flags()[j] is Empty,
            r.start() >= heap_start + heap_size / PAGE_SIZE,
            r.start() < heap_start + heap_size / PAGE_SIZE + PAGE_SIZE,
    {
        let num_pages_w = heap_size / PAGE_SIZE;
        let num_pages: usize = num_pages_w as usize;
        let mut descriptors: Vec<Page> = Vec::new();
        let mut i: usize = 0;
        while i < num_pages
            invariant
                i <= num_pages,
                descriptors@.len() == i,
                forall|j: int| 0 <= j < i ==> descriptors@[j].flags is Empty,
            decreases num_pages - i,
        {
            descriptors.push(Page { flags: PageBits::Empty });
            i = i + 1;
        }
        let table_end = heap_start + num_pages_w;
        let rem = table_end % PAGE_SIZE;
        let alloc_start = if rem == 0 {
            table_end
        } else {
            table_end + (PAGE_SIZE - rem)
        };
        proof {
            assert(alloc_start % PAGE_SIZE == 0) by {
                if rem != 0 {
                    assert((table_end + (PAGE_SIZE - table_end % PAGE_SIZE)) % (PAGE_SIZE as int)
                        == 0) by (nonlinear_arith)
                        requires
                            table_end % PAGE_SIZE != 0,
                            PAGE_SIZE == 4096,
                            table_end <= u64::MAX - PAGE_SIZE,
                    ;
                }
            }
        }
        Pmem { descriptors, alloc_start }
    }

    /// Read-only view of the descriptor table.
    pub fn descriptors(&self) -> (r: &Vec<Page>)
        ensures
            r@.len() == self.flags().len(),
            forall|j: int| 0 <= j < r@.len() ==> r@[j].flags == self.flags()[j],
    {
        &self.descriptors
    }

    /// First-fit allocation of `pages` consecutive frames.
    ///
    /// On success the handle names the first index `b` of the leftmost
    /// fitting run; the run becomes `Taken, .., Taken, Last` and the
    /// handle's address is the frame's page-aligned physical address.
    /// When no run fits, the sentinel handle is returned and nothing
    /// changes.
    pub fn allocate(&mut self, pages: usize) -> (r: IPage)
        requires
            old(self).wf(),
            1 <= pages <= old(self).num_pages(),
        ensures
            final(self).wf(),
            final(self).start() == old(self).start(),
            final(self).num_pages() == old(self).num_pages(),
            r.spec_index() != usize::MAX ==> {
                let b = r.spec_index() as int;
                let n = pages as int;
                &&& fit_at(old(self).flags(), b, n)
                &&& forall|b2: int| 0 <= b2 < b ==> !fit_at(old(self).flags(), b2, n)
                &&& final(self).flags() == mark_allocated(old(self).flags(), b, n)
                &&& r.spec_phys() == old(self).frame_addr(b)
                &&& r.spec_phys() % PAGE_SIZE == 0
            },
            r.spec_index() == usize::MAX ==> {
                &&& forall|b2: int| !fit_at(old(self).flags(), b2, pages as int)
                &&& final(self).flags() == old(self).flags()
                &&& r.spec_phys() == 0
            },
    {
        let ghost f = self.flags();
        let num_pages = self.descriptors.len();
        let n = pages;
        let mut i: usize = 0;
        let mut found: usize = 0;
        let mut begin: usize = usize::MAX;
        while begin == usize::MAX && i < num_pages
            invariant
                self == old(self),
                f == self.flags(),
                num_pages == self.num_pages(),
                1 <= n <= num_pages,
                begin == usize::MAX ==> {
                    &&& i <= num_pages
                    &&& found <= i
                    &&& found < n
                    &&& forall|j: int| i - found <= j < i ==> f[j] is Empty
                    &&& (found == i || !(f[i - found - 1] is Empty))
                    &&& forall|b2: int| 0 <= b2 && b2 + n <= i ==> !run_empty(f, b2, n as int)
                },
                begin != usize::MAX ==> {
                    &&& begin + n <= i + 1 <= num_pages
                    &&& run_empty(f, begin as int, n as int)
                    &&& forall|b2: int| 0 <= b2 < begin ==> !run_empty(f, b2, n as int)
                },
            decreases num_pages - i, (if begin == usize::MAX { 1int } else { 0int }),
        {
            if self.descriptors[i].flags == PageBits::Empty {
                found = found + 1;
                if found == n {
                    begin = i + 1 - n;
                } else {
                    i = i + 1;
                }
            } else {
                found = 0;
                i = i + 1;
            }
        }
        if begin == usize::MAX {
            proof {
                assert forall|b2: int| !fit_at(f, b2, n as int) by {
                    if 0 <= b2 && b2 + n <= num_pages {
                        assert(b2 + n <= i);
                    }
                }
            }
            return IPage { index: usize::MAX, phys: 0 };
        }
        self.descriptors.set(begin + n - 1, Page { flags: PageBits::Last });
        let mut j: usize = begin;
        while j + 1 < begin + n
            invariant
                begin <= j,
                j + 1 <= begin + n,
                begin + n <= self.descriptors@.len(),
                self.wf(),
                self.start() == old(self).start(),
                self.descriptors@.len() == f.len(),
                num_pages == self.num_pages(),
                forall|k: int| begin <= k < j ==> self.descriptors@[k].flags is Taken,
                self.descriptors@[begin + n - 1].flags is Last,
                forall|k: int|
                    0 <= k < f.len() && !(begin <= k < j) && k != begin + n - 1
                        ==> self.descriptors@[k].flags == f[k],
            decreases begin + n - j,
        {
            self.descriptors.set(j, Page { flags: PageBits::Taken });
            j = j + 1;
        }
        proof {
            assert(self.flags() =~= mark_allocated(f, begin as int, n as int));
            assert((begin as u64) * PAGE_SIZE <= (num_pages as u64) * PAGE_SIZE)
                by (nonlinear_arith)
                requires
                    begin <= num_pages,
                    PAGE_SIZE == 4096,
            ;
            assert((self.alloc_start + (begin as u64) * PAGE_SIZE) % (PAGE_SIZE as int) == 0)
                by (nonlinear_arith)
                requires
                    self.alloc_start % PAGE_SIZE == 0,
                    self.alloc_start + (begin as u64) * PAGE_SIZE <= u64::MAX,
                    PAGE_SIZE == 4096,
            ;
        }
        IPage { index: begin, phys: self.alloc_start + (begin as u64) * PAGE_SIZE }
    }

    /// Allocation that also hands the pages out zeroed. Page contents are
    /// not part of this model, so the descriptor-level contract is that of
    /// `alloc`; the zeroing write happens where the raw pages live.
    pub fn zalloc(&mut self, pages: usize) -> (r: IPage)
        requires
            old(self).wf(),
            1 <= pages <= old(self).num_pages(),
        ensures
            final(self).wf(),
            final(self).start() == old(self).start(),
            final(self).num_pages() == old(self).num_pages(),
            r.spec_index() != usize::MAX ==> {
                let b = r.spec_index() as int;
                let n = pages as int;
                &&& fit_at(old(self).flags(), b, n)
                &&& forall|b2: int| 0 <= b2 < b ==> !fit_at(old(self).flags(), b2, n)
                &&& final(self).flags() == mark_allocated(old(self).flags(), b, n)
                &&& r.spec_phys() == old(self).frame_addr(b)
                &&& r.spec_phys() % PAGE_SIZE == 0
            },
            r.spec_index() == usize::MAX ==> {
                &&& forall|b2: int| !fit_at(old(self).flags(), b2, pages as int)
                &&& final(self).flags() == old(self).flags()
                &&& r.spec_phys() == 0
            },
    {
        self.allocate(pages)
    }

    /// Free the run that starts at the handle's index: every `Taken`
    /// frame from there up to and including the closing `Last` frame
    /// becomes `Empty`. Freeing a run that does not close with `Last` is
    /// a double free and is excluded by the precondition.
    pub fn dealloc(&mut self, pages: IPage)
        requires
            old(self).wf(),
            pages.spec_index() != usize::MAX,
            pages.spec_index() < old(self).num_pages(),
            run_end(old(self).flags(), pages.spec_index() as int) < old(self).num_pages(),
            old(self).flags()[run_end(old(self).flags(), pages.spec_index() as int)] is Last,
        ensures
            final(self).wf(),
            final(self).start() == old(self).start(),
            final(self).flags() == clear_run(old(self).flags(), pages.spec_index() as int),
    {
        let ghost f = self.flags();
        let ghost k = run_end(f, pages.spec_index() as int);
        let np = self.descriptors.len();
        proof {
            assert(np == f.len());
        }
        let mut index = pages.index;
        proof {
            lemma_run_end_range(f, index as int);
        }
        while self.descriptors[index].flags == PageBits::Taken
            invariant
                self.descriptors@.len() == f.len(),
                f.len() <= usize::MAX,
                self.start() == old(self).start(),
                self.wf(),
                pages.spec_index() <= index,
                index <= k < f.len(),
                run_end(f, pages.spec_index() as int) == k,
                f[k] is Last,
                forall|j: int|
                    pages.spec_index() <= j < index ==> self.descriptors@[j].flags is Empty,
                forall|j: int|
                    0 <= j < f.len() && !(pages.spec_index() <= j < index)
                        ==> self.descriptors@[j].flags == f[j],
                forall|j: int| pages.spec_index() <= j < index ==> f[j] is Taken,
                run_end(f, index as int) == k,
            decreases f.len() - index,
        {
            proof {
                assert(f[index as int] is Taken);
                lemma_run_end_step(f, index as int);
                lemma_run_end_range(f, index as int + 1);
                assert(index < k);
            }
            self.descriptors.set(index, Page { flags: PageBits::Empty });
            index = index + 1;
        }
        proof {
            assert(index == k);
        }
        self.descriptors.set(index, Page { flags: PageBits::Empty });
        proof {
            assert(self.flags() =~= clear_run(f, pages.spec_index() as int));
        }
    }

    /// Free by physical address: derive the frame index from the address
    /// and free the run that starts there. The address must be page
    /// aligned and inside the frame area.
    pub fn dealloc_phys(&mut self, phys: u64)
        requires
            old(self).wf(),
            phys % PAGE_SIZE == 0,
            phys >= old(self).start(),
            (phys - old(self).start()) / (PAGE_SIZE as int) < old(self).num_pages(),
            run_end(old(self).flags(), (phys - old(self).start()) / (PAGE_SIZE as int) as int) < old(
                self,
            ).num_pages(),
            old(self).flags()[run_end(
                old(self).flags(),
                (phys - old(self).start()) / (PAGE_SIZE as int) as int,
            )] is Last,
        ensures
            final(self).wf(),
            final(self).start() == old(self).start(),
            final(self).flags() == clear_run(
                old(self).flags(),
                (phys - old(self).start()) / (PAGE_SIZE as int) as int,
            ),
    {
        let ghost fidx = (phys - old(self).start()) / (PAGE_SIZE as int);
        let np = self.descriptors.len();
        let index_w = (phys - self.alloc_start) / PAGE_SIZE;
        proof {
            assert(index_w == fidx);
            assert(fidx < np);
        }
        let index: usize = index_w as usize;
        proof {
            assert(index as int == fidx);
        }
        self.dealloc(IPage { index, phys });
    }
}

/// `run_end` stays within the descriptor table and everything strictly
/// before it is `Taken`.
pub proof fn lemma_run_end_range(f: Seq<PageBits>, b: int)
    requires
        0 <= b <= f.len(),
    ensures
        b <= run_end(f, b) <= f.len(),
        forall|j: int| b <= j < run_end(f, b) ==> f[j] is Taken,
        run_end(f, b) < f.len() ==> !(f[run_end(f, b)] is Taken),
    decreases f.len() - b,
{
    if b < f.len() && f[b] is Taken {
        lemma_run_end_range(f, b + 1);
    }
}

/// Walking one `Taken` frame forward does not change where the run ends.
pub proof fn lemma_run_end_step(f: Seq<PageBits>, b: int)
    requires
        0 <= b < f.len(),
        f[b] is Taken,
    ensures
        run_end(f, b) == run_end(f, b + 1),
{
}

/// If `[b, k)` is all `Taken` and frame `k` is not, the run ends at `k`.
pub proof fn lemma_run_end_at(f: Seq<PageBits>, b: int, k: int)
    requires
        0 <= b <= k < f.len(),
        forall|j: int| b <= j < k ==> f[j] is Taken,
        !(f[k] is Taken),
    ensures
        run_end(f, b) == k,
    decreases k - b,
{
    if b < k {
        lemma_run_end_at(f, b + 1, k);
    }
}

/// Pmem round trip: allocating a fitting run of `n` frames at `b` and
/// freeing that same run returns every descriptor to its prior state; in
/// particular a heap that was all `Empty` is all `Empty` again.
pub proof fn lemma_alloc_dealloc_round_trip(f: Seq<PageBits>, b: int, n: int)
    requires
        0 <= b,
        1 <= n,
        b + n <= f.len(),
        run_empty(f, b, n),
    ensures
        run_end(mark_allocated(f, b, n), b) == b + n - 1,
        mark_allocated(f, b, n)[b + n - 1] is Last,
        clear_run(mark_allocated(f, b, n), b) == f,
{
    let g = mark_allocated(f, b, n);
    lemma_run_end_at(g, b, b + n - 1);
    assert forall|j: int| 0 <= j < f.len() implies clear_run(g, b)[j] == f[j] by {
        if b <= j <= b + n - 1 {
            assert(f[j] is Empty);
        }
    }
    assert(clear_run(g, b) =~= f);
}

/// Pmem packing: an allocation claims exactly its own `n` frames. Every
/// claimed frame was `Empty` before and is not `Empty` afterwards, every
/// other frame keeps its state, and the count of allocated frames grows
/// by exactly `n`. Runs of successive allocations therefore never
/// overlap and cover exactly the sum of their lengths.
pub proof fn lemma_alloc_packing(f: Seq<PageBits>, b: int, n: int)
    requires
        0 <= b,
        1 <= n,
        b + n <= f.len(),
        run_empty(f, b, n),
    ensures
        forall|j: int| b <= j < b + n ==> f[j] is Empty && !(mark_allocated(f, b, n)[j] is Empty),
        forall|j: int|
            0 <= j < f.len() && !(b <= j < b + n) ==> mark_allocated(f, b, n)[j] == f[j],
        count_allocated(mark_allocated(f, b, n)) == count_allocated(f) + n,
{
    let g = mark_allocated(f, b, n);
    lemma_count_allocated_fill(f, g, b, n, f.len() as int);
    assert(f.take(f.len() as int) =~= f);
    assert(g.take(f.len() as int) =~= g);
}

proof fn lemma_count_allocated_fill(f: Seq<PageBits>, g: Seq<PageBits>, b: int, n: int, len: int)
    requires
        0 <= b,
        1 <= n,
        b + n <= len <= f.len(),
        g.len() == f.len(),
        forall|j: int| b <= j < b + n ==> f[j] is Empty && !(g[j] is Empty),
        forall|j: int| 0 <= j < f.len() && !(b <= j < b + n) ==> g[j] == f[j],
    ensures
        count_allocated(g.take(len)) == count_allocated(f.take(len)) + n,
    decreases len - (b + n),
{
    if len == b + n {
        lemma_count_allocated_prefix(f, g, b, b + n);
    } else {
        lemma_count_allocated_fill(f, g, b, n, len - 1);
        assert(f.take(len).drop_last() =~= f.take(len - 1));
        assert(g.take(len).drop_last() =~= g.take(len - 1));
        assert(g.take(len).last() == f.take(len).last());
    }
}

proof fn lemma_count_allocated_prefix(f: Seq<PageBits>, g: Seq<PageBits>, b: int, len: int)
    requires
        0 <= b <= len <= f.len(),
        g.len() == f.len(),
        forall|j: int| b <= j < len ==> f[j] is Empty && !(g[j] is Empty),
        forall|j: int| 0 <= j < b ==> g[j] == f[j],
    ensures
        count_allocated(g.take(len)) == count_allocated(f.take(len)) + (len - b),
    decreases len,
{
    if len == 0 {
        assert(f.take(0) =~= g.take(0));
    } else if len <= b {
        assert(f.take(len) =~= g.take(len));
    } else {
        lemma_count_allocated_prefix(f, g, b, len - 1);
        assert(f.take(len).drop_last() =~= f.take(len - 1));
        assert(g.take(len).drop_last() =~= g.take(len - 1));
        assert(f.take(len).last() is Empty);
        assert(!(g.take(len).last() is Empty));
    }
}

// ========================= Sv39 page tables =========================

/// One 64-bit Sv39 page-table entry.
#[derive(Clone, Copy)]
pub struct Entry(u64);

impl Entry {
    /// The raw entry word.
    pub closed spec fn spec_bits(&self) -> u64 {
        self.0
    }

    /// Whether the entry is present.
    pub fn is_valid(&self) -> (r: bool)
        ensures
            r == e_valid(self.spec_bits()),
    {
        self.0 & VALID != 0
    }

    /// Whether the entry is a leaf (read, write or execute set).
    pub fn is_leaf(&self) -> (r: bool)
        ensures
            r == e_leaf(self.spec_bits()),
    {
        self.0 & RWE != 0
    }

    /// Overwrite the raw entry word.
    pub fn set_entry(&mut self, entry: u64)
        ensures
            final(self).spec_bits() == entry,
    {
        self.0 = entry;
    }

    /// Read the raw entry word.
    pub fn get_entry(&self) -> (r: u64)
        ensures
            r == self.spec_bits(),
    {
        self.0
    }

    /// The physical address the entry points at.
    pub fn get_phys(&self) -> (r: u64)
        ensures
            r == e_phys(self.spec_bits()),
    {
        (self.0 & !0x3ff) << 2
    }
}

/// One page table: 512 entries, and an owned child table behind every
/// valid non-leaf entry. Owning the children models the physical pages
/// the original follows by raw pointer.
pub struct Table {
    entries: Vec<Entry>,
    children: Vec<Option<Box<Table>>>,
}

impl Table {
    /// The raw word of the entry in slot `i`.
    pub closed spec fn entry_at(&self, i: int) -> u64 {
        self.entries@[i].spec_bits()
    }

    /// Whether slot `i` holds an owned child table.
    pub closed spec fn has_child(&self, i: int) -> bool {
        self.children@[i] is Some
    }

    /// The child table behind slot `i`.
    pub closed spec fn child(&self, i: int) -> Table {
        *self.children@[i]->Some_0
    }

    /// Both backing vectors have the full 512 slots.
    pub closed spec fn len_ok(&self) -> bool {
        &&& self.entries@.len() == 512
        &&& self.children@.len() == 512
    }

    /// Slot `i` holds a pointer to a next-level table.
    pub open spec fn interior(&self, i: int) -> bool {
        e_valid(self.entry_at(i)) && !e_leaf(self.entry_at(i))
    }

    /// The slot's shape is right for a table at level `lvl`: an interior
    /// slot owns a child table (and can only appear above level 0),
    /// every other slot owns nothing.
    pub open spec fn slot_shape_ok(&self, i: int, lvl: nat) -> bool {
        if self.interior(i) {
            lvl > 0 && self.has_child(i)
        } else {
            !self.has_child(i)
        }
    }

    /// Structural well-formedness of a table treated as level `lvl`:
    /// every slot has the right shape and every owned child is a well
    /// formed table of the level below.
    pub open spec fn wf(&self, lvl: nat) -> bool
        decreases lvl,
    {
        &&& self.len_ok()
        &&& forall|i: int| 0 <= i < 512 ==> #[trigger] self.slot_shape_ok(i, lvl)
        &&& (lvl > 0 ==> forall|i: int|
            0 <= i < 512 && self.interior(i) ==> (#[trigger] self.child(i)).wf((lvl - 1) as nat))
    }

    /// No leaf entries above level 0: every valid entry of an upper
    /// table points at the next level. This is the shape the kernel
    /// keeps, since it only ever maps 4 KiB pages.
    pub open spec fn no_superpages(&self, lvl: nat) -> bool
        decreases lvl,
    {
        &&& (lvl > 0 ==> forall|i: int|
            0 <= i < 512 ==> !(e_valid(#[trigger] self.entry_at(i)) && e_leaf(self.entry_at(i))))
        &&& (lvl > 0 ==> forall|i: int|
            0 <= i < 512 && self.interior(i) && self.has_child(i) ==> (
            #[trigger] self.child(i)).no_superpages((lvl - 1) as nat))
    }
}

/// An all-invalid table is well formed and maps nothing at any level.
proof fn lemma_zero_table_wf(t: Table, lvl: nat)
    requires
        t.len_ok(),
        forall|i: int| 0 <= i < 512 ==> t.entry_at(i) == 0,
        forall|i: int| 0 <= i < 512 ==> !t.has_child(i),
    ensures
        t.wf(lvl),
        t.no_superpages(lvl),
{
    assert(0u64 & VALID == 0) by (bit_vector);
    assert forall|i: int| 0 <= i < 512 implies t.slot_shape_ok(i, lvl) && !t.interior(i) && !(
    e_valid(t.entry_at(i)) && e_leaf(t.entry_at(i))) by {
        assert(t.entry_at(i) == 0);
    }
}

/// The address translation a table defines, walking from level `lvl`:
/// follow the slot the virtual page number selects; an invalid entry
/// means unmapped, a leaf yields the entry's physical address with the
/// level's offset bits taken from the virtual address.
pub open spec fn translate_at(t: Table, va: u64, lvl: int) -> Option<u64>
    decreases lvl,
{
    let i = spec_vpn(va, lvl) as int;
    let e = t.entry_at(i);
    if !e_valid(e) {
        None
    } else if e_leaf(e) {
        Some((e_phys(e) & !lvl_mask(lvl)) | (va & lvl_mask(lvl)))
    } else if lvl <= 0 {
        None
    } else {
        translate_at(t.child(i), va, lvl - 1)
    }
}

/// The full three-level walk, starting at a root (level 2) table.
pub open spec fn translate(t: Table, va: u64) -> Option<u64> {
    translate_at(t, va, 2)
}

/// The raw entry word the walk for `va` stops at, from level `lvl`: the
/// first invalid or leaf entry on the way down. For a mapped address
/// this is the leaf that carries its physical page number and its
/// permission bits.
pub open spec fn walk_entry(t: Table, va: u64, lvl: int) -> u64
    decreases lvl,
{
    let i = spec_vpn(va, lvl) as int;
    let e = t.entry_at(i);
    if !e_valid(e) || e_leaf(e) || lvl <= 0 {
        e
    } else {
        walk_entry(t.child(i), va, lvl - 1)
    }
}

/// The entry word a full three-level walk for `va` stops at.
pub open spec fn leaf_entry(t: Table, va: u64) -> u64 {
    walk_entry(t, va, 2)
}

/// The slot index at level `lvl` that `va` selects.
fn vpn_of(va: u64, lvl: usize) -> (r: usize)
    requires
        lvl <= 2,
    ensures
        r == spec_vpn(va, lvl as int),
        r < 512,
    {
    let shift: u64 = 12 + 9 * (lvl as u64);
    let v = (va >> shift) & 0x1ff;
    proof {
        assert((va >> shift) & 0x1ff < 512) by (bit_vector);
    }
    v as usize
}

impl Table {
    /// A fresh table: 512 invalid entries, no children, nothing mapped.
    pub fn new() -> (r: Table)
        ensures
            forall|lvl: nat| r.wf(lvl),
            forall|lvl: nat| r.no_superpages(lvl),
            forall|i: int| 0 <= i < 512 ==> r.entry_at(i) == 0,
            forall|va: u64, lvl: int| translate_at(r, va, lvl) is None,
    {
        let mut entries: Vec<Entry> = Vec::new();
        let mut children: Vec<Option<Box<Table>>> = Vec::new();
        let mut i: usize = 0;
        while i < 512
            invariant
                i <= 512,
                entries@.len() == i,
                children@.len() == i,
                forall|j: int| 0 <= j < i ==> entries@[j].spec_bits() == 0,
                forall|j: int| 0 <= j < i ==> children@[j] is None,
            decreases 512 - i,
        {
            entries.push(Entry(0));
            children.push(None);
            i = i + 1;
        }
        let r = Table { entries, children };
        proof {
            assert forall|lvl: nat| r.wf(lvl) && r.no_superpages(lvl) by {
                lemma_zero_table_wf(r, lvl);
            }
            assert forall|va: u64, lvl: int| translate_at(r, va, lvl) is None by {
                let i2 = spec_vpn(va, lvl) as int;
                assert(spec_vpn(va, lvl) < 512) by {
                    let s = (12 + 9 * lvl) as u64;
                    assert((va >> s) & 0x1ff < 512) by (bit_vector);
                }
                assert(r.entry_at(i2) == 0);
                assert(0u64 & VALID == 0) by (bit_vector);
            }
        }
        r
    }

    /// Number of entries in a table.
    pub fn len() -> (r: usize)
        ensures
            r == 512,
    {
        512
    }
}


/// The walk from level `lvl` down to `level` along `va` meets no leaf
/// entry: every valid entry on the way points at a next-level table.
pub open spec fn path_clear(t: Table, va: u64, level: int, lvl: int) -> bool
    decreases lvl - level,
{
    lvl <= level || {
        let e = t.entry_at(spec_vpn(va, lvl) as int);
        ||| !e_valid(e)
        ||| (!e_leaf(e) && path_clear(t.child(spec_vpn(va, lvl) as int), va, level, lvl - 1))
    }
}

/// A table without superpages has a clear walk for every address: the
/// only leaves sit at level 0, below every possible walk.
pub proof fn lemma_no_superpages_path_clear(t: Table, va: u64, level: int, lvl: int)
    requires
        t.wf(lvl as nat),
        t.no_superpages(lvl as nat),
        0 <= level,
        0 <= lvl <= 2,
    ensures
        path_clear(t, va, level, lvl),
    decreases lvl - level,
{
    if lvl > level {
        let i = spec_vpn(va, lvl) as int;
        assert(spec_vpn(va, lvl) < 512) by {
            let sh = (12 + 9 * lvl) as u64;
            assert((va >> sh) & 0x1ff < 512) by (bit_vector);
        }
        assert(t.slot_shape_ok(i, lvl as nat));
        if e_valid(t.entry_at(i)) {
            assert(!e_leaf(t.entry_at(i)));
            lemma_no_superpages_path_clear(t.child(i), va, level, lvl - 1);
        }
    }
}

impl Table {
    /// Map the page-aligned virtual address `vaddr` to the page-aligned
    /// physical address `paddr` with permission `bits`, placing the leaf
    /// at table level `level`. Missing intermediate tables are allocated
    /// from `pmem` (zeroed, one page each); `has_tail(3)` asks for that
    /// headroom plus one spare frame.
    ///
    /// The ensures capture the page-table round trip: every address on
    /// the same walk path as `vaddr` now translates to `paddr` plus the
    /// level's offset bits (for a level-0 map, `paddr + off` for every
    /// offset within the page), and the translation of every other
    /// address is unchanged.
    pub fn map(root: &mut Table, pmem: &mut Pmem, vaddr: u64, paddr: u64, bits: u64, level: usize)
        requires
            old(root).wf(2),
            old(pmem).wf(),
            vaddr % PAGE_SIZE == 0,
            paddr % PAGE_SIZE == 0,
            bits & RWE != 0,
            bits < 1024,
            level <= 2,
            path_clear(*old(root), vaddr, level as int, 2),
            level < 2 ==> old(pmem).has_tail(3),
        ensures
            final(root).wf(2),
            final(pmem).wf(),
            final(pmem).start() == old(pmem).start(),
            final(pmem).num_pages() == old(pmem).num_pages(),
            forall|j: int|
                0 <= j < old(pmem).num_pages() && !(old(pmem).flags()[j] is Empty)
                    ==> final(pmem).flags()[j] == old(pmem).flags()[j],
            forall|s: int| 0 <= s && old(pmem).tail_free(s) ==> final(pmem).tail_free(s + 2),
            forall|va2: u64|
                !same_path(va2, vaddr, level as int, 2) ==> translate(*final(root), va2)
                    == translate(*old(root), va2),
            forall|va2: u64|
                same_path(va2, vaddr, level as int, 2) ==> translate(*final(root), va2) == Some(
                    (paddr & !lvl_mask(level as int)) | (va2 & lvl_mask(level as int)),
                ),
            forall|va2: u64|
                !same_path(va2, vaddr, level as int, 2) && e_valid(leaf_entry(*old(root), va2))
                    ==> leaf_entry(*final(root), va2) == leaf_entry(*old(root), va2),
            forall|va2: u64|
                same_path(va2, vaddr, level as int, 2) ==> leaf_entry(*final(root), va2) == (paddr
                    >> 2) | bits | VALID,
            level == 0 ==> forall|off: u64|
                off < PAGE_SIZE ==> #[trigger] translate(*final(root), (vaddr + off) as u64)
                    == Some((paddr + off) as u64),
            level == 0 ==> forall|off: u64|
                off < PAGE_SIZE ==> #[trigger] leaf_entry(*final(root), (vaddr + off) as u64) == (
                paddr >> 2) | bits | VALID,
            old(root).no_superpages(2) && level == 0 ==> final(root).no_superpages(2),
    {
        map_rec(root, pmem, vaddr, paddr, bits, level, 2);
        proof {
            if level == 0 {
                assert forall|off: u64| off < PAGE_SIZE implies #[trigger] same_path(
                    (vaddr + off) as u64,
                    vaddr,
                    0,
                    2,
                ) && ((paddr & !lvl_mask(0)) | (((vaddr + off) as u64) & lvl_mask(0))) == (paddr
                    + off) as u64 by {
                    let va2 = (vaddr + off) as u64;
                    assert(same_path_off(va2, vaddr) && ((paddr & !(((1u64 << 12) - 1) as u64)) | (
                    va2 & (((1u64 << 12) - 1) as u64))) == (paddr + off) as u64 && paddr + off
                        <= u64::MAX) by (bit_vector)
                        requires
                            vaddr % 4096 == 0,
                            paddr % 4096 == 0,
                            off < 4096,
                            va2 == (vaddr + off) as u64,
                    ;
                    assert(same_path(va2, vaddr, 0, 2)) by {
                        assert forall|l: int| 0 <= l <= 2 implies spec_vpn(va2, l) == spec_vpn(
                            vaddr,
                            l,
                        ) by {
                            assert(l == 0 || l == 1 || l == 2);
                        }
                    }
                }
                assert forall|off: u64| off < PAGE_SIZE implies #[trigger] translate(
                    *root,
                    (vaddr + off) as u64,
                ) == Some((paddr + off) as u64) by {
                    assert(same_path((vaddr + off) as u64, vaddr, 0, 2));
                }
                assert forall|off: u64| off < PAGE_SIZE implies #[trigger] leaf_entry(
                    *root,
                    (vaddr + off) as u64,
                ) == (paddr >> 2) | bits | VALID by {
                    assert(same_path((vaddr + off) as u64, vaddr, 0, 2));
                }
            }
        }
    }
}

/// After a first-fit allocation of `n` frames, a free tail of the
/// descriptor table only loses its first `n` frames.
pub proof fn lemma_tail_after_alloc(f: Seq<PageBits>, b: int, n: int)
    requires
        1 <= n,
        fit_at(f, b, n),
        forall|b2: int| 0 <= b2 < b ==> !fit_at(f, b2, n),
    ensures
        forall|s: int|
            0 <= s && tail_free_seq(f, s) ==> tail_free_seq(mark_allocated(f, b, n), s + n),
{
    let g = mark_allocated(f, b, n);
    assert forall|s: int| 0 <= s && tail_free_seq(f, s) implies tail_free_seq(g, s + n) by {
        assert forall|j: int| s + n <= j < g.len() implies g[j] is Empty by {
            if b <= j < b + n {
                assert(s + n <= f.len());
                assert(run_empty(f, s, n));
                assert(fit_at(f, s, n));
                assert(false);
            } else {
                assert(g[j] == f[j]);
            }
        }
    }
}

/// Recursive worker for `map`: walk from `lvl` down to `level` along
/// `vaddr`, materialising missing tables, and write the leaf entry.
fn map_rec(
    t: &mut Table,
    pmem: &mut Pmem,
    vaddr: u64,
    paddr: u64,
    bits: u64,
    level: usize,
    lvl: usize,
)
    requires
        old(t).wf(lvl as nat),
        old(pmem).wf(),
        vaddr % PAGE_SIZE == 0,
        paddr % PAGE_SIZE == 0,
        bits & RWE != 0,
        bits < 1024,
        level <= lvl <= 2,
        path_clear(*old(t), vaddr, level as int, lvl as int),
        level < lvl ==> old(pmem).has_tail(lvl - level + 1),
    ensures
        final(t).wf(lvl as nat),
        final(pmem).wf(),
        final(pmem).start() == old(pmem).start(),
        final(pmem).num_pages() == old(pmem).num_pages(),
        forall|j: int|
            0 <= j < old(pmem).num_pages() && !(old(pmem).flags()[j] is Empty)
                ==> final(pmem).flags()[j] == old(pmem).flags()[j],
        forall|s: int|
            0 <= s && old(pmem).tail_free(s) ==> final(pmem).tail_free(s + (lvl - level)),
        forall|va2: u64|
            !same_path(va2, vaddr, level as int, lvl as int) ==> translate_at(
                *final(t),
                va2,
                lvl as int,
            ) == translate_at(*old(t), va2, lvl as int),
        forall|va2: u64|
            same_path(va2, vaddr, level as int, lvl as int) ==> translate_at(
                *final(t),
                va2,
                lvl as int,
            ) == Some((paddr & !lvl_mask(level as int)) | (va2 & lvl_mask(level as int))),
        forall|va2: u64|
            !same_path(va2, vaddr, level as int, lvl as int) && e_valid(
                walk_entry(*old(t), va2, lvl as int),
            ) ==> walk_entry(*final(t), va2, lvl as int) == walk_entry(*old(t), va2, lvl as int),
        forall|va2: u64|
            same_path(va2, vaddr, level as int, lvl as int) ==> walk_entry(*final(t), va2, lvl as int)
                == (paddr >> 2) | bits | VALID,
        old(t).no_superpages(lvl as nat) && level == 0 ==> final(t).no_superpages(lvl as nat),
    decreases lvl,
{
    let i = vpn_of(vaddr, lvl);
    if lvl == level {
        let e_new: u64 = (paddr >> 2) | bits | VALID;
        proof {
            lemma_leaf_entry_bits(paddr, bits, e_new);
        }
        t.entries.set(i, Entry(e_new));
        t.children.set(i, None);
        proof {
            let ft = *t;
            let ot = *old(t);
            assert forall|i2: int| 0 <= i2 < 512 implies ft.slot_shape_ok(i2, lvl as nat) by {
                if i2 != i {
                    assert(ot.slot_shape_ok(i2, lvl as nat));
                    assert(ft.entry_at(i2) == ot.entry_at(i2));
                }
            }
            if lvl > 0 {
                assert forall|i2: int| 0 <= i2 < 512 && ft.interior(i2) implies (
                #[trigger] ft.child(i2)).wf((lvl - 1) as nat) by {
                    assert(i2 != i);
                    assert(ft.entry_at(i2) == ot.entry_at(i2));
                    assert(ft.child(i2) == ot.child(i2));
                }
            }
            assert forall|va2: u64| #[trigger]
                spec_vpn(va2, lvl as int) != spec_vpn(vaddr, lvl as int) implies translate_at(
                ft,
                va2,
                lvl as int,
            ) == translate_at(ot, va2, lvl as int) && walk_entry(ft, va2, lvl as int)
                == walk_entry(ot, va2, lvl as int) by {
                let k = spec_vpn(va2, lvl as int) as int;
                assert(ft.entry_at(k) == ot.entry_at(k));
                if 0 <= k < 512 && ot.interior(k) {
                    assert(ft.child(k) == ot.child(k));
                }
            }
            assert forall|va2: u64| !same_path(va2, vaddr, level as int, lvl as int) implies
                translate_at(ft, va2, lvl as int) == translate_at(ot, va2, lvl as int)
                && walk_entry(ft, va2, lvl as int) == walk_entry(ot, va2, lvl as int) by {
                assert(spec_vpn(va2, lvl as int) != spec_vpn(vaddr, lvl as int));
            }
            assert forall|va2: u64| same_path(va2, vaddr, level as int, lvl as int) implies
                walk_entry(ft, va2, lvl as int) == e_new by {
                assert(spec_vpn(va2, lvl as int) == spec_vpn(vaddr, lvl as int));
            }
        }
    } else {
        let e = t.entries[i].get_entry();
        let ghost s0 = choose|s: int|
            0 <= s && s + (lvl - level + 1) <= old(pmem).num_pages() && old(pmem).tail_free(s);
        if e & VALID == 0 {
            proof {
                assert(!(e & 1 != 0)) by (bit_vector)
                    requires
                        e & 1 == 0,
                ;
            }
            let pg = pmem.zalloc(1);
            proof {
                if pg.spec_index() == usize::MAX {
                    assert(fit_at(old(pmem).flags(), s0, 1));
                    assert(false);
                }
                lemma_tail_after_alloc(old(pmem).flags(), pg.spec_index() as int, 1);
            }
            let phys = pg.physical();
            let e2: u64 = (phys >> 2) | VALID;
            proof {
                lemma_interior_entry_bits(phys, e2);
            }
            t.entries.set(i, Entry(e2));
            t.children.set(i, Some(Box::new(Table::new())));
        } else {
            proof {
                assert(e_valid(e));
                assert(old(t).slot_shape_ok(i as int, lvl as nat));
            }
        }
        let ghost tm = *t;
        let ghost pmm = *pmem;
        proof {
            // Midpoint facts common to both branches.
            let ot = *old(t);
            assert(tm.interior(i as int) && tm.has_child(i as int));
            if e & VALID == 0 {
                assert forall|i2: int| 0 <= i2 < 512 implies tm.slot_shape_ok(i2, lvl as nat) by {
                    if i2 != i {
                        assert(ot.slot_shape_ok(i2, lvl as nat));
                        assert(tm.entry_at(i2) == ot.entry_at(i2));
                    }
                }
                assert forall|i2: int| 0 <= i2 < 512 && tm.interior(i2) implies (
                #[trigger] tm.child(i2)).wf((lvl - 1) as nat) by {
                    if i2 != i {
                        assert(tm.entry_at(i2) == ot.entry_at(i2));
                        assert(tm.child(i2) == ot.child(i2));
                    }
                }
                assert(path_clear(tm.child(i as int), vaddr, level as int, lvl as int - 1)) by {
                    assert(tm.child(i as int).entry_at(
                        spec_vpn(vaddr, lvl as int - 1) as int,
                    ) == 0);
                    assert(!(0u64 & 1 != 0)) by (bit_vector);
                }
                assert forall|va2: u64| translate_at(tm, va2, lvl as int) == translate_at(
                    ot,
                    va2,
                    lvl as int,
                ) && (e_valid(walk_entry(ot, va2, lvl as int)) ==> walk_entry(tm, va2, lvl as int)
                    == walk_entry(ot, va2, lvl as int)) by {
                    let k = spec_vpn(va2, lvl as int) as int;
                    if k == i {
                        assert(translate_at(ot, va2, lvl as int) is None);
                        assert(translate_at(tm.child(i as int), va2, lvl as int - 1) is None);
                        assert(walk_entry(ot, va2, lvl as int) == ot.entry_at(k));
                        assert(!e_valid(walk_entry(ot, va2, lvl as int)));
                    } else {
                        assert(tm.entry_at(k) == ot.entry_at(k));
                        if 0 <= k < 512 && ot.interior(k) {
                            assert(tm.child(k) == ot.child(k));
                        }
                    }
                }
                if ot.no_superpages(lvl as nat) {
                    assert forall|i2: int| 0 <= i2 < 512 implies !(e_valid(
                        #[trigger] tm.entry_at(i2),
                    ) && e_leaf(tm.entry_at(i2))) by {
                        if i2 != i {
                            assert(tm.entry_at(i2) == ot.entry_at(i2));
                        }
                    }
                    assert forall|i2: int|
                        0 <= i2 < 512 && tm.interior(i2) && tm.has_child(i2) implies (
                    #[trigger] tm.child(i2)).no_superpages((lvl - 1) as nat) by {
                        if i2 != i {
                            assert(tm.entry_at(i2) == ot.entry_at(i2));
                            assert(tm.child(i2) == ot.child(i2));
                        }
                    }
                    assert(tm.no_superpages(lvl as nat));
                }
            } else {
                assert(tm == ot);
                assert(!e_leaf(tm.entry_at(i as int)));
            }
            assert(tm.wf(lvl as nat));
            assert(tm.child(i as int).wf((lvl - 1) as nat));
            assert(path_clear(tm.child(i as int), vaddr, level as int, lvl as int - 1));
            // Capacity for the recursive call.
            if level < lvl - 1 {
                if e & VALID == 0 {
                    assert(old(pmem).tail_free(s0));
                    assert(pmm.tail_free(s0 + 1));
                    assert(pmm.has_tail(lvl - 1 - level + 1));
                } else {
                    let s1 = choose|s: int|
                        0 <= s && s + (lvl - level + 1) <= old(pmem).num_pages() && old(
                            pmem,
                        ).tail_free(s);
                    assert(pmm.tail_free(s1));
                    assert(pmm.has_tail(lvl - 1 - level + 1));
                }
            }
        }
        let mut tmp: Option<Box<Table>> = None;
        t.children.set_and_swap(i, &mut tmp);
        let mut boxed = tmp.unwrap();
        map_rec(&mut *boxed, pmem, vaddr, paddr, bits, level, lvl - 1);
        let ghost cn = *boxed;
        let mut tmp2: Option<Box<Table>> = Some(boxed);
        t.children.set_and_swap(i, &mut tmp2);
        proof {
            let ft = *t;
            let ot = *old(t);
            assert(ft.entries@ == tm.entries@);
            assert(ft.children@ == tm.children@.update(i as int, tm.children@.update(
                i as int,
                None,
            )[i as int]).update(i as int, Some(Box::new(cn))));
            assert(ft.child(i as int) == cn);
            assert forall|k: int| 0 <= k < 512 && k != i implies ft.entry_at(k) == tm.entry_at(k)
                && ft.has_child(k) == tm.has_child(k) && ft.child(k) == tm.child(k) by {}
            assert(ft.entry_at(i as int) == tm.entry_at(i as int));
            // Well-formedness of the result.
            assert forall|i2: int| 0 <= i2 < 512 implies ft.slot_shape_ok(i2, lvl as nat) by {
                if i2 != i {
                    assert(tm.slot_shape_ok(i2, lvl as nat));
                }
            }
            assert forall|i2: int| 0 <= i2 < 512 && ft.interior(i2) implies (
            #[trigger] ft.child(i2)).wf((lvl - 1) as nat) by {
                if i2 != i {
                    assert(tm.interior(i2));
                }
            }
            // Translation change and preservation.
            assert forall|va2: u64| !same_path(va2, vaddr, level as int, lvl as int) implies
                translate_at(ft, va2, lvl as int) == translate_at(ot, va2, lvl as int) && (e_valid(
                walk_entry(ot, va2, lvl as int),
            ) ==> walk_entry(ft, va2, lvl as int) == walk_entry(ot, va2, lvl as int)) by {
                let k = spec_vpn(va2, lvl as int) as int;
                if k == i {
                    assert(spec_vpn(va2, lvl as int) == spec_vpn(vaddr, lvl as int));
                    assert(!same_path(va2, vaddr, level as int, lvl as int - 1));
                    assert(translate_at(cn, va2, lvl as int - 1) == translate_at(
                        tm.child(i as int),
                        va2,
                        lvl as int - 1,
                    ));
                    assert(translate_at(tm, va2, lvl as int) == translate_at(ot, va2, lvl as int));
                    assert(walk_entry(ft, va2, lvl as int) == walk_entry(cn, va2, lvl as int - 1));
                    if e_valid(walk_entry(ot, va2, lvl as int)) {
                        if e & VALID == 0 {
                            assert(walk_entry(ot, va2, lvl as int) == ot.entry_at(k));
                            assert(false);
                        } else {
                            assert(walk_entry(ot, va2, lvl as int) == walk_entry(
                                ot.child(k),
                                va2,
                                lvl as int - 1,
                            ));
                            assert(walk_entry(cn, va2, lvl as int - 1) == walk_entry(
                                tm.child(i as int),
                                va2,
                                lvl as int - 1,
                            ));
                        }
                    }
                } else {
                    assert(ft.entry_at(k) == tm.entry_at(k));
                    if 0 <= k < 512 && tm.interior(k) {
                        assert(ft.child(k) == tm.child(k));
                    }
                    assert(translate_at(tm, va2, lvl as int) == translate_at(ot, va2, lvl as int));
                    assert(walk_entry(tm, va2, lvl as int) == walk_entry(ft, va2, lvl as int));
                    if e_valid(walk_entry(ot, va2, lvl as int)) {
                        assert(walk_entry(tm, va2, lvl as int) == walk_entry(ot, va2, lvl as int));
                    }
                }
            }
            assert forall|va2: u64| same_path(va2, vaddr, level as int, lvl as int) implies
                translate_at(ft, va2, lvl as int) == Some(
                (paddr & !lvl_mask(level as int)) | (va2 & lvl_mask(level as int)),
            ) && walk_entry(ft, va2, lvl as int) == (paddr >> 2) | bits | VALID by {
                assert(spec_vpn(va2, lvl as int) == spec_vpn(vaddr, lvl as int));
                assert(same_path(va2, vaddr, level as int, lvl as int - 1)) by {
                    assert forall|l: int| level <= l <= lvl - 1 implies spec_vpn(va2, l)
                        == spec_vpn(vaddr, l) by {}
                }
                assert(translate_at(ft, va2, lvl as int) == translate_at(cn, va2, lvl as int - 1));
                assert(walk_entry(ft, va2, lvl as int) == walk_entry(cn, va2, lvl as int - 1));
            }
            // Free-tail budget: at most one frame was taken here, the
            // rest by the recursive call.
            assert forall|s: int| 0 <= s && old(pmem).tail_free(s) implies pmem.tail_free(
                s + (lvl - level),
            ) by {
                if e & VALID == 0 {
                    assert(pmm.tail_free(s + 1));
                    assert(pmem.tail_free(s + 1 + (lvl - 1 - level)));
                } else {
                    assert(pmm.tail_free(s));
                    assert(pmem.tail_free(s + (lvl - 1 - level)));
                }
            }
            // No superpages is kept for level-0 maps.
            if ot.no_superpages(lvl as nat) && level == 0 {
                assert(tm.no_superpages(lvl as nat));
                assert forall|i2: int| 0 <= i2 < 512 implies !(e_valid(
                    #[trigger] ft.entry_at(i2),
                ) && e_leaf(ft.entry_at(i2))) by {
                    assert(ft.entry_at(i2) == tm.entry_at(i2));
                }
                assert forall|i2: int| 0 <= i2 < 512 && ft.interior(i2) && ft.has_child(i2)
                    implies (#[trigger] ft.child(i2)).no_superpages((lvl - 1) as nat) by {
                    if i2 == i {
                        assert(tm.child(i2).no_superpages((lvl - 1) as nat));
                        assert(cn.no_superpages((lvl - 1) as nat));
                    } else {
                        assert(tm.interior(i2) && tm.has_child(i2));
                        assert(ft.child(i2) == tm.child(i2));
                    }
                }
            }
        }
    }
}



impl Table {
    /// Walk the tables from the root and translate `vaddr`; `None` when
    /// some entry on the walk is invalid.
    pub fn virt_to_phys(root: &Table, vaddr: u64) -> (r: Option<u64>)
        requires
            root.wf(2),
        ensures
            r == translate(*root, vaddr),
    {
        walk(root, vaddr, 2)
    }
}

/// Recursive worker for `virt_to_phys`.
fn walk(t: &Table, vaddr: u64, lvl: usize) -> (r: Option<u64>)
    requires
        t.wf(lvl as nat),
        lvl <= 2,
    ensures
        r == translate_at(*t, vaddr, lvl as int),
    decreases lvl,
{
    let i = vpn_of(vaddr, lvl);
    let e = t.entries[i];
    if !e.is_valid() {
        None
    } else if e.is_leaf() {
        let shift: u64 = 12 + 9 * (lvl as u64);
        proof {
            assert(1u64 << shift >= 1) by (bit_vector)
                requires
                    shift == 12 || shift == 21 || shift == 30,
            ;
        }
        let mask: u64 = (1u64 << shift) - 1;
        Some((e.get_phys() & !mask) | (vaddr & mask))
    } else {
        proof {
            assert(t.slot_shape_ok(i as int, lvl as nat));
        }
        match &t.children[i] {
            Some(b) => walk(b, vaddr, lvl - 1),
            None => {
                proof {
                    assert(false);
                }
                None
            },
        }
    }
}

/// Page base of the range `id_map_range` maps: `start` rounded down.
pub open spec fn id_map_base(start: u64) -> int {
    start - start % PAGE_SIZE
}

/// Number of pages `id_map_range` maps: at least one, else the count
/// that covers `[base, end)`.
pub open spec fn id_map_pages(start: u64, end: u64) -> int {
    if end <= id_map_base(start) {
        1
    } else {
        (end - id_map_base(start) + (PAGE_SIZE - 1)) / (PAGE_SIZE as int)
    }
}

/// Identity-map the whole byte range `[start, end)` with permission
/// `bits`: round `start` down to its page, map at least one page, one
/// page at a time, each to itself.
///
/// Afterwards every address of the covered pages translates to itself;
/// the translation of every Sv39 address outside them is unchanged.
pub fn id_map_range(root: &mut Table, alloc: &mut Pmem, start: u64, end: u64, bits: u64)
    requires
        old(root).wf(2),
        old(root).no_superpages(2),
        old(alloc).wf(),
        start <= end,
        end < (1u64 << 39),
        bits & RWE != 0,
        bits < 1024,
        old(alloc).has_tail(2 * id_map_pages(start, end) + 1),
    ensures
        final(root).wf(2),
        final(root).no_superpages(2),
        final(alloc).wf(),
        final(alloc).start() == old(alloc).start(),
        final(alloc).num_pages() == old(alloc).num_pages(),
        forall|j: int|
            0 <= j < old(alloc).num_pages() && !(old(alloc).flags()[j] is Empty)
                ==> final(alloc).flags()[j] == old(alloc).flags()[j],
        forall|s: int|
            0 <= s && old(alloc).tail_free(s) ==> final(alloc).tail_free(
                s + 2 * id_map_pages(start, end),
            ),
        forall|off: int|
            0 <= off < id_map_pages(start, end) * PAGE_SIZE ==> #[trigger] translate(
                *final(root),
                (id_map_base(start) + off) as u64,
            ) == Some((id_map_base(start) + off) as u64),
        forall|va2: u64|
            va2 < (1u64 << 39) && !(id_map_base(start) <= va2 & !0xfff
                && va2 & !0xfff < id_map_base(start) + id_map_pages(start, end) * PAGE_SIZE)
                ==> #[trigger] translate(*final(root), va2) == translate(*old(root), va2),
        forall|off: int|
            0 <= off < id_map_pages(start, end) * PAGE_SIZE ==> #[trigger] leaf_entry(
                *final(root),
                (id_map_base(start) + off) as u64,
            ) == ((((id_map_base(start) + off) as u64) & !0xfff) >> 2) | bits | VALID,
        forall|va2: u64|
            va2 < (1u64 << 39) && !(id_map_base(start) <= va2 & !0xfff
                && va2 & !0xfff < id_map_base(start) + id_map_pages(start, end) * PAGE_SIZE)
                && e_valid(leaf_entry(*old(root), va2)) ==> #[trigger] leaf_entry(
                *final(root),
                va2,
            ) == leaf_entry(*old(root), va2),
{
    let ghost base_g = id_map_base(start);
    let ghost pages_g = id_map_pages(start, end);
    let base = start & !(PAGE_SIZE - 1);
    proof {
        assert(start & !0xfffu64 == start - start % 4096 && (start & !0xfffu64) % 4096 == 0)
            by (bit_vector);
    }
    let diff = end - base;
    let pages: u64 = if diff == 0 {
        1
    } else {
        (diff + (PAGE_SIZE - 1)) / PAGE_SIZE
    };
    proof {
        assert(pages == pages_g);
        assert(pages_g >= 1);
        assert(1u64 << 39 == 0x80_0000_0000) by (bit_vector);
        assert(base_g + pages_g * (PAGE_SIZE as int) <= end + PAGE_SIZE) by (nonlinear_arith)
            requires
                0 <= base_g <= start <= end,
                PAGE_SIZE == 4096,
                pages_g == if end <= base_g { 1int } else {
                    (end - base_g + (PAGE_SIZE - 1)) / (PAGE_SIZE as int)
                },
        ;
    }
    let mut addr = base;
    let mut i: u64 = 0;
    while i < pages
        invariant
            root.wf(2),
            root.no_superpages(2),
            alloc.wf(),
            alloc.start() == old(alloc).start(),
            alloc.num_pages() == old(alloc).num_pages(),
            0 <= i <= pages,
            pages == pages_g,
            base == base_g,
            addr % PAGE_SIZE == 0,
            addr == base_g + i * PAGE_SIZE,
            base_g + pages_g * (PAGE_SIZE as int) <= end + PAGE_SIZE,
            end < 0x80_0000_0000,
            bits & RWE != 0,
            bits < 1024,
            forall|j: int|
                0 <= j < old(alloc).num_pages() && !(old(alloc).flags()[j] is Empty)
                    ==> alloc.flags()[j] == old(alloc).flags()[j],
            forall|s: int|
                0 <= s && old(alloc).tail_free(s) ==> alloc.tail_free(s + 2 * i),
            alloc.has_tail(2 * (pages_g - i) + 1),
            forall|off: int|
                0 <= off < i * PAGE_SIZE ==> #[trigger] translate(
                    *root,
                    (base_g + off) as u64,
                ) == Some((base_g + off) as u64),
            forall|va2: u64|
                va2 < (1u64 << 39) && !(base_g <= va2 & !0xfff && va2 & !0xfff < base_g + pages_g
                    * PAGE_SIZE) ==> #[trigger] translate(*root, va2) == translate(*old(root), va2),
            forall|off: int|
                0 <= off < i * PAGE_SIZE ==> #[trigger] leaf_entry(
                    *root,
                    (base_g + off) as u64,
                ) == ((((base_g + off) as u64) & !0xfff) >> 2) | bits | VALID,
            forall|va2: u64|
                va2 < (1u64 << 39) && !(base_g <= va2 & !0xfff && va2 & !0xfff < base_g + pages_g
                    * PAGE_SIZE) && e_valid(leaf_entry(*old(root), va2)) ==> #[trigger] leaf_entry(
                    *root,
                    va2,
                ) == leaf_entry(*old(root), va2),
        decreases pages - i,
    {
        let ghost pre_root = *root;
        let ghost pre_alloc = *alloc;
        proof {
            assert(1u64 << 39 == 0x80_0000_0000) by (bit_vector);
            assert((i + 1) * (PAGE_SIZE as int) <= pages_g * (PAGE_SIZE as int));
            assert(addr + PAGE_SIZE <= base_g + pages_g * (PAGE_SIZE as int));
            assert(addr < (1u64 << 39));
            lemma_no_superpages_path_clear(*root, addr, 0, 2);
            let s0 = choose|s: int|
                0 <= s && s + (2 * (pages_g - i) + 1) <= alloc.num_pages() && alloc.tail_free(s);
            assert(alloc.has_tail(3));
        }
        Table::map(root, alloc, addr, addr, bits, 0);
        proof {
            let ghost nr = *root;
            assert forall|off: int| 0 <= off < (i + 1) * PAGE_SIZE implies #[trigger] translate(
                nr,
                (base_g + off) as u64,
            ) == Some((base_g + off) as u64) by {
                let va3 = (base_g + off) as u64;
                if off < i * PAGE_SIZE {
                    if va3 & !0xfff == addr {
                        assert((base_g + off) < addr) by (nonlinear_arith)
                            requires
                                0 <= off < i * PAGE_SIZE,
                                addr == base_g + i * PAGE_SIZE,
                                PAGE_SIZE == 4096,
                        ;
                        assert(va3 & !0xfff <= va3) by (bit_vector);
                        assert(false);
                    }
                    lemma_not_same_path(va3, addr);
                    assert(translate(nr, va3) == translate(pre_root, va3));
                } else {
                    let o2 = (off - i * PAGE_SIZE) as u64;
                    assert(o2 < PAGE_SIZE);
                    assert(va3 == (addr + o2) as u64);
                    assert(translate(nr, (addr + o2) as u64) == Some((addr + o2) as u64));
                }
            }
            assert forall|va2: u64|
                va2 < (1u64 << 39) && !(base_g <= va2 & !0xfff && va2 & !0xfff < base_g + pages_g
                    * PAGE_SIZE) implies #[trigger] translate(nr, va2) == translate(
                *old(root),
                va2,
            ) by {
                crate::sv39::lemma_floor_facts(va2);
                if va2 & !0xfff == addr {
                    assert(base_g <= addr && addr + PAGE_SIZE <= base_g + pages_g * (
                    PAGE_SIZE as int));
                    assert(false);
                }
                lemma_not_same_path(va2, addr);
                assert(translate(nr, va2) == translate(pre_root, va2));
            }
            assert forall|off: int| 0 <= off < (i + 1) * PAGE_SIZE implies #[trigger] leaf_entry(
                nr,
                (base_g + off) as u64,
            ) == ((((base_g + off) as u64) & !0xfff) >> 2) | bits | VALID by {
                let va3 = (base_g + off) as u64;
                crate::sv39::lemma_floor_facts(va3);
                if off < i * PAGE_SIZE {
                    if va3 & !0xfff == addr {
                        assert((base_g + off) < addr) by (nonlinear_arith)
                            requires
                                0 <= off < i * PAGE_SIZE,
                                addr == base_g + i * PAGE_SIZE,
                                PAGE_SIZE == 4096,
                        ;
                        assert(false);
                    }
                    lemma_not_same_path(va3, addr);
                    assert(leaf_entry(pre_root, va3) == (((va3 & !0xfffu64)) >> 2) | bits | VALID);
                    lemma_leaf_entry_bits(
                        (va3 & !0xfffu64) as u64,
                        bits,
                        ((va3 & !0xfffu64) >> 2) | bits | VALID,
                    );
                    assert(e_valid(leaf_entry(pre_root, va3)));
                    assert(leaf_entry(nr, va3) == leaf_entry(pre_root, va3));
                } else {
                    let o2 = (off - i * PAGE_SIZE) as u64;
                    assert(o2 < PAGE_SIZE);
                    assert(va3 == (addr + o2) as u64);
                    assert(leaf_entry(nr, (addr + o2) as u64) == (addr >> 2) | bits | VALID);
                    assert(va3 & !0xfffu64 == addr) by (bit_vector)
                        requires
                            va3 == (addr + o2) as u64,
                            addr % 4096 == 0,
                            o2 < 4096,
                            addr <= u64::MAX - 4096,
                    ;
                }
            }
            assert forall|va2: u64|
                va2 < (1u64 << 39) && !(base_g <= va2 & !0xfff && va2 & !0xfff < base_g + pages_g
                    * PAGE_SIZE) && e_valid(leaf_entry(*old(root), va2)) implies #[trigger] leaf_entry(
                nr,
                va2,
            ) == leaf_entry(*old(root), va2) by {
                crate::sv39::lemma_floor_facts(va2);
                if va2 & !0xfff == addr {
                    assert(base_g <= addr && addr + PAGE_SIZE <= base_g + pages_g * (
                    PAGE_SIZE as int));
                    assert(false);
                }
                lemma_not_same_path(va2, addr);
                assert(leaf_entry(pre_root, va2) == leaf_entry(*old(root), va2));
                assert(e_valid(leaf_entry(pre_root, va2)));
                assert(leaf_entry(nr, va2) == leaf_entry(pre_root, va2));
            }
            assert forall|s: int| 0 <= s && old(alloc).tail_free(s) implies alloc.tail_free(
                s + 2 * (i + 1),
            ) by {
                assert(pre_alloc.tail_free(s + 2 * i));
                assert(alloc.tail_free(s + 2 * i + 2));
            }
            assert(alloc.has_tail(2 * (pages_g - (i + 1)) + 1)) by {
                let s0 = choose|s: int|
                    0 <= s && s + (2 * (pages_g - i) + 1) <= pre_alloc.num_pages()
                        && pre_alloc.tail_free(s);
                assert(alloc.tail_free(s0 + 2));
            }
        }
        proof {
            assert((addr + 4096) % 4096 == 0) by (nonlinear_arith)
                requires
                    addr % 4096 == 0,
                    addr + 4096 <= u64::MAX,
            ;
        }
        addr = addr + PAGE_SIZE;
        i = i + 1;
    }
}



/// Concatenation holds an element exactly when one part does.
pub proof fn lemma_concat_contains(a: Seq<u64>, b: Seq<u64>, x: u64)
    ensures
        (a + b).contains(x) <==> a.contains(x) || b.contains(x),
{
    if (a + b).contains(x) {
        let i = choose|i: int| 0 <= i < (a + b).len() && (a + b)[i] == x;
        if i < a.len() {
            assert(a[i] == x);
        } else {
            assert(b[i - a.len()] == x);
        }
    }
    if a.contains(x) {
        let i = choose|i: int| 0 <= i < a.len() && a[i] == x;
        assert((a + b)[i] == x);
    }
    if b.contains(x) {
        let i = choose|i: int| 0 <= i < b.len() && b[i] == x;
        assert((a + b)[a.len() + i] == x);
    }
}

/// Halves of a duplicate-free concatenation are duplicate free and
/// share no element.
pub proof fn lemma_no_dup_split(a: Seq<u64>, b: Seq<u64>)
    requires
        (a + b).no_duplicates(),
    ensures
        a.no_duplicates(),
        b.no_duplicates(),
        forall|x: u64| !(a.contains(x) && #[trigger] b.contains(x)),
{
    assert forall|i: int, j: int|
        0 <= i < a.len() && 0 <= j < a.len() && i != j implies a[i] != a[j] by {
        assert((a + b)[i] == a[i] && (a + b)[j] == a[j]);
    }
    assert forall|i: int, j: int|
        0 <= i < b.len() && 0 <= j < b.len() && i != j implies b[i] != b[j] by {
        assert((a + b)[a.len() + i] == b[i] && (a + b)[a.len() + j] == b[j]);
    }
    assert forall|x: u64| !(a.contains(x) && #[trigger] b.contains(x)) by {
        if a.contains(x) && b.contains(x) {
            let i = choose|i: int| 0 <= i < a.len() && a[i] == x;
            let j = choose|j: int| 0 <= j < b.len() && b[j] == x;
            assert((a + b)[i] == x && (a + b)[a.len() + j] == x);
        }
    }
}

/// Physical addresses of every valid entry of a table (and, below
/// interior entries, of its subtables), walking the slots from `i` on:
/// the pages `unmap` hands back to the frame allocator.
#[verifier::opaque]
pub open spec fn tree_phys_from(t: Table, lvl: int, i: int) -> Seq<u64>
    decreases lvl, 512 - i,
{
    if i >= 512 || i < 0 || lvl < 0 {
        Seq::empty()
    } else {
        let e = t.entry_at(i);
        (if e_valid(e) {
            seq![e_phys(e)] + (if !e_leaf(e) && lvl > 0 && t.has_child(i) {
                tree_phys_from(t.child(i), lvl - 1, 0)
            } else {
                Seq::empty()
            })
        } else {
            Seq::empty()
        }) + tree_phys_from(t, lvl, i + 1)
    }
}

/// The whole table's frame addresses.
pub open spec fn tree_phys(t: Table, lvl: int) -> Seq<u64> {
    tree_phys_from(t, lvl, 0)
}

/// Every listed frame is a page-aligned, single-page (`Last`) allocation
/// inside the frame area: exactly what `dealloc_phys` can take back.
pub open spec fn frames_ok(p: Pmem, s: Seq<u64>) -> bool {
    forall|a: u64|
        #[trigger] s.contains(a) ==> a % PAGE_SIZE == 0 && p.start() <= a && (a - p.start()) / (
        PAGE_SIZE as int) < p.num_pages() && p.flags()[(a - p.start()) / (PAGE_SIZE as int)] is Last
}

/// A page-aligned address is reproduced from its frame index.
proof fn lemma_frame_addr_exact(start: u64, a: u64)
    requires
        start % PAGE_SIZE == 0,
        a % PAGE_SIZE == 0,
        start <= a,
    ensures
        start + ((a - start) / (PAGE_SIZE as int)) * PAGE_SIZE == a,
{
    let d = a - start;
    assert(d % (PAGE_SIZE as int) == 0 && d == (d / (PAGE_SIZE as int)) * (PAGE_SIZE as int))
        by (nonlinear_arith)
        requires
            (start as int) % (PAGE_SIZE as int) == 0,
            (a as int) % (PAGE_SIZE as int) == 0,
            d == a - start,
            0 <= d,
            PAGE_SIZE == 4096,
    ;
}

impl Table {
    /// Tear the table down: free every page a valid entry points at —
    /// interior entries' subtables included, depth first — back to the
    /// frame allocator, leaving the table itself empty. Exactly the
    /// listed frames change, and all of them end `Empty`; the frames
    /// must be distinct single-page allocations, else the walk would
    /// free a page twice, which `dealloc` refuses.
    pub fn unmap(&mut self, pmem: &mut Pmem)
        requires
            old(self).wf(2),
            old(pmem).wf(),
            frames_ok(*old(pmem), tree_phys(*old(self), 2)),
            tree_phys(*old(self), 2).no_duplicates(),
        ensures
            final(pmem).wf(),
            final(pmem).start() == old(pmem).start(),
            final(pmem).num_pages() == old(pmem).num_pages(),
            final(self).wf(2),
            final(self).no_superpages(2),
            forall|i: int| 0 <= i < 512 ==> !e_valid(#[trigger] final(self).entry_at(i)),
            forall|va: u64| #[trigger] translate(*final(self), va) is None,
            forall|j: int|
                0 <= j < old(pmem).num_pages() && final(pmem).flags()[j] != old(pmem).flags()[j]
                    ==> final(pmem).flags()[j] is Empty && tree_phys(*old(self), 2).contains(
                    ((old(pmem).start() + j * PAGE_SIZE) as u64),
                ),
            forall|a: u64|
                #[trigger] tree_phys(*old(self), 2).contains(a) ==> final(pmem).flags()[(a - old(
                    pmem,
                ).start()) / (PAGE_SIZE as int)] is Empty,
    {
        unmap_rec(self, pmem, 2);
        proof {
            let ft = *self;
            assert forall|i: int| 0 <= i < 512 implies ft.slot_shape_ok(i, 2nat) by {}
            assert(ft.wf(2));
            assert(ft.no_superpages(2));
            assert forall|va: u64| #[trigger] translate(ft, va) is None by {
                let k = spec_vpn(va, 2) as int;
                assert(!e_valid(ft.entry_at(k)));
            }
        }
    }
}

/// Free the subtable behind the interior entry in slot `i`: recurse into
/// the child and account for its frames, leaving the slot's own page and
/// entry for the caller.
#[verifier::rlimit(100)]
fn unmap_child(
    t: &mut Table,
    pmem: &mut Pmem,
    i: usize,
    lvl: usize,
    told_g: Ghost<Table>,
    p0_g: Ghost<Pmem>,
    full_g: Ghost<Seq<u64>>,
)
    requires
        ({
            let told = told_g@;
            let p0 = p0_g@;
            let full = full_g@;
            &&& old(t).len_ok()
            &&& lvl <= 2
            &&& i < 512
            &&& told.wf(lvl as nat)
            &&& old(t).entry_at(i as int) == told.entry_at(i as int)
            &&& e_valid(told.entry_at(i as int))
            &&& !e_leaf(told.entry_at(i as int))
            &&& told.has_child(i as int) && old(t).has_child(i as int) && old(t).child(i as int)
                == told.child(i as int)
            &&& old(pmem).wf()
            &&& old(pmem).start() == p0.start()
            &&& old(pmem).num_pages() == p0.num_pages()
            &&& frames_ok(p0, full)
            &&& full == tree_phys(told, lvl as int)
            &&& tree_phys_from(told, lvl as int, i as int).no_duplicates()
            &&& forall|a: u64|
                #[trigger] tree_phys_from(told, lvl as int, i as int).contains(a)
                    ==> full.contains(a)
            &&& forall|j: int|
                0 <= j < p0.num_pages() && old(pmem).flags()[j] != p0.flags()[j]
                    ==> old(pmem).flags()[j] is Empty && full.contains(
                    ((p0.start() + j * PAGE_SIZE) as u64),
                ) && !tree_phys_from(told, lvl as int, i as int).contains(
                    ((p0.start() + j * PAGE_SIZE) as u64),
                )
            &&& forall|a: u64|
                full.contains(a) && !tree_phys_from(told, lvl as int, i as int).contains(a)
                    ==> old(pmem).flags()[(a - p0.start()) / (PAGE_SIZE as int)] is Empty
        }),
    ensures
        ({
            let told = told_g@;
            let p0 = p0_g@;
            let full = full_g@;
            let eb = told.entry_at(i as int);
            let rest = tree_phys_from(told, lvl as int, i as int + 1);
            &&& final(t).len_ok()
            &&& forall|k: int|
                0 <= k < 512 ==> #[trigger] final(t).entry_at(k) == old(t).entry_at(k)
            &&& forall|k: int|
                0 <= k < 512 && k != i ==> #[trigger] final(t).has_child(k) == old(t).has_child(k)
                    && (old(t).has_child(k) ==> final(t).child(k) == old(t).child(k))
            &&& !final(t).has_child(i as int)
            &&& final(pmem).wf()
            &&& final(pmem).start() == p0.start()
            &&& final(pmem).num_pages() == p0.num_pages()
            &&& forall|j: int|
                0 <= j < p0.num_pages() && final(pmem).flags()[j] != p0.flags()[j]
                    ==> final(pmem).flags()[j] is Empty && full.contains(
                    ((p0.start() + j * PAGE_SIZE) as u64),
                ) && !rest.contains(((p0.start() + j * PAGE_SIZE) as u64))
            &&& forall|a: u64|
                full.contains(a) && !rest.contains(a) && a != e_phys(eb)
                    ==> final(pmem).flags()[(a - p0.start()) / (PAGE_SIZE as int)] is Empty
            &&& final(pmem).flags()[(e_phys(eb) - p0.start()) / (PAGE_SIZE as int)] is Last
        }),
    decreases lvl, 0int,
{
    let ghost told = told_g@;
    let ghost p0 = p0_g@;
    let ghost full = full_g@;
    let ghost eb = told.entry_at(i as int);
    let ghost remaining = tree_phys_from(told, lvl as int, i as int);
    let ghost rest = tree_phys_from(told, lvl as int, i as int + 1);
    let ghost child_seq = tree_phys_from(told.child(i as int), lvl as int - 1, 0);
    let ghost phys_seq = seq![e_phys(eb)];
    let ghost slot_frames = phys_seq + child_seq;
    proof {
        assert(told.slot_shape_ok(i as int, lvl as nat));
        assert(remaining == slot_frames + rest) by {
            reveal(tree_phys_from);
        }
        lemma_no_dup_split(slot_frames, rest);
        lemma_no_dup_split(phys_seq, child_seq);
        assert forall|a: u64| #[trigger] slot_frames.contains(a) implies remaining.contains(a)
            && !rest.contains(a) by {
            lemma_concat_contains(slot_frames, rest, a);
        }
        assert forall|a: u64| #[trigger] rest.contains(a) implies remaining.contains(a) by {
            lemma_concat_contains(slot_frames, rest, a);
        }
        assert forall|a: u64| #[trigger] child_seq.contains(a) implies slot_frames.contains(a) by {
            lemma_concat_contains(phys_seq, child_seq, a);
        }
        assert(phys_seq.contains(e_phys(eb))) by {
            assert(phys_seq[0] == e_phys(eb));
        }
        assert(slot_frames.contains(e_phys(eb))) by {
            lemma_concat_contains(phys_seq, child_seq, e_phys(eb));
        }
        // Remaining frames are still single-page `Last` runs.
        assert forall|a: u64| #[trigger] child_seq.contains(a) implies a % PAGE_SIZE == 0
            && pmem.start() <= a && (a - pmem.start()) / (PAGE_SIZE as int) < pmem.num_pages()
            && pmem.flags()[(a - pmem.start()) / (PAGE_SIZE as int)] is Last by {
            assert(remaining.contains(a) && full.contains(a));
            let jj = (a - p0.start()) / (PAGE_SIZE as int);
            if pmem.flags()[jj] != p0.flags()[jj] {
                lemma_frame_addr_exact(p0.start(), a);
                assert(((p0.start() + jj * PAGE_SIZE) as u64) == a);
                assert(false);
            }
        }
    }
    let ghost pmid = *pmem;
    let ghost tswap = *t;
    let mut tmp: Option<Box<Table>> = None;
    t.children.set_and_swap(i, &mut tmp);
    proof {
        assert forall|k: int| 0 <= k < 512 && k != i implies t.entry_at(k) == tswap.entry_at(k)
            && t.has_child(k) == tswap.has_child(k) && (tswap.has_child(k) ==> t.child(k)
            == tswap.child(k)) by {}
        assert(t.entry_at(i as int) == tswap.entry_at(i as int));
    }
    let mut boxed = tmp.unwrap();
    unmap_rec(&mut *boxed, pmem, lvl - 1);
    proof {
        // Fold the child's frees into the running account.
        assert forall|j: int|
            0 <= j < p0.num_pages() && pmem.flags()[j] != p0.flags()[j] implies pmem.flags()[j]
            is Empty && full.contains(((p0.start() + j * PAGE_SIZE) as u64)) && !rest.contains(
            ((p0.start() + j * PAGE_SIZE) as u64),
        ) by {
            let aj = ((p0.start() + j * PAGE_SIZE) as u64);
            if pmid.flags()[j] == p0.flags()[j] {
                assert(pmem.flags()[j] != pmid.flags()[j]);
                assert(child_seq.contains(aj));
            }
        }
        // Frames of this tree already behind us: freed.
        assert forall|a: u64|
            full.contains(a) && !rest.contains(a) && a != e_phys(eb) implies pmem.flags()[(a
            - p0.start()) / (PAGE_SIZE as int)] is Empty by {
            let ja = (a - p0.start()) / (PAGE_SIZE as int);
            if remaining.contains(a) {
                assert(slot_frames.contains(a));
                let ci = choose|ci: int| 0 <= ci < slot_frames.len() && slot_frames[ci] == a;
                assert(ci >= 1 && child_seq[ci - 1] == a);
                assert(child_seq.contains(a));
            } else {
                if pmem.flags()[ja] != pmid.flags()[ja] {
                    lemma_frame_addr_exact(p0.start(), a);
                    assert(child_seq.contains(((p0.start() + ja * PAGE_SIZE) as u64)));
                    assert(child_seq.contains(a));
                    assert(false);
                }
            }
        }
        // The slot's own page is untouched: still a one-page run.
        let jj = (e_phys(eb) - p0.start()) / (PAGE_SIZE as int);
        if pmem.flags()[jj] != p0.flags()[jj] {
            lemma_frame_addr_exact(p0.start(), e_phys(eb));
            assert(!rest.contains(e_phys(eb)));
            assert(false);
        }
        assert(full.contains(e_phys(eb)));
    }
}


/// Free the page behind slot `i` itself and clear the slot, folding the
/// freed frame into the account of what changed.
#[verifier::rlimit(100)]
fn free_slot_page(
    t: &mut Table,
    pmem: &mut Pmem,
    i: usize,
    lvl: usize,
    told_g: Ghost<Table>,
    p0_g: Ghost<Pmem>,
    full_g: Ghost<Seq<u64>>,
)
    requires
        ({
            let told = told_g@;
            let p0 = p0_g@;
            let full = full_g@;
            let eb = told.entry_at(i as int);
            let phys = e_phys(eb);
            let rest = tree_phys_from(told, lvl as int, i as int + 1);
            &&& old(t).len_ok()
            &&& i < 512
            &&& lvl <= 2
            &&& old(t).entry_at(i as int) == eb
            &&& e_valid(eb)
            &&& old(pmem).wf()
            &&& old(pmem).start() == p0.start()
            &&& old(pmem).num_pages() == p0.num_pages()
            &&& frames_ok(p0, full)
            &&& full.contains(phys)
            &&& !rest.contains(phys)
            &&& old(pmem).flags()[(phys - p0.start()) / (PAGE_SIZE as int)] is Last
            &&& forall|j: int|
                0 <= j < p0.num_pages() && old(pmem).flags()[j] != p0.flags()[j]
                    ==> old(pmem).flags()[j] is Empty && full.contains(
                    ((p0.start() + j * PAGE_SIZE) as u64),
                ) && !rest.contains(((p0.start() + j * PAGE_SIZE) as u64))
            &&& forall|a: u64|
                full.contains(a) && !rest.contains(a) && a != phys ==> old(pmem).flags()[(a
                    - p0.start()) / (PAGE_SIZE as int)] is Empty
        }),
    ensures
        ({
            let told = told_g@;
            let p0 = p0_g@;
            let full = full_g@;
            let rest = tree_phys_from(told, lvl as int, i as int + 1);
            &&& final(t).len_ok()
            &&& !e_valid(final(t).entry_at(i as int)) && !final(t).has_child(i as int)
            &&& forall|k: int|
                0 <= k < 512 && k != i ==> #[trigger] final(t).entry_at(k) == old(t).entry_at(k)
                    && final(t).has_child(k) == old(t).has_child(k) && (old(t).has_child(k)
                    ==> final(t).child(k) == old(t).child(k))
            &&& final(pmem).wf()
            &&& final(pmem).start() == p0.start()
            &&& final(pmem).num_pages() == p0.num_pages()
            &&& forall|j: int|
                0 <= j < p0.num_pages() && final(pmem).flags()[j] != p0.flags()[j]
                    ==> final(pmem).flags()[j] is Empty && full.contains(
                    ((p0.start() + j * PAGE_SIZE) as u64),
                ) && !rest.contains(((p0.start() + j * PAGE_SIZE) as u64))
            &&& forall|a: u64|
                full.contains(a) && !rest.contains(a) ==> final(pmem).flags()[(a - p0.start()) / (
                PAGE_SIZE as int)] is Empty
        }),
{
    let ghost told = told_g@;
    let ghost p0 = p0_g@;
    let ghost full = full_g@;
    let ghost eb = told.entry_at(i as int);
    let ghost rest = tree_phys_from(told, lvl as int, i as int + 1);
    let e = t.entries[i];
    proof {
        assert(t.entry_at(i as int) == eb);
        assert(e.spec_bits() == eb);
    }
    let phys = e.get_phys();
    proof {
        let jj = (phys - p0.start()) / (PAGE_SIZE as int);
        assert(crate::page::run_end(pmem.flags(), jj) == jj);
    }
    let ghost pm_pre = *pmem;
    pmem.dealloc_phys(phys);
    proof {
        let jj = (phys - p0.start()) / (PAGE_SIZE as int);
        assert forall|j2: int| 0 <= j2 < pmem.flags().len() implies pmem.flags()[j2] == (if j2
            == jj {
            PageBits::Empty
        } else {
            pm_pre.flags()[j2]
        }) by {}
    }
    let ghost tpre = *t;
    t.entries.set(i, Entry(0));
    t.children.set(i, None);
    proof {
        assert(!e_valid(0u64)) by (bit_vector);
        assert forall|k: int| 0 <= k < 512 && k != i implies t.entry_at(k) == tpre.entry_at(k)
            && t.has_child(k) == tpre.has_child(k) && (tpre.has_child(k) ==> t.child(k)
            == tpre.child(k)) by {}
        assert(t.entry_at(i as int) == 0 && !t.has_child(i as int));
        let jj = (phys - p0.start()) / (PAGE_SIZE as int);
        lemma_frame_addr_exact(p0.start(), phys);
        assert forall|j: int|
            0 <= j < p0.num_pages() && pmem.flags()[j] != p0.flags()[j] implies pmem.flags()[j]
            is Empty && full.contains(((p0.start() + j * PAGE_SIZE) as u64)) && !rest.contains(
            ((p0.start() + j * PAGE_SIZE) as u64),
        ) by {
            let aj = ((p0.start() + j * PAGE_SIZE) as u64);
            if j == jj {
                assert(aj == phys);
            } else {
                assert(pmem.flags()[j] == pm_pre.flags()[j]);
            }
        }
        assert forall|a: u64| full.contains(a) && !rest.contains(a) implies pmem.flags()[(a
            - p0.start()) / (PAGE_SIZE as int)] is Empty by {
            let ja = (a - p0.start()) / (PAGE_SIZE as int);
            if a == e_phys(eb) {
                assert(ja == jj);
            } else {
                if ja == jj {
                    lemma_frame_addr_exact(p0.start(), a);
                    lemma_frame_addr_exact(p0.start(), phys);
                    assert(a == phys);
                } else {
                    assert(pmem.flags()[ja] == pm_pre.flags()[ja]);
                }
            }
        }
    }
}

/// Free everything behind one valid slot: the subtable below an
/// interior entry first, then the entry's own page, then the slot.
#[verifier::rlimit(100)]
fn unmap_slot(
    t: &mut Table,
    pmem: &mut Pmem,
    i: usize,
    lvl: usize,
    told_g: Ghost<Table>,
    p0_g: Ghost<Pmem>,
    full_g: Ghost<Seq<u64>>,
)
    requires
        ({
            let told = told_g@;
            let p0 = p0_g@;
            let full = full_g@;
            &&& old(t).len_ok()
            &&& lvl <= 2
            &&& i < 512
            &&& told.wf(lvl as nat)
            &&& old(t).entry_at(i as int) == told.entry_at(i as int)
            &&& e_valid(told.entry_at(i as int))
            &&& forall|k: int|
                i <= k < 512 ==> #[trigger] old(t).entry_at(k) == told.entry_at(k)
                    && old(t).has_child(k) == told.has_child(k) && (told.has_child(k)
                    ==> old(t).child(k) == told.child(k))
            &&& old(pmem).wf()
            &&& old(pmem).start() == p0.start()
            &&& old(pmem).num_pages() == p0.num_pages()
            &&& frames_ok(p0, full)
            &&& full == tree_phys(told, lvl as int)
            &&& tree_phys_from(told, lvl as int, i as int).no_duplicates()
            &&& forall|a: u64|
                #[trigger] tree_phys_from(told, lvl as int, i as int).contains(a)
                    ==> full.contains(a)
            &&& forall|j: int|
                0 <= j < p0.num_pages() && old(pmem).flags()[j] != p0.flags()[j]
                    ==> old(pmem).flags()[j] is Empty && full.contains(
                    ((p0.start() + j * PAGE_SIZE) as u64),
                ) && !tree_phys_from(told, lvl as int, i as int).contains(
                    ((p0.start() + j * PAGE_SIZE) as u64),
                )
            &&& forall|a: u64|
                full.contains(a) && !tree_phys_from(told, lvl as int, i as int).contains(a)
                    ==> old(pmem).flags()[(a - p0.start()) / (PAGE_SIZE as int)] is Empty
        }),
    ensures
        ({
            let told = told_g@;
            let p0 = p0_g@;
            let full = full_g@;
            &&& final(t).len_ok()
            &&& !e_valid(final(t).entry_at(i as int)) && !final(t).has_child(i as int)
            &&& forall|k: int|
                0 <= k < 512 && k != i ==> #[trigger] final(t).entry_at(k) == old(t).entry_at(k)
                    && final(t).has_child(k) == old(t).has_child(k) && (old(t).has_child(k)
                    ==> final(t).child(k) == old(t).child(k))
            &&& final(pmem).wf()
            &&& final(pmem).start() == p0.start()
            &&& final(pmem).num_pages() == p0.num_pages()
            &&& forall|j: int|
                0 <= j < p0.num_pages() && final(pmem).flags()[j] != p0.flags()[j]
                    ==> final(pmem).flags()[j] is Empty && full.contains(
                    ((p0.start() + j * PAGE_SIZE) as u64),
                ) && !tree_phys_from(told, lvl as int, i as int + 1).contains(
                    ((p0.start() + j * PAGE_SIZE) as u64),
                )
            &&& forall|a: u64|
                full.contains(a) && !tree_phys_from(told, lvl as int, i as int + 1).contains(a)
                    ==> final(pmem).flags()[(a - p0.start()) / (PAGE_SIZE as int)] is Empty
            &&& tree_phys_from(told, lvl as int, i as int + 1).no_duplicates()
            &&& forall|a: u64|
                #[trigger] tree_phys_from(told, lvl as int, i as int + 1).contains(a)
                    ==> full.contains(a)
        }),
    decreases lvl, 1int,
{
    let ghost told = told_g@;
    let ghost p0 = p0_g@;
    let ghost full = full_g@;
    let ghost remaining = tree_phys_from(told, lvl as int, i as int);
    let ghost rest = tree_phys_from(told, lvl as int, i as int + 1);
    let e = t.entries[i];
    let ghost eb = told.entry_at(i as int);
    proof {
        assert(t.entry_at(i as int) == eb);
        assert(e.spec_bits() == eb);
        assert(told.slot_shape_ok(i as int, lvl as nat));
    }
    let ghost child_seq = tree_phys_from(told.child(i as int), lvl as int - 1, 0);
    let ghost phys_seq = seq![e_phys(eb)];
    let ghost slot_frames = if !e_leaf(eb) {
        phys_seq + child_seq
    } else {
        phys_seq + Seq::<u64>::empty()
    };
    proof {
        assert(remaining == slot_frames + rest) by {
            reveal(tree_phys_from);
        }
        lemma_no_dup_split(slot_frames, rest);
        assert forall|a: u64| #[trigger] slot_frames.contains(a) implies remaining.contains(a)
            && !rest.contains(a) by {
            lemma_concat_contains(slot_frames, rest, a);
        }
        assert forall|a: u64| #[trigger] rest.contains(a) implies remaining.contains(a) by {
            lemma_concat_contains(slot_frames, rest, a);
        }
        assert(phys_seq.contains(e_phys(eb))) by {
            assert(phys_seq[0] == e_phys(eb));
        }
        assert(slot_frames.contains(e_phys(eb))) by {
            assert(slot_frames[0] == e_phys(eb));
        }
    }
    if !e.is_leaf() {
        unmap_child(t, pmem, i, lvl, told_g, p0_g, full_g);
    } else {
        proof {
            // A leaf slot owns no subtable: its page is the only frame
            // here, untouched so far.
            let jj = (e_phys(eb) - p0.start()) / (PAGE_SIZE as int);
            assert(full.contains(e_phys(eb)));
            if pmem.flags()[jj] != p0.flags()[jj] {
                lemma_frame_addr_exact(p0.start(), e_phys(eb));
                assert(!rest.contains(e_phys(eb)));
                assert(false);
            }
        }
    }
    free_slot_page(t, pmem, i, lvl, told_g, p0_g, full_g);
}


/// Recursive worker for `unmap`: clear the slots of one table at level
/// `lvl`, freeing subtables first.
#[verifier::rlimit(100)]
#[verifier::loop_isolation(false)]
fn unmap_rec(t: &mut Table, pmem: &mut Pmem, lvl: usize)
    requires
        old(t).wf(lvl as nat),
        lvl <= 2,
        old(pmem).wf(),
        frames_ok(*old(pmem), tree_phys(*old(t), lvl as int)),
        tree_phys(*old(t), lvl as int).no_duplicates(),
    ensures
        final(pmem).wf(),
        final(pmem).start() == old(pmem).start(),
        final(pmem).num_pages() == old(pmem).num_pages(),
        final(t).len_ok(),
        forall|i: int|
            0 <= i < 512 ==> !e_valid(#[trigger] final(t).entry_at(i)) && !final(t).has_child(i),
        forall|j: int|
            0 <= j < old(pmem).num_pages() && final(pmem).flags()[j] != old(pmem).flags()[j]
                ==> final(pmem).flags()[j] is Empty && tree_phys(*old(t), lvl as int).contains(
                ((old(pmem).start() + j * PAGE_SIZE) as u64),
            ),
        forall|a: u64|
            #[trigger] tree_phys(*old(t), lvl as int).contains(a) ==> final(pmem).flags()[(a - old(
                pmem,
            ).start()) / (PAGE_SIZE as int)] is Empty,
    decreases lvl, 2int,
{
    let ghost told = *old(t);
    let ghost p0 = *old(pmem);
    let ghost full = tree_phys(told, lvl as int);
    let mut i: usize = 0;
    while i < 512
        invariant
            t.len_ok(),
            lvl <= 2,
            told.wf(lvl as nat),
            i <= 512,
            forall|k: int|
                0 <= k < i ==> !e_valid(#[trigger] t.entry_at(k)) && !t.has_child(k),
            forall|k: int|
                i <= k < 512 ==> #[trigger] t.entry_at(k) == told.entry_at(k) && t.has_child(k)
                    == told.has_child(k) && (told.has_child(k) ==> t.child(k) == told.child(k)),
            pmem.wf(),
            pmem.start() == p0.start(),
            pmem.num_pages() == p0.num_pages(),
            frames_ok(p0, full),
            full == tree_phys(told, lvl as int),
            tree_phys_from(told, lvl as int, i as int).no_duplicates(),
            forall|a: u64|
                #[trigger] tree_phys_from(told, lvl as int, i as int).contains(a) ==> full.contains(
                    a,
                ),
            forall|j: int|
                0 <= j < p0.num_pages() && pmem.flags()[j] != p0.flags()[j] ==> pmem.flags()[j]
                    is Empty && full.contains(((p0.start() + j * PAGE_SIZE) as u64))
                    && !tree_phys_from(told, lvl as int, i as int).contains(
                    ((p0.start() + j * PAGE_SIZE) as u64),
                ),
            forall|a: u64|
                full.contains(a) && !tree_phys_from(told, lvl as int, i as int).contains(a)
                    ==> pmem.flags()[(a - p0.start()) / (PAGE_SIZE as int)] is Empty,
        decreases 512 - i,
    {
        let ghost remaining = tree_phys_from(told, lvl as int, i as int);
        let ghost rest = tree_phys_from(told, lvl as int, i as int + 1);
        let e = t.entries[i];
        let ghost eb = told.entry_at(i as int);
        proof {
            assert(t.entry_at(i as int) == eb);
            assert(e.spec_bits() == eb);
        }
        let ghost tcur = *t;
        if e.is_valid() {
            unmap_slot(t, pmem, i, lvl, Ghost(told), Ghost(p0), Ghost(full));
        } else {
            proof {
                assert(told.slot_shape_ok(i as int, lvl as nat));
                assert(!e_valid(eb));
                assert(remaining == rest) by {
                    reveal(tree_phys_from);
                }
            }
        }
        proof {
            assert forall|k: int| 0 <= k < i + 1 implies !e_valid(#[trigger] t.entry_at(k))
                && !t.has_child(k) by {
                if k != i {
                    if e_valid(eb) {
                        assert(t.entry_at(k) == tcur.entry_at(k));
                        assert(t.has_child(k) == tcur.has_child(k));
                    }
                } else {
                    if !e_valid(eb) {
                        assert(t.entry_at(k) == eb);
                        assert(!told.interior(k));
                    }
                }
            }
            assert forall|k: int|
                i + 1 <= k < 512 implies #[trigger] t.entry_at(k) == told.entry_at(k)
                && t.has_child(k) == told.has_child(k) && (told.has_child(k) ==> t.child(k)
                == told.child(k)) by {
                if e_valid(eb) {
                    assert(t.entry_at(k) == tcur.entry_at(k));
                    assert(tcur.entry_at(k) == told.entry_at(k));
                    assert(t.has_child(k) == tcur.has_child(k));
                    assert(tcur.has_child(k) == told.has_child(k));
                    if told.has_child(k) {
                        assert(tcur.child(k) == told.child(k));
                        assert(t.child(k) == tcur.child(k));
                    }
                } else {
                    assert(*t == tcur);
                }
            }
            assert(forall|k: int|
                0 <= k < i + 1 ==> !e_valid(#[trigger] t.entry_at(k)) && !t.has_child(k));
            assert(forall|k: int|
                i + 1 <= k < 512 ==> #[trigger] t.entry_at(k) == told.entry_at(k)
                    && t.has_child(k) == told.has_child(k) && (told.has_child(k) ==> t.child(k)
                    == told.child(k)));
        }
        i = i + 1;
    }
    proof {
        assert(forall|a: u64| !tree_phys_from(told, lvl as int, 512).contains(a)) by {
            reveal(tree_phys_from);
        }
    }
}

} // verus!
