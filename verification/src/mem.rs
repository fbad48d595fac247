//! Physical frame allocator: a fixed table with one slot per page, where every
//! slot of an allocated run holds the length of that run.

use vstd::prelude::*;
use vstd::arithmetic::power2::{lemma_pow2_pos, pow2};
use vstd::bits::{
    lemma_usize_low_bits_mask_is_mod, lemma_usize_pow2_no_overflow, lemma_usize_shl_is_mul,
};
use crate::symbols::{PAGE_ORDER, PAGE_SIZE};
use crate::KernelError;

verus! {

/// Number of pages that the allocator manages (128 MiB of 4 KiB pages).
pub const MAX_PAGE: usize = 32768;

/// The least multiple of `2^order` that is not below `val`.
pub open spec fn align_up(val: int, order: nat) -> int {
    ((val + pow2(order) - 1) / (pow2(order) as int)) * pow2(order)
}

/// The greatest multiple of `2^order` that is not above `val`.
pub open spec fn align_down(val: int, order: nat) -> int {
    (val / (pow2(order) as int)) * pow2(order)
}

/// `1 << order` is `2^order`, and masking with `2^order - 1` is the remainder
/// of the division by `2^order`.
proof fn lemma_mask_is_mod(x: usize, order: usize)
    requires
        order < usize::BITS,
    ensures
        (1usize << order) == pow2(order as nat),
        0 < pow2(order as nat) <= usize::MAX,
        x & (((1usize << order) - 1) as usize) == x % (pow2(order as nat) as usize),
{
    lemma_usize_pow2_no_overflow(order as nat);
    lemma_pow2_pos(order as nat);
    lemma_usize_shl_is_mul(1usize, order);
    lemma_usize_low_bits_mask_is_mod(x, order as nat);
}

/// Rounds `val` up to a multiple of `2^order`.
pub fn align_val(val: usize, order: usize) -> (r: usize)
    requires
        order < usize::BITS,
        val + pow2(order as nat) - 1 <= usize::MAX,
    ensures
        r == align_up(val as int, order as nat),
        r % (pow2(order as nat) as usize) == 0,
        val <= r < val + pow2(order as nat),
{
    proof {
        lemma_mask_is_mod(val, order);
    }
    let unit: usize = 1usize << order;
    let o: usize = unit - 1;
    let top: usize = val + o;
    let r: usize = top & !o;
    proof {
        lemma_mask_is_mod(r, order);
        assert(r & o == 0 && val <= r && r - val <= o) by (bit_vector)
            requires
                r == top & !o,
                top >= val,
                top - val == o,
                unit == 1usize << order,
                o == (unit - 1) as usize,
                order < usize::BITS,
        ;
        lemma_least_multiple(val as int, r as int, pow2(order as nat) as int);
    }
    r
}

/// Rounds `val` down to a multiple of `2^order`.
pub fn align_val_down(val: usize, order: usize) -> (r: usize)
    requires
        order < usize::BITS,
    ensures
        r == align_down(val as int, order as nat),
        r % (pow2(order as nat) as usize) == 0,
        r <= val < r + pow2(order as nat),
{
    proof {
        lemma_mask_is_mod(val, order);
    }
    let unit: usize = 1usize << order;
    let o: usize = unit - 1;
    let r: usize = val & !o;
    proof {
        lemma_mask_is_mod(r, order);
        assert(r & o == 0 && r <= val && val - r <= o) by (bit_vector)
            requires
                r == val & !o,
                unit == 1usize << order,
                o == (unit - 1) as usize,
                order < usize::BITS,
        ;
        lemma_greatest_multiple(val as int, r as int, pow2(order as nat) as int);
    }
    r
}

/// Rounds `val` down to a page boundary.
pub fn page_down(val: usize) -> (r: usize)
    ensures
        r == align_down(val as int, PAGE_ORDER as nat),
        r % PAGE_SIZE == 0,
        r <= val < r + PAGE_SIZE,
{
    proof {
        lemma_page_unit();
    }
    align_val_down(val, PAGE_ORDER)
}

/// `2^PAGE_ORDER` is `PAGE_SIZE`.
pub proof fn lemma_page_unit()
    ensures
        pow2(PAGE_ORDER as nat) == PAGE_SIZE,
{
    vstd::arithmetic::power2::lemma2_to64();
}

/// A multiple `r` of `d` with `val <= r < val + d` is `val` rounded up.
proof fn lemma_least_multiple(val: int, r: int, d: int)
    by (nonlinear_arith)
    requires
        d > 0,
        r % d == 0,
        val <= r < val + d,
    ensures
        r == ((val + d - 1) / d) * d,
{
    let q = r / d;
    assert(r == q * d);
    let t = val + d - 1;
    assert(q * d <= t < q * d + d);
    assert(t / d == q) by {
        vstd::arithmetic::div_mod::lemma_fundamental_div_mod_converse(t, d, q, t - q * d);
    }
}

/// A multiple `r` of `d` with `r <= val < r + d` is `val` rounded down.
proof fn lemma_greatest_multiple(val: int, r: int, d: int)
    by (nonlinear_arith)
    requires
        d > 0,
        r % d == 0,
        r <= val < r + d,
    ensures
        r == (val / d) * d,
{
    let q = r / d;
    assert(r == q * d);
    assert(val / d == q) by {
        vstd::arithmetic::div_mod::lemma_fundamental_div_mod_converse(val, d, q, val - q * d);
    }
}


/// The frame allocator. Slot `i` of `page_allocated` stands for the page at
/// `base_addr + i * PAGE_SIZE`. It holds 0 while the page is free, and the
/// length of the run while the page belongs to an allocated run.
pub struct Allocator {
    pub page_allocated: [usize; MAX_PAGE],
    pub base_addr: usize,
}

/// One allocated run as `Allocator::debug` reports it: the index of its first
/// slot, the address of its first byte, the address behind its last byte, and
/// its length in pages.
#[derive(Clone, Copy, Debug, PartialEq, Eq, Structural)]
pub struct Run {
    pub index: usize,
    pub from: usize,
    pub to: usize,
    pub pages: usize,
}

/// Number of whole pages needed for `size` bytes.
pub open spec fn pages_for(size: int) -> int {
    (size + PAGE_SIZE - 1) / (PAGE_SIZE as int)
}

/// The `n` slots from `i` on lie inside the table and are all free.
pub open spec fn is_free_range(s: Seq<usize>, i: int, n: int) -> bool {
    &&& 0 <= i
    &&& 0 <= n
    &&& i + n <= s.len()
    &&& forall|k: int| i <= k < i + n ==> #[trigger] s[k] == 0
}

/// A request for `n` pages can be served at slot `i`: slot `i` is free, and so
/// are the `n` slots from `i` on.
pub open spec fn fits_at(s: Seq<usize>, i: int, n: int) -> bool {
    &&& 0 <= i < s.len()
    &&& s[i] == 0
    &&& is_free_range(s, i, n)
}

/// Slot `i` is the first one at which a request for `n` pages can be served.
pub open spec fn is_first_fit(s: Seq<usize>, i: int, n: int) -> bool {
    &&& fits_at(s, i, n)
    &&& forall|j: int| 0 <= j < i ==> !fits_at(s, j, n)
}

/// The table `s` with the `n` slots from `i` on set to `v`.
pub open spec fn fill(s: Seq<usize>, i: int, n: int, v: usize) -> Seq<usize> {
    Seq::new(s.len(), |k: int| if i <= k < i + n { v } else { s[k] })
}

/// How far a scan of the table moves from slot `j`: over a free slot by one,
/// over a run by its length.
pub open spec fn stride(s: Seq<usize>, j: int) -> int {
    if s[j] == 0 {
        1
    } else {
        s[j] as int
    }
}

/// A scan that starts at slot `from` and moves by `stride` stops at `to`.
pub open spec fn scan_reaches(s: Seq<usize>, from: int, to: int) -> bool
    decreases to - from,
{
    if from == to {
        true
    } else if from > to {
        false
    } else if from + stride(s, from) > to {
        false
    } else {
        scan_reaches(s, from + stride(s, from), to)
    }
}

/// Slot `i` is the first slot of a live run: it is taken, and the scan from
/// the start of the table stops at it.
pub open spec fn is_run_start(s: Seq<usize>, i: int) -> bool {
    &&& 0 <= i < s.len()
    &&& s[i] != 0
    &&& scan_reaches(s, 0, i)
}

/// The run that starts at slot `i` lies inside the table, and each of its
/// slots holds its length.
pub open spec fn run_intact(s: Seq<usize>, i: int) -> bool {
    &&& i + s[i] <= s.len()
    &&& forall|k: int| i <= k < i + s[i] ==> #[trigger] s[k] == s[i]
}

/// The run-length invariant of a table: every live run is intact.
pub open spec fn runs_wf(s: Seq<usize>) -> bool {
    forall|i: int| #[trigger] is_run_start(s, i) ==> run_intact(s, i)
}

/// The record of the run of `n` pages that starts at slot `j`.
pub open spec fn run_record(base: int, j: int, n: int) -> Run {
    Run {
        index: j as usize,
        from: (base + j * PAGE_SIZE) as usize,
        to: (base + (j + n) * PAGE_SIZE) as usize,
        pages: n as usize,
    }
}

/// The records of the runs that a scan from slot `j` on meets, in the order of
/// their addresses.
pub open spec fn dump(s: Seq<usize>, base: int, j: int) -> Seq<Run>
    decreases s.len() - j,
{
    if j < 0 || j >= s.len() {
        Seq::empty()
    } else if s[j] == 0 {
        dump(s, base, j + 1)
    } else if j + s[j] >= s.len() {
        seq![run_record(base, j, s[j] as int)]
    } else {
        seq![run_record(base, j, s[j] as int)] + dump(s, base, j + s[j])
    }
}

proof fn lemma_scan_trans(s: Seq<usize>, a: int, b: int, c: int)
    requires
        scan_reaches(s, a, b),
        scan_reaches(s, b, c),
    ensures
        scan_reaches(s, a, c),
    decreases b - a,
{
    if a != b {
        lemma_scan_trans(s, a + stride(s, a), b, c);
    }
}

proof fn lemma_scan_split(s: Seq<usize>, a: int, b: int, c: int)
    requires
        scan_reaches(s, a, b),
        scan_reaches(s, a, c),
        b <= c,
    ensures
        scan_reaches(s, b, c),
    decreases b - a,
{
    if a != b {
        lemma_scan_split(s, a + stride(s, a), b, c);
    }
}

proof fn lemma_scan_frame(s: Seq<usize>, t: Seq<usize>, a: int, b: int)
    requires
        forall|k: int| a <= k < b ==> s[k] == t[k],
    ensures
        scan_reaches(s, a, b) == scan_reaches(t, a, b),
    decreases b - a,
{
    if a < b && a + stride(s, a) <= b {
        lemma_scan_frame(s, t, a + stride(s, a), b);
    }
}

proof fn lemma_scan_zeros(s: Seq<usize>, a: int, b: int)
    requires
        a <= b,
        forall|k: int| a <= k < b ==> s[k] == 0,
    ensures
        scan_reaches(s, a, b),
    decreases b - a,
{
    if a < b {
        lemma_scan_zeros(s, a + 1, b);
    }
}

/// One step of the scan: where it stops at slot `j`, it stops next behind the
/// free slot or the run that starts there.
proof fn lemma_scan_step(s: Seq<usize>, j: int)
    requires
        scan_reaches(s, 0, j),
    ensures
        scan_reaches(s, j, j + stride(s, j)),
        scan_reaches(s, 0, j + stride(s, j)),
{
    let next = j + stride(s, j);
    assert(scan_reaches(s, next, next));
    assert(scan_reaches(s, j, next));
    lemma_scan_trans(s, 0, j, next);
}

/// The last slot at or before `k` at which the scan from `from` stops.
spec fn owner(s: Seq<usize>, from: int, k: int) -> int
    decreases k - from,
{
    if from > k || from + stride(s, from) > k {
        from
    } else {
        owner(s, from + stride(s, from), k)
    }
}

proof fn lemma_owner(s: Seq<usize>, from: int, k: int)
    requires
        from <= k,
        scan_reaches(s, 0, from),
    ensures
        scan_reaches(s, 0, owner(s, from, k)),
        from <= owner(s, from, k) <= k < owner(s, from, k) + stride(s, owner(s, from, k)),
    decreases k - from,
{
    let next = from + stride(s, from);
    if next <= k {
        lemma_scan_step(s, from);
        lemma_owner(s, next, k);
    }
}

/// In a table that keeps the invariant the scan stops at every free slot.
proof fn lemma_free_slot_is_boundary(s: Seq<usize>, k: int)
    requires
        runs_wf(s),
        0 <= k < s.len(),
        s[k] == 0,
    ensures
        scan_reaches(s, 0, k),
{
    lemma_owner(s, 0, k);
    let p = owner(s, 0, k);
    if p != k {
        assert(is_run_start(s, p));
        assert(s[k] == s[p]);
    }
}

/// Two tables agree but for a stretch of `n` slots from `i` on, which is free
/// in `free` and one run in `taken`, and the scan of one of them stops at `i`.
/// Then both scans stop at the same slots outside the stretch, and the scan of
/// `taken` stops at no slot inside it.
proof fn lemma_scan_past_stretch(free: Seq<usize>, taken: Seq<usize>, i: int, n: int, j: int)
    requires
        free.len() == taken.len(),
        0 <= i,
        1 <= n,
        i + n <= free.len(),
        forall|k: int| i <= k < i + n ==> free[k] == 0 && taken[k] == n,
        forall|k: int| 0 <= k < free.len() && !(i <= k < i + n) ==> free[k] == taken[k],
        scan_reaches(free, 0, i) || scan_reaches(taken, 0, i),
    ensures
        j <= i || i + n <= j <= free.len() ==> scan_reaches(free, 0, j) == scan_reaches(
            taken,
            0,
            j,
        ),
        i < j < i + n ==> !scan_reaches(taken, 0, j),
{
    lemma_scan_frame(free, taken, 0, i);
    lemma_scan_zeros(free, i, i + n);
    lemma_scan_step(taken, i);
    lemma_scan_trans(free, 0, i, i + n);
    if 0 <= j < i {
        lemma_scan_frame(free, taken, 0, j);
    } else if i < j < i + n {
        if scan_reaches(taken, 0, j) {
            lemma_scan_split(taken, 0, i, j);
        }
    } else if i + n <= j <= free.len() {
        lemma_scan_frame(free, taken, i + n, j);
        if scan_reaches(free, 0, j) {
            lemma_scan_split(free, 0, i + n, j);
            lemma_scan_trans(taken, 0, i + n, j);
        }
        if scan_reaches(taken, 0, j) {
            lemma_scan_split(taken, 0, i + n, j);
            lemma_scan_trans(free, 0, i + n, j);
        }
    }
}

/// Marking a free range as a run adds that run to the live runs and leaves
/// the others as they are.
pub proof fn lemma_mark_run(s: Seq<usize>, i: int, n: int, t: Seq<usize>)
    requires
        runs_wf(s),
        1 <= n <= usize::MAX,
        fits_at(s, i, n),
        t == fill(s, i, n, n as usize),
    ensures
        runs_wf(t),
        forall|j: int| #[trigger] is_run_start(t, j) <==> (j == i || is_run_start(s, j)),
{
    lemma_free_slot_is_boundary(s, i);
    assert forall|j: int| #[trigger] is_run_start(t, j) <==> (j == i || is_run_start(s, j)) by {
        lemma_scan_past_stretch(s, t, i, n, j);
    }
    assert forall|j: int| #[trigger] is_run_start(t, j) implies run_intact(t, j) by {
        if j != i {
            assert(is_run_start(s, j));
            assert(run_intact(s, j));
            assert forall|k: int| j <= k < j + t[j] implies #[trigger] t[k] == t[j] by {
                assert(s[k] == s[j]);
            }
        }
    }
}

/// Two live runs do not share a slot: the earlier one ends before the later
/// one starts.
proof fn lemma_runs_ordered(s: Seq<usize>, i: int, j: int)
    requires
        is_run_start(s, i),
        is_run_start(s, j),
        i < j,
    ensures
        i + s[i] <= j,
{
    lemma_scan_split(s, 0, i, j);
}

/// Clearing a live run takes that run from the live runs and leaves the
/// others as they are.
pub proof fn lemma_clear_run(s: Seq<usize>, i: int, t: Seq<usize>)
    requires
        runs_wf(s),
        is_run_start(s, i),
        t == fill(s, i, s[i] as int, 0),
    ensures
        runs_wf(t),
        forall|j: int| #[trigger] is_run_start(t, j) <==> (j != i && is_run_start(s, j)),
{
    assert(run_intact(s, i));
    assert forall|j: int| #[trigger] is_run_start(t, j) <==> (j != i && is_run_start(s, j)) by {
        lemma_scan_past_stretch(t, s, i, s[i] as int, j);
    }
    assert forall|j: int| #[trigger] is_run_start(t, j) implies run_intact(t, j) by {
        assert(is_run_start(s, j));
        assert(run_intact(s, j));
        if j < i {
            lemma_runs_ordered(s, j, i);
        } else {
            lemma_runs_ordered(s, i, j);
        }
        assert forall|k: int| j <= k < j + t[j] implies #[trigger] t[k] == t[j] by {
            assert(s[k] == s[j]);
        }
    }
}

impl Allocator {
    /// The slot table as a sequence.
    pub open spec fn slots(&self) -> Seq<usize> {
        self.page_allocated@
    }

    /// The address of the page that slot `id` stands for.
    pub open spec fn addr_of(&self, id: int) -> int {
        self.base_addr + id * PAGE_SIZE
    }

    /// The slot that stands for the page which holds `addr`.
    pub open spec fn page_of(&self, addr: int) -> int {
        (addr - self.base_addr) / (PAGE_SIZE as int)
    }

    /// The allocator is well formed: its base sits on a page boundary, the
    /// address behind its last page can be represented, and its table keeps
    /// the run-length invariant.
    pub open spec fn wf(&self) -> bool {
        &&& self.base_addr % PAGE_SIZE == 0
        &&& self.base_addr + MAX_PAGE * PAGE_SIZE <= usize::MAX
        &&& runs_wf(self.slots())
    }

    /// `addr` may be handed to `deallocate`: it lies in a page of the pool
    /// whose slot is free or is the first slot of a live run.
    pub open spec fn can_deallocate(&self, addr: int) -> bool {
        &&& self.base_addr <= addr < self.base_addr + MAX_PAGE * PAGE_SIZE
        &&& (self.slots()[self.page_of(addr)] == 0 || is_run_start(self.slots(), self.page_of(addr)))
    }

    /// An allocator with base address 0 and every page free.
    pub fn new() -> (a: Self)
        ensures
            a.wf(),
            a.base_addr == 0,
            a.slots() == Seq::new(MAX_PAGE as nat, |k: int| 0usize),
    {
        let a = Allocator { base_addr: 0, page_allocated: [0; MAX_PAGE] };
        assert(a.slots() =~= Seq::new(MAX_PAGE as nat, |k: int| 0usize));
        a
    }

    /// The address of the page that slot `id` stands for, as far as it can be
    /// represented; `id == MAX_PAGE` gives the address behind the last page.
    pub fn offset_addr_of(&self, id: usize) -> (addr: usize)
        requires
            self.base_addr + id * PAGE_SIZE <= usize::MAX,
        ensures
            addr == self.addr_of(id as int),
    {
        let addr = self.base_addr + id * PAGE_SIZE;
        addr
    }

    /// The slot that stands for the page which holds `page`.
    pub fn offset_page_of(&self, page: usize) -> (id: usize)
        requires
            self.base_addr <= page,
        ensures
            id == self.page_of(page as int),
    {
        let id = (page - self.base_addr) / PAGE_SIZE;
        id
    }

    /// Whether the `n` slots from `i` on are all free.
    fn is_free(&self, i: usize, n: usize) -> (free: bool)
        requires
            i + n <= MAX_PAGE,
        ensures
            free == is_free_range(self.slots(), i as int, n as int),
    {
        let mut j: usize = 0;
        while j < n
            invariant
                j <= n,
                i + n <= MAX_PAGE,
                is_free_range(self.slots(), i as int, j as int),
            decreases n - j,
        {
            if self.page_allocated[i + j] != 0 {
                return false;
            }
            j += 1;
        }
        true
    }

    /// Sets the `n` slots from `i` on to `v`.
    fn mark(&mut self, i: usize, n: usize, v: usize)
        requires
            i + n <= MAX_PAGE,
        ensures
            final(self).slots() == fill(old(self).slots(), i as int, n as int, v),
            final(self).base_addr == old(self).base_addr,
    {
        let mut j: usize = 0;
        while j < n
            invariant
                j <= n,
                i + n <= MAX_PAGE,
                self.slots() == fill(old(self).slots(), i as int, j as int, v),
                self.base_addr == old(self).base_addr,
            decreases n - j,
        {
            self.page_allocated[i + j] = v;
            j += 1;
        }
    }

    /// Takes the first run of free pages that is long enough for `size` bytes,
    /// marks each of its slots with the run's length, and returns the address
    /// of its first page. A request for no bytes marks nothing and returns the
    /// address of the first free page. Where no slot fits, the table is left
    /// as it is and the result is `OutOfMemory`.
    pub fn allocate(&mut self, size: usize) -> (r: Result<usize, KernelError>)
        requires
            old(self).wf(),
        ensures
            final(self).wf(),
            final(self).base_addr == old(self).base_addr,
            match r {
                Ok(addr) => {
                    let i = old(self).page_of(addr as int);
                    &&& addr == old(self).addr_of(i)
                    &&& is_first_fit(old(self).slots(), i, pages_for(size as int))
                    &&& final(self).slots() == fill(
                        old(self).slots(),
                        i,
                        pages_for(size as int),
                        pages_for(size as int) as usize,
                    )
                },
                Err(e) => {
                    &&& e == KernelError::OutOfMemory
                    &&& final(self).slots() == old(self).slots()
                    &&& forall|i: int| !fits_at(old(self).slots(), i, pages_for(size as int))
                },
            },
    {
        if size > usize::MAX - (PAGE_SIZE - 1) {
            return Err(KernelError::OutOfMemory);
        }
        proof {
            lemma_page_unit();
        }
        let page_required = align_val(size, PAGE_ORDER) / PAGE_SIZE;
        assert(page_required == pages_for(size as int));
        let mut i: usize = 0;
        while i < MAX_PAGE
            invariant
                i <= MAX_PAGE,
                self.wf(),
                *self == *old(self),
                page_required == pages_for(size as int),
                forall|j: int| 0 <= j < i ==> !fits_at(self.slots(), j, page_required as int),
            decreases MAX_PAGE - i,
        {
            if self.page_allocated[i] == 0 && page_required <= MAX_PAGE - i && self.is_free(
                i,
                page_required,
            ) {
                self.mark(i, page_required, page_required);
                proof {
                    if page_required == 0 {
                        assert(self.slots() =~= old(self).slots());
                    } else {
                        lemma_mark_run(
                            old(self).slots(),
                            i as int,
                            page_required as int,
                            self.slots(),
                        );
                    }
                }
                return Ok(self.offset_addr_of(i));
            }
            i += 1;
        }
        Err(KernelError::OutOfMemory)
    }

    /// Frees the run whose first page holds `addr`: clears as many slots as
    /// the slot of that page says. Where that slot is free, nothing changes.
    ///
    /// `addr` has to lie in the first page of a live run (or in a free page).
    /// An address inside a run but behind its first page is not checked for,
    /// and would break the table: the caller has to rule it out.
    pub fn deallocate(&mut self, addr: usize)
        requires
            old(self).wf(),
            old(self).can_deallocate(addr as int),
        ensures
            final(self).wf(),
            final(self).base_addr == old(self).base_addr,
            final(self).slots() == fill(
                old(self).slots(),
                old(self).page_of(addr as int),
                old(self).slots()[old(self).page_of(addr as int)] as int,
                0,
            ),
    {
        let id = self.offset_page_of(addr);
        let page_stride = self.page_allocated[id];
        proof {
            if page_stride != 0 {
                assert(run_intact(self.slots(), id as int));
            }
        }
        self.mark(id, page_stride, 0);
        proof {
            if page_stride == 0 {
                assert(self.slots() =~= old(self).slots());
            } else {
                lemma_clear_run(old(self).slots(), id as int, self.slots());
            }
        }
    }

    /// Whether `addr` may be handed to `deallocate`: whether it lies in a
    /// page of the pool whose slot is free or is the first slot of a live run.
    pub fn may_deallocate(&self, addr: usize) -> (ok: bool)
        requires
            self.wf(),
        ensures
            ok == self.can_deallocate(addr as int),
    {
        if addr < self.base_addr {
            return false;
        }
        let id = self.offset_page_of(addr);
        if id >= MAX_PAGE {
            return false;
        }
        if self.page_allocated[id] == 0 {
            return true;
        }
        let mut j: usize = 0;
        while j < id
            invariant
                j <= id < MAX_PAGE,
                self.wf(),
                self.base_addr <= addr,
                id == self.page_of(addr as int),
                self.slots()[id as int] != 0,
                scan_reaches(self.slots(), 0, j as int),
            decreases id - j,
        {
            let size = self.page_allocated[j];
            let step = if size == 0 {
                1
            } else {
                size
            };
            proof {
                if size != 0 {
                    assert(is_run_start(self.slots(), j as int));
                    assert(run_intact(self.slots(), j as int));
                }
                lemma_scan_step(self.slots(), j as int);
                if scan_reaches(self.slots(), 0, id as int) {
                    lemma_scan_split(self.slots(), 0, j as int, id as int);
                }
            }
            if step > id - j {
                return false;
            }
            j += step;
        }
        true
    }

    /// Lists the allocated runs in the order of their addresses.
    pub fn debug(&self) -> (out: Vec<Run>)
        requires
            self.wf(),
        ensures
            out@ == dump(self.slots(), self.base_addr as int, 0),
    {
        let mut out: Vec<Run> = Vec::new();
        let mut j: usize = 0;
        while j < MAX_PAGE
            invariant
                j <= MAX_PAGE,
                self.wf(),
                scan_reaches(self.slots(), 0, j as int),
                out@ + dump(self.slots(), self.base_addr as int, j as int) == dump(
                    self.slots(),
                    self.base_addr as int,
                    0,
                ),
            decreases MAX_PAGE - j,
        {
            let size = self.page_allocated[j];
            if size != 0 {
                proof {
                    assert(is_run_start(self.slots(), j as int));
                    assert(run_intact(self.slots(), j as int));
                    lemma_scan_step(self.slots(), j as int);
                }
                let from = self.offset_addr_of(j);
                let to = self.offset_addr_of(j + size);
                let ghost before = out@;
                out.push(Run { index: j, from, to, pages: size });
                proof {
                    let rest = dump(self.slots(), self.base_addr as int, j + size);
                    assert(out@[out@.len() - 1] == run_record(
                        self.base_addr as int,
                        j as int,
                        size as int,
                    ));
                    assert(out@ + rest =~= before + (seq![
                        run_record(self.base_addr as int, j as int, size as int),
                    ] + rest));
                }
                j += size;
            } else {
                proof {
                    lemma_scan_step(self.slots(), j as int);
                }
                j += 1;
            }
        }
        assert(out@ + Seq::<Run>::empty() =~= out@);
        out
    }
}

/// Makes `alloc` ready for use: its base becomes `heap_start` rounded up to a
/// page boundary, and every page becomes free.
pub fn init(alloc: &mut Allocator, heap_start: usize)
    requires
        heap_start + (PAGE_SIZE - 1) + MAX_PAGE * PAGE_SIZE <= usize::MAX,
    ensures
        final(alloc).wf(),
        final(alloc).base_addr == align_up(heap_start as int, PAGE_ORDER as nat),
        heap_start <= final(alloc).base_addr < heap_start + PAGE_SIZE,
        final(alloc).slots() == Seq::new(MAX_PAGE as nat, |k: int| 0usize),
{
    proof {
        lemma_page_unit();
    }
    alloc.base_addr = align_val(heap_start, PAGE_ORDER);
    alloc.mark(0, MAX_PAGE, 0);
    assert(alloc.slots() =~= Seq::new(MAX_PAGE as nat, |k: int| 0usize));
}


/// Two different live runs share no page.
pub proof fn lemma_live_runs_disjoint(s: Seq<usize>, i: int, j: int)
    requires
        is_run_start(s, i),
        is_run_start(s, j),
        i != j,
    ensures
        i + s[i] <= j || j + s[j] <= i,
{
    if i < j {
        lemma_runs_ordered(s, i, j);
    } else {
        lemma_runs_ordered(s, j, i);
    }
}

/// Right after an allocation of `n` pages at slot `i`, a live run starts at
/// `i` and each of its `n` slots holds `n`.
pub proof fn lemma_allocated_run_is_live(s: Seq<usize>, i: int, n: int)
    requires
        runs_wf(s),
        1 <= n <= usize::MAX,
        fits_at(s, i, n),
    ensures
        is_run_start(fill(s, i, n, n as usize), i),
        run_intact(fill(s, i, n, n as usize), i),
        fill(s, i, n, n as usize)[i] == n,
{
    let t = fill(s, i, n, n as usize);
    lemma_mark_run(s, i, n, t);
    assert(is_run_start(t, i));
}

/// A live run stays live, and its slots keep its length, when another request
/// is served.
pub proof fn lemma_run_survives_allocate(s: Seq<usize>, r: int, i: int, n: int)
    requires
        runs_wf(s),
        is_run_start(s, r),
        0 <= n <= usize::MAX,
        fits_at(s, i, n),
    ensures
        is_run_start(fill(s, i, n, n as usize), r),
        run_intact(fill(s, i, n, n as usize), r),
        fill(s, i, n, n as usize)[r] == s[r],
{
    let t = fill(s, i, n, n as usize);
    if n == 0 {
        assert(t =~= s);
    } else {
        lemma_mark_run(s, i, n, t);
        assert(is_run_start(t, r));
    }
}

/// A live run stays live, and its slots keep its length, when another run is
/// freed.
pub proof fn lemma_run_survives_deallocate(s: Seq<usize>, r: int, i: int)
    requires
        runs_wf(s),
        is_run_start(s, r),
        0 <= i < s.len(),
        s[i] == 0 || is_run_start(s, i),
        i != r,
    ensures
        is_run_start(fill(s, i, s[i] as int, 0), r),
        run_intact(fill(s, i, s[i] as int, 0), r),
        fill(s, i, s[i] as int, 0)[r] == s[r],
{
    let t = fill(s, i, s[i] as int, 0);
    if s[i] == 0 {
        assert(t =~= s);
    } else {
        lemma_clear_run(s, i, t);
        assert(is_run_start(t, r));
        lemma_live_runs_disjoint(s, r, i);
    }
}

/// Where a request fits at slot `i`, there is a first slot at which it fits,
/// and that slot is not behind `i`.
pub proof fn lemma_first_fit_exists(s: Seq<usize>, i: int, n: int) -> (first: int)
    requires
        fits_at(s, i, n),
    ensures
        is_first_fit(s, first, n),
        first <= i,
    decreases i,
{
    if exists|j: int| 0 <= j < i && fits_at(s, j, n) {
        let j = choose|j: int| 0 <= j < i && fits_at(s, j, n);
        lemma_first_fit_exists(s, j, n)
    } else {
        i
    }
}

/// After a live run is freed its pages are free again, so that a request of
/// the same size is served, at that run's place or before it.
pub proof fn lemma_freed_run_fits_again(s: Seq<usize>, i: int) -> (first: int)
    requires
        runs_wf(s),
        is_run_start(s, i),
    ensures
        is_free_range(fill(s, i, s[i] as int, 0), i, s[i] as int),
        fits_at(fill(s, i, s[i] as int, 0), i, s[i] as int),
        is_first_fit(fill(s, i, s[i] as int, 0), first, s[i] as int),
        first <= i,
{
    let t = fill(s, i, s[i] as int, 0);
    assert(run_intact(s, i));
    assert(fits_at(t, i, s[i] as int));
    lemma_first_fit_exists(t, i, s[i] as int)
}

/// A table with every page free serves a request for all its pages at slot 0.
/// After that no page is free, and no request at all is served.
pub proof fn lemma_exhaustion_boundary(s: Seq<usize>)
    requires
        s == Seq::new(MAX_PAGE as nat, |k: int| 0usize),
    ensures
        is_first_fit(s, 0, MAX_PAGE as int),
        forall|i: int, n: int| !fits_at(fill(s, 0, MAX_PAGE as int, MAX_PAGE), i, n),
{
}

/// Number of taken slots from slot `j` on.
pub open spec fn occupied_pages(s: Seq<usize>, j: int) -> int
    decreases s.len() - j,
{
    if j < 0 || j >= s.len() {
        0
    } else if s[j] == 0 {
        occupied_pages(s, j + 1)
    } else {
        1 + occupied_pages(s, j + 1)
    }
}

/// Sum of the lengths of the runs in `runs`.
pub open spec fn total_pages(runs: Seq<Run>) -> int
    decreases runs.len(),
{
    if runs.len() == 0 {
        0
    } else {
        runs[0].pages + total_pages(runs.skip(1))
    }
}

/// Counts the taken slots of a stretch `[a, b)` whose slots are all free
/// (`taken == false`) or all taken.
proof fn lemma_occupied_stretch(s: Seq<usize>, a: int, b: int, taken: bool)
    requires
        0 <= a <= b <= s.len(),
        forall|k: int| a <= k < b ==> (s[k] != 0) == taken,
    ensures
        occupied_pages(s, a) == occupied_pages(s, b) + if taken { b - a } else { 0 },
    decreases b - a,
{
    if a < b {
        lemma_occupied_stretch(s, a + 1, b, taken);
    }
}

/// Two tables that differ in no slot of `[a, b)` have the same difference in
/// taken slots from `a` on as from `b` on.
proof fn lemma_occupied_frame(s: Seq<usize>, t: Seq<usize>, a: int, b: int)
    requires
        s.len() == t.len(),
        0 <= a <= b,
        forall|k: int| a <= k < b && k < s.len() ==> s[k] == t[k],
    ensures
        occupied_pages(s, a) - occupied_pages(t, a) == occupied_pages(s, b) - occupied_pages(t, b),
    decreases b - a,
{
    if a < b {
        lemma_occupied_frame(s, t, a + 1, b);
    }
}

proof fn lemma_dump_total_from(s: Seq<usize>, base: int, j: int)
    requires
        runs_wf(s),
        0 <= j <= s.len(),
        scan_reaches(s, 0, j),
    ensures
        total_pages(dump(s, base, j)) == occupied_pages(s, j),
    decreases s.len() - j,
{
    if j < s.len() {
        let next = j + stride(s, j);
        lemma_scan_step(s, j);
        if s[j] != 0 {
            assert(is_run_start(s, j));
            assert(run_intact(s, j));
            lemma_dump_total_from(s, base, next);
            lemma_occupied_stretch(s, j, next, true);
            let head = seq![run_record(base, j, s[j] as int)];
            if next >= s.len() {
                assert(head.skip(1) =~= Seq::<Run>::empty());
            } else {
                let rest = dump(s, base, next);
                assert((head + rest).skip(1) =~= rest);
            }
        } else {
            lemma_dump_total_from(s, base, next);
        }
    }
}

/// The lengths of the runs that `debug` lists add up to the number of taken
/// pages.
pub proof fn lemma_dump_counts_occupied_pages(s: Seq<usize>, base: int)
    requires
        runs_wf(s),
    ensures
        total_pages(dump(s, base, 0)) == occupied_pages(s, 0),
{
    lemma_dump_total_from(s, base, 0);
}

proof fn lemma_dump_holds_from(s: Seq<usize>, base: int, j: int, i: int)
    requires
        0 <= j <= i < s.len(),
        s[i] != 0,
        scan_reaches(s, j, i),
    ensures
        dump(s, base, j).contains(run_record(base, i, s[i] as int)),
    decreases i - j,
{
    let wanted = run_record(base, i, s[i] as int);
    if j == i {
        assert(dump(s, base, j)[0] == wanted);
    } else {
        let next = j + stride(s, j);
        lemma_dump_holds_from(s, base, next, i);
        let rest = dump(s, base, next);
        let k = choose|k: int| 0 <= k < rest.len() && rest[k] == wanted;
        if s[j] != 0 {
            assert(dump(s, base, j)[k + 1] == wanted);
        }
    }
}

/// Every live run is in the list that `debug` gives.
pub proof fn lemma_dump_holds_live_run(s: Seq<usize>, base: int, i: int)
    requires
        is_run_start(s, i),
    ensures
        dump(s, base, 0).contains(run_record(base, i, s[i] as int)),
{
    lemma_dump_holds_from(s, base, 0, i);
}

proof fn lemma_dump_entry_from(s: Seq<usize>, base: int, j: int, k: int) -> (i: int)
    requires
        0 <= j,
        scan_reaches(s, 0, j),
        0 <= k < dump(s, base, j).len(),
    ensures
        is_run_start(s, i),
        dump(s, base, j)[k] == run_record(base, i, s[i] as int),
    decreases s.len() - j,
{
    let next = j + stride(s, j);
    lemma_scan_step(s, j);
    if s[j] == 0 {
        lemma_dump_entry_from(s, base, next, k)
    } else if k == 0 {
        j
    } else {
        let rest = dump(s, base, next);
        assert(dump(s, base, j)[k] == rest[k - 1]);
        lemma_dump_entry_from(s, base, next, k - 1)
    }
}

/// Every entry of the list that `debug` gives is the record of a live run.
pub proof fn lemma_dump_entry_is_live_run(s: Seq<usize>, base: int, k: int) -> (i: int)
    requires
        0 <= k < dump(s, base, 0).len(),
    ensures
        is_run_start(s, i),
        dump(s, base, 0)[k] == run_record(base, i, s[i] as int),
{
    lemma_dump_entry_from(s, base, 0, k)
}

/// Serving a request for `n` pages takes exactly `n` more pages.
pub proof fn lemma_allocate_takes_pages(s: Seq<usize>, i: int, n: int)
    requires
        0 <= n <= usize::MAX,
        fits_at(s, i, n),
    ensures
        occupied_pages(fill(s, i, n, n as usize), 0) == occupied_pages(s, 0) + n,
{
    let t = fill(s, i, n, n as usize);
    if n == 0 {
        assert(t =~= s);
    } else {
        lemma_occupied_frame(s, t, 0, i);
        lemma_occupied_stretch(s, i, i + n, false);
        lemma_occupied_stretch(t, i, i + n, true);
        lemma_occupied_frame(s, t, i + n, s.len() as int);
    }
}

/// Freeing a live run gives back exactly the pages of that run.
pub proof fn lemma_deallocate_returns_pages(s: Seq<usize>, i: int)
    requires
        runs_wf(s),
        is_run_start(s, i),
    ensures
        occupied_pages(fill(s, i, s[i] as int, 0), 0) == occupied_pages(s, 0) - s[i],
{
    let n = s[i] as int;
    let t = fill(s, i, n, 0);
    assert(run_intact(s, i));
    lemma_occupied_frame(s, t, 0, i);
    lemma_occupied_stretch(s, i, i + n, true);
    lemma_occupied_stretch(t, i, i + n, false);
    lemma_occupied_frame(s, t, i + n, s.len() as int);
}

} // verus!
