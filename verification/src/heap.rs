//! The kernel heap's free-list allocator. Every free region is a `(start, size)`
//! run of bytes; allocation is first-fit with the unused tail given back to the
//! list, and freeing pushes the block back on the front of the list, so a block
//! just freed is the first one the next request of the same shape is offered.
use vstd::prelude::*;
use vstd::arithmetic::power2::pow2;
use vstd::bits::low_bits_mask;

verus! {

/// Base of the kernel heap: 1 GiB, the first byte past the boot identity map.
pub const HEAP_BASE: u64 = 0x4000_0000;
/// Size of the kernel heap: 1 MiB = 256 pages.
pub const HEAP_SIZE: u64 = 0x10_0000;
/// 4 KiB page size.
pub const PAGE_SIZE: u64 = 4096;
/// Size of the bookkeeping node every free region must be able to hold.
pub const NODE_SIZE: usize = 16;
/// Alignment of the bookkeeping node.
pub const NODE_ALIGN: usize = 8;

/// `a` is a power of two that fits in a `usize`.
pub open spec fn is_pow2(a: int) -> bool {
    exists|n: nat| n < usize::BITS && a == pow2(n)
}

/// `x` rounded up to a multiple of `a`.
pub open spec fn round_up(x: int, a: int) -> int {
    ((x + a - 1) / a) * a
}

proof fn lemma_mask_round_up(x: usize, a: usize)
    requires
        is_pow2(a as int),
        x + a <= usize::MAX,
    ensures
        a > 0,
        ((x + a - 1) as usize) & !((a - 1) as usize) == round_up(x as int, a as int),
{
    let n = choose|n: nat| n < usize::BITS && a == pow2(n);
    let y = (x + a - 1) as usize;
    let m = (a - 1) as usize;
    vstd::bits::lemma_usize_low_bits_mask_is_mod(y, n);
    vstd::arithmetic::power2::lemma_pow2_pos(n);
    assert(low_bits_mask(n) as usize == m);
    assert(y & !m == y - (y & m)) by (bit_vector);
    assert(y - y % a == (y / a) * a) by (nonlinear_arith)
        requires
            a > 0,
    ;
}

/// Round `addr` up to a multiple of `align`, a power of two.
fn align_up(addr: usize, align: usize) -> (r: usize)
    requires
        is_pow2(align as int),
        addr + align <= usize::MAX,
    ensures
        r == round_up(addr as int, align as int),
{
    proof {
        lemma_mask_round_up(addr, align);
    }
    (addr + align - 1) & !(align - 1)
}


/// The effective alignment of a request: at least that of a list node.
pub open spec fn eff_align(align: int) -> int {
    if align < 8 {
        8
    } else {
        align
    }
}

/// The effective size of a request: padded to its effective alignment and at
/// least one list node.
pub open spec fn eff_size(size: int, align: int) -> int {
    let padded = round_up(size, eff_align(align));
    if padded < 16 {
        16
    } else {
        padded
    }
}

/// What `Layout` guarantees of a request: a power-of-two alignment, and a size
/// that, rounded up to the effective alignment, stays within `isize::MAX`.
pub open spec fn layout_ok(size: int, align: int) -> bool {
    &&& is_pow2(align)
    &&& 0 <= size
    &&& round_up(size, eff_align(align)) <= isize::MAX
}

proof fn lemma_pow2_facts(a: int)
    requires
        is_pow2(a),
    ensures
        a > 0,
        a <= usize::MAX,
        a >= 8 ==> a % 8 == 0,
        a <= (isize::MAX as int) + 1,
{
    let n = choose|n: nat| n < usize::BITS && a == pow2(n);
    vstd::arithmetic::power2::lemma_pow2_pos(n);
    vstd::arithmetic::power2::lemma2_to64();
    vstd::arithmetic::power2::lemma2_to64_rest();
    let top = (usize::BITS - 1) as nat;
    if n < top {
        vstd::arithmetic::power2::lemma_pow2_strictly_increases(n, top);
    }
    assert(pow2(top) == (isize::MAX as int) + 1);
    if n >= 3 {
        vstd::arithmetic::power2::lemma_pow2_adds(3, (n - 3) as nat);
        let k = pow2((n - 3) as nat);
        assert(a == 8 * k);
        assert(a % 8 == 0) by (nonlinear_arith)
            requires
                a == 8 * k,
        ;
    } else {
        assert(a < 8);
    }
}

proof fn lemma_round_up(x: int, a: int)
    requires
        a > 0,
        x >= 0,
    ensures
        x <= round_up(x, a) < x + a,
        round_up(x, a) % a == 0,
        x % a == 0 ==> round_up(x, a) == x,
{
    let y = x + a - 1;
    let q = y / a;
    vstd::arithmetic::div_mod::lemma_fundamental_div_mod(y, a);
    assert(0 <= y % a < a);
    assert(q * a == a * q) by (nonlinear_arith);
    assert(round_up(x, a) == q * a);
    vstd::arithmetic::div_mod::lemma_mod_multiples_basic(q, a);
    if x % a == 0 {
        vstd::arithmetic::div_mod::lemma_fundamental_div_mod(x, a);
        let k = x / a;
        assert(y == k * a + (a - 1)) by (nonlinear_arith)
            requires
                x == a * k + 0,
                y == x + a - 1,
        ;
        vstd::arithmetic::div_mod::lemma_fundamental_div_mod_converse(y, a, k, a - 1);
        assert(q * a == k * a);
        assert(k * a == a * k) by (nonlinear_arith);
    }
}

/// A free region: `size` bytes starting at `start`.
struct ListNode {
    start: usize,
    size: usize,
}

impl ListNode {
    fn new(start: usize, size: usize) -> (n: ListNode)
        ensures
            n.start == start,
            n.size == size,
    {
        ListNode { start, size }
    }

    fn start_addr(&self) -> (a: usize)
        ensures
            a == self.start,
    {
        self.start
    }

    fn end_addr(&self) -> (a: usize)
        requires
            self.start + self.size <= usize::MAX,
        ensures
            a == self.start + self.size,
    {
        self.start + self.size
    }
}

/// Where in the region `r` a request of `size` bytes at `align` would start,
/// or `None` if it does not fit or would leave a tail too small to track.
pub open spec fn fit(r: (usize, usize), size: int, align: int) -> Option<int> {
    let s = round_up(r.0 as int, align);
    let e = s + size;
    let end = r.0 + r.1;
    if e > usize::MAX {
        None
    } else if e > end {
        None
    } else if end - e > 0 && end - e < 16 {
        None
    } else {
        Some(s)
    }
}

/// Index of the first region, from `i` on, that can hold the request.
pub open spec fn first_fit(v: Seq<(usize, usize)>, size: int, align: int, i: int) -> Option<int>
    decreases v.len() - i,
{
    if i >= v.len() {
        None
    } else if fit(v[i], size, align) is Some {
        Some(i)
    } else {
        first_fit(v, size, align, i + 1)
    }
}

proof fn lemma_first_fit(v: Seq<(usize, usize)>, size: int, align: int, i: int)
    requires
        0 <= i <= v.len(),
    ensures
        match first_fit(v, size, align, i) {
            Some(k) => i <= k < v.len() && fit(v[k], size, align) is Some && forall|j: int|
                i <= j < k ==> fit(#[trigger] v[j], size, align) is None,
            None => forall|j: int| i <= j < v.len() ==> fit(#[trigger] v[j], size, align) is None,
        },
    decreases v.len() - i,
{
    if i < v.len() && fit(v[i], size, align) is None {
        lemma_first_fit(v, size, align, i + 1);
    }
}

/// The free-list allocator: its regions, first one first.
pub struct FreeListHeap {
    regions: Vec<ListNode>,
}

impl View for FreeListHeap {
    type V = Seq<(usize, usize)>;

    closed spec fn view(&self) -> Seq<(usize, usize)> {
        self.regions@.map_values(|n: ListNode| (n.start, n.size))
    }
}

/// Every region can hold a list node, is node-aligned and ends within memory.
pub open spec fn regions_wf(v: Seq<(usize, usize)>) -> bool {
    forall|i: int|
        0 <= i < v.len() ==> {
            &&& (#[trigger] v[i]).1 >= 16
            &&& v[i].0 % 8 == 0
            &&& v[i].0 + v[i].1 <= usize::MAX
        }
}

/// Rounding each region's start up to `align` stays within memory.
pub open spec fn aligns_within(v: Seq<(usize, usize)>, align: int) -> bool {
    forall|i: int| 0 <= i < v.len() ==> (#[trigger] v[i]).0 + align <= usize::MAX
}

impl FreeListHeap {
    /// An empty allocator with no free regions.
    pub fn new() -> (h: FreeListHeap)
        ensures
            h@ == Seq::<(usize, usize)>::empty(),
    {
        let h = FreeListHeap { regions: Vec::new() };
        proof {
            assert(h@ =~= Seq::<(usize, usize)>::empty());
        }
        h
    }

    /// Adopt the region `[start, start + size)` as one initial free block.
    pub fn init(&mut self, start: usize, size: usize)
        requires
            start % 8 == 0,
            size >= 16,
            start + size <= usize::MAX,
        ensures
            final(self)@ == seq![(start, size)] + old(self)@,
    {
        self.add_free_region(start, size);
    }

    /// Push the free region `[addr, addr + size)` onto the front of the list.
    fn add_free_region(&mut self, addr: usize, size: usize)
        requires
            addr % 8 == 0,
            size >= 16,
            addr + size <= usize::MAX,
        ensures
            final(self)@ == seq![(addr, size)] + old(self)@,
    {
        let node = ListNode::new(addr, size);
        self.regions.insert(0, node);
        proof {
            assert(self@ =~= seq![(addr, size)] + old(self)@);
        }
    }

    /// Whether every region's start can be rounded up to `align` without
    /// leaving memory.
    pub fn aligns_within(&self, align: usize) -> (b: bool)
        ensures
            b == aligns_within(self@, align as int),
    {
        let mut i: usize = 0;
        while i < self.regions.len()
            invariant
                i <= self.regions@.len(),
                forall|j: int| 0 <= j < i ==> (#[trigger] self@[j]).0 + align <= usize::MAX,
            decreases self.regions@.len() - i,
        {
            if self.regions[i].start > usize::MAX - align {
                assert(self@[i as int].0 == self.regions@[i as int].start);
                return false;
            }
            i = i + 1;
        }
        true
    }

    /// Can `region` hold `size` bytes at `align`? Returns the aligned start.
    /// The remainder after the allocation must be zero or big enough to hold a
    /// list node, otherwise it would be an untrackable sliver.
    fn alloc_from_region(region: &ListNode, size: usize, align: usize) -> (r: Result<usize, ()>)
        requires
            is_pow2(align as int),
            region.start + align <= usize::MAX,
            region.start + region.size <= usize::MAX,
        ensures
            match fit((region.start, region.size), size as int, align as int) {
                Some(s) => r == Ok::<usize, ()>(s as usize),
                None => r is Err,
            },
    {
        let alloc_start = align_up(region.start_addr(), align);
        let alloc_end = match alloc_start.checked_add(size) {
            Some(e) => e,
            None => {
                return Err(());
            },
        };
        if alloc_end > region.end_addr() {
            return Err(());
        }
        let excess = region.end_addr() - alloc_end;
        if excess > 0 && excess < NODE_SIZE {
            return Err(());
        }
        Ok(alloc_start)
    }

    /// First-fit: find and unlink the first region that can hold `size` bytes
    /// at `align`, returning it and the aligned allocation start.
    fn find_region(&mut self, size: usize, align: usize) -> (r: Option<(ListNode, usize)>)
        requires
            regions_wf(old(self)@),
            is_pow2(align as int),
            aligns_within(old(self)@, align as int),
        ensures
            match first_fit(old(self)@, size as int, align as int, 0) {
                Some(i) => r matches Some((node, start)) && (node.start, node.size) == old(self)@[i]
                    && fit(old(self)@[i], size as int, align as int) == Some(start as int)
                    && final(self)@ == old(self)@.remove(i),
                None => r is None && final(self)@ == old(self)@,
            },
    {
        proof {
            lemma_first_fit(self@, size as int, align as int, 0);
        }
        let mut i: usize = 0;
        while i < self.regions.len()
            invariant
                self@ == old(self)@,
                regions_wf(self@),
                aligns_within(self@, align as int),
                is_pow2(align as int),
                i <= self@.len(),
                first_fit(self@, size as int, align as int, 0) == first_fit(
                    self@,
                    size as int,
                    align as int,
                    i as int,
                ),
            decreases self@.len() - i,
        {
            proof {
                assert(self@[i as int] == (self.regions@[i as int].start, self.regions@[i as int].size));
            }
            match Self::alloc_from_region(&self.regions[i], size, align) {
                Ok(alloc_start) => {
                    let node = self.regions.remove(i);
                    proof {
                        assert(self@ =~= old(self)@.remove(i as int));
                    }
                    return Some((node, alloc_start));
                },
                Err(()) => {},
            }
            i = i + 1;
        }
        None
    }

    /// Serve a request of `size` bytes at `align` (a `Layout`'s fields): the
    /// first region that fits gives the block, and its tail, if any, goes back
    /// on the front of the list. `None` when nothing fits.
    pub fn allocate(&mut self, size: usize, align: usize) -> (r: Option<usize>)
        requires
            regions_wf(old(self)@),
            layout_ok(size as int, align as int),
            aligns_within(old(self)@, eff_align(align as int)),
        ensures
            regions_wf(final(self)@),
            ({
                let s = eff_size(size as int, align as int);
                let a = eff_align(align as int);
                match first_fit(old(self)@, s, a, 0) {
                    None => r is None && final(self)@ == old(self)@,
                    Some(i) => {
                        let p = fit(old(self)@[i], s, a)->Some_0;
                        let end = old(self)@[i].0 + old(self)@[i].1;
                        &&& r == Some(p as usize)
                        &&& p % a == 0
                        &&& old(self)@[i].0 <= p
                        &&& p + s <= end
                        &&& final(self)@ == after_allocate(old(self)@, i, p, s)
                    },
                }
            }),
    {
        let (sz, al) = size_align(size, align);
        proof {
            lemma_pow2_facts(al as int);
        }
        match self.find_region(sz, al) {
            Some((region, alloc_start)) => {
                proof {
                    lemma_round_up(region.start as int, al as int);
                    let i = first_fit(old(self)@, sz as int, al as int, 0)->Some_0;
                    lemma_first_fit(old(self)@, sz as int, al as int, 0);
                    assert(old(self)@[i] == (region.start, region.size));
                }
                let alloc_end = alloc_start + sz;
                let excess = region.end_addr() - alloc_end;
                if excess > 0 {
                    proof {
                        assert((alloc_start + sz) % 8 == 0) by {
                            lemma_size_align_mod8(size as int, align as int);
                            lemma_mod8_of_multiple(alloc_start as int, al as int);
                        }
                    }
                    self.add_free_region(alloc_end, excess);
                }
                proof {
                    let v = self@;
                    assert(regions_wf(v)) by {
                        assert forall|k: int| 0 <= k < v.len() implies {
                            &&& (#[trigger] v[k]).1 >= 16
                            &&& v[k].0 % 8 == 0
                            &&& v[k].0 + v[k].1 <= usize::MAX
                        } by {
                            let i = first_fit(old(self)@, sz as int, al as int, 0)->Some_0;
                            if excess > 0 {
                                if k > 0 {
                                    let j = if k - 1 < i { k - 1 } else { k };
                                    assert(v[k] == old(self)@[j]);
                                }
                            } else {
                                let j = if k < i { k } else { k + 1 };
                                assert(v[k] == old(self)@[j]);
                            }
                        }
                    }
                }
                Some(alloc_start)
            },
            None => None,
        }
    }

    /// Give back the block at `ptr` that `allocate(size, align)` handed out:
    /// it goes on the front of the list, where the next request sees it first.
    pub fn deallocate(&mut self, ptr: usize, size: usize, align: usize)
        requires
            layout_ok(size as int, align as int),
            ptr % 8 == 0,
            ptr + eff_size(size as int, align as int) <= usize::MAX,
        ensures
            final(self)@ == seq![(ptr, eff_size(size as int, align as int) as usize)] + old(self)@,
    {
        let (sz, _) = size_align(size, align);
        self.add_free_region(ptr, sz);
    }
}

proof fn lemma_mod8_of_multiple(x: int, a: int)
    requires
        a > 0,
        x % a == 0,
        a % 8 == 0,
    ensures
        x % 8 == 0,
{
    vstd::arithmetic::div_mod::lemma_fundamental_div_mod(x, a);
    vstd::arithmetic::div_mod::lemma_fundamental_div_mod(a, 8);
    let k = x / a;
    let j = a / 8;
    assert(x == 8 * (j * k)) by (nonlinear_arith)
        requires
            x == a * k + 0,
            a == 8 * j + 0,
    ;
    vstd::arithmetic::div_mod::lemma_mod_multiples_basic(j * k, 8);
    assert((j * k) * 8 == 8 * (j * k)) by (nonlinear_arith);
}

proof fn lemma_size_align_mod8(size: int, align: int)
    requires
        layout_ok(size, align),
    ensures
        eff_size(size, align) % 8 == 0,
        eff_align(align) % 8 == 0,
        eff_size(size, align) >= 16,
{
    lemma_pow2_facts(align);
    let a = eff_align(align);
    lemma_round_up(size, a);
    let r = round_up(size, a);
    assert(r % 8 == 0) by (nonlinear_arith)
        requires
            r % a == 0,
            a % 8 == 0,
            a > 0,
    {
        vstd::arithmetic::div_mod::lemma_fundamental_div_mod(r, a);
        vstd::arithmetic::div_mod::lemma_mod_mod(r, 8, a / 8);
    }
}

/// Round a request up so every block is at least as large and as aligned as a
/// list node: a freed block must be able to hold the node that re-links it.
fn size_align(size: usize, align: usize) -> (r: (usize, usize))
    requires
        layout_ok(size as int, align as int),
    ensures
        r.0 == eff_size(size as int, align as int),
        r.1 == eff_align(align as int),
        is_pow2(r.1 as int),
{
    let a = if align < NODE_ALIGN {
        NODE_ALIGN
    } else {
        align
    };
    proof {
        lemma_pow2_facts(align as int);
        if align < 8 {
            vstd::arithmetic::power2::lemma2_to64();
            assert(pow2(3) == 8);
        }
        lemma_round_up(size as int, a as int);
    }
    let padded = align_up(size, a);
    let sz = if padded < NODE_SIZE {
        NODE_SIZE
    } else {
        padded
    };
    (sz, a)
}

/// Memory given back by `deallocate(p, size, align)` is exactly what the very
/// next `allocate(size, align)` hands out, whenever `p` is aligned as the
/// request asks (as every address `allocate` returns is).
pub proof fn law_reclaim(v: Seq<(usize, usize)>, p: usize, size: usize, align: usize)
    requires
        layout_ok(size as int, align as int),
        (p as int) % eff_align(align as int) == 0,
        p + eff_size(size as int, align as int) <= usize::MAX,
    ensures
        ({
            let s = eff_size(size as int, align as int);
            let a = eff_align(align as int);
            let w = seq![(p, s as usize)] + v;
            &&& first_fit(w, s, a, 0) == Some(0int)
            &&& fit(w[0], s, a) == Some(p as int)
        }),
{
    lemma_size_align_mod8(size as int, align as int);
    lemma_pow2_facts(align as int);
    let a = eff_align(align as int);
    lemma_round_up(p as int, a);
}

/// Two regions share no byte.
pub open spec fn apart(r: (usize, usize), q: (usize, usize)) -> bool {
    r.0 + r.1 <= q.0 || q.0 + q.1 <= r.0
}

/// No two free regions share a byte.
pub open spec fn regions_disjoint(v: Seq<(usize, usize)>) -> bool {
    forall|i: int, j: int| 0 <= i < v.len() && 0 <= j < v.len() && i != j ==> apart(#[trigger] v[i], #[trigger] v[j])
}

/// The free list `allocate` leaves after serving `s` bytes at `p` out of
/// region `i`: the region goes, and its tail past the block, if any, comes
/// back at the front.
pub open spec fn after_allocate(v: Seq<(usize, usize)>, i: int, p: int, s: int) -> Seq<(usize, usize)> {
    let end = v[i].0 + v[i].1;
    if p + s < end {
        seq![((p + s) as usize, (end - (p + s)) as usize)] + v.remove(i)
    } else {
        v.remove(i)
    }
}

/// Memory is never handed out twice: when no two free regions overlap, the
/// block `allocate` returns overlaps none of the regions it leaves on the free
/// list, and those still do not overlap one another. So until the block is
/// given back, no later request can be served from any of its bytes.
pub proof fn law_allocate_disjoint(v: Seq<(usize, usize)>, size: usize, align: usize)
    requires
        regions_wf(v),
        regions_disjoint(v),
        layout_ok(size as int, align as int),
        first_fit(v, eff_size(size as int, align as int), eff_align(align as int), 0) is Some,
    ensures
        ({
            let s = eff_size(size as int, align as int);
            let a = eff_align(align as int);
            let i = first_fit(v, s, a, 0)->Some_0;
            let p = fit(v[i], s, a)->Some_0;
            let w = after_allocate(v, i, p, s);
            &&& regions_disjoint(w)
            &&& forall|k: int| 0 <= k < w.len() ==> apart((p as usize, s as usize), #[trigger] w[k])
        }),
{
    let s = eff_size(size as int, align as int);
    let a = eff_align(align as int);
    lemma_first_fit(v, s, a, 0);
    lemma_size_align_mod8(size as int, align as int);
    let i = first_fit(v, s, a, 0)->Some_0;
    let r = v[i];
    lemma_round_up(r.0 as int, a);
    let p = fit(r, s, a)->Some_0;
    let end = r.0 + r.1;
    assert(r.0 <= p && p + s <= end);
    let rest = v.remove(i);
    assert forall|k: int| 0 <= k < rest.len() implies apart(r, #[trigger] rest[k]) by {
        if k < i {
            assert(rest[k] == v[k]);
        } else {
            assert(rest[k] == v[k + 1]);
        }
    }
    assert(regions_disjoint(rest)) by {
        assert forall|x: int, y: int| 0 <= x < rest.len() && 0 <= y < rest.len() && x != y implies apart(
            #[trigger] rest[x],
            #[trigger] rest[y],
        ) by {
            let vx = if x < i { x } else { x + 1 };
            let vy = if y < i { y } else { y + 1 };
            assert(rest[x] == v[vx] && rest[y] == v[vy]);
        }
    }
    let w = after_allocate(v, i, p, s);
    if p + s < end {
        let tail = ((p + s) as usize, (end - (p + s)) as usize);
        assert(w == seq![tail] + rest);
        assert forall|k: int| 0 <= k < w.len() implies apart((p as usize, s as usize), #[trigger] w[k]) by {
            if k > 0 {
                assert(w[k] == rest[k - 1]);
                assert(apart(r, rest[k - 1]));
            }
        }
        assert forall|x: int, y: int| 0 <= x < w.len() && 0 <= y < w.len() && x != y implies apart(
            #[trigger] w[x],
            #[trigger] w[y],
        ) by {
            if x > 0 {
                assert(w[x] == rest[x - 1]);
                assert(apart(r, rest[x - 1]));
            }
            if y > 0 {
                assert(w[y] == rest[y - 1]);
                assert(apart(r, rest[y - 1]));
            }
        }
    } else {
        assert forall|k: int| 0 <= k < w.len() implies apart((p as usize, s as usize), #[trigger] w[k]) by {
            assert(apart(r, rest[k]));
        }
    }
}

} // verus!
