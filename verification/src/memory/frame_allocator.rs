use vstd::prelude::*;
use crate::consts::MAX_PHYSICAL_PAGES;

verus! {

/// `x` is a power of two.
pub open spec fn is_pow2(x: int) -> bool
    decreases x,
{
    if x <= 0 {
        false
    } else if x == 1 {
        true
    } else {
        x % 2 == 0 && is_pow2(x / 2)
    }
}

/// Of two powers of two, a smaller one is at most half the larger one.
pub proof fn lemma_pow2_double_le(a: int, b: int)
    requires
        is_pow2(a),
        is_pow2(b),
        a < b,
    ensures
        2 * a <= b,
    decreases b,
{
    if a != 1 {
        lemma_pow2_double_le(a / 2, b / 2);
    }
}

proof fn lemma_max_pages_pow2()
    ensures
        is_pow2(MAX_PHYSICAL_PAGES as int),
{
    reveal_with_fuel(is_pow2, 17);
}

/// Value stored at an inner node: 1 exactly when both children are 1.
pub open spec fn and_of(x: u8, y: u8) -> u8 {
    if x == 1 && y == 1 {
        1
    } else {
        0
    }
}

proof fn lemma_and_u8(x: u8, y: u8)
    requires
        x == 0 || x == 1,
        y == 0 || y == 1,
    ensures
        x & y == and_of(x, y),
{
    assert(x == 0 || x == 1 ==> (y == 0 || y == 1 ==> x & y == (if x == 1 && y == 1 {
        1u8
    } else {
        0u8
    }))) by (bit_vector);
}

proof fn lemma_shifts(p: usize)
    requires
        p < 0x1_0000,
    ensures
        p << 1 == 2 * p,
        (p << 1) | 1 == 2 * p + 1,
        p >> 1 == p / 2,
{
    assert(p < 0x1_0000 ==> p << 1 == 2 * p) by (bit_vector);
    assert(p < 0x1_0000 ==> (p << 1) | 1 == 2 * p + 1) by (bit_vector);
    assert(p >> 1 == p / 2) by (bit_vector);
}

/// `i` is `p` or one of its ancestors in the heap numbering of a binary tree.
pub open spec fn is_ancestor(i: int, p: int) -> bool
    decreases p,
{
    if p <= 0 {
        false
    } else if i == p {
        true
    } else {
        is_ancestor(i, p / 2)
    }
}

/// Page frame allocator that keeps a segment tree over the managed frames and
/// always hands out the free frame with the lowest number.
///
/// `a[m + j]` is 1 when frame `offset + j` is in use; an inner node `a[i]`
/// (`1 <= i < m`) is 1 when every frame below it is in use.
pub struct SegmentTreeAllocator {
    a: [u8; 0x1_0000],
    m: usize,
    n: usize,
    offset: usize,
}

impl SegmentTreeAllocator {
    /// Number of leaves of the tree.
    pub closed spec fn leaf_count(&self) -> int {
        self.m as int
    }

    /// Frame number of leaf 0.
    pub closed spec fn frame_offset(&self) -> int {
        self.offset as int
    }

    /// Number of frames given at the last `init`.
    pub closed spec fn frame_count(&self) -> int {
        self.n as int
    }

    /// For each leaf `j`, whether frame `frame_offset() + j` is in use.
    pub closed spec fn used(&self) -> Seq<bool> {
        Seq::new(self.m as nat, |j: int| self.a@[self.m + j] == 1)
    }

    /// `used()` has one entry per leaf.
    pub broadcast proof fn lemma_used_len(s: &SegmentTreeAllocator)
        ensures
            #[trigger] s.used().len() == s.leaf_count(),
            0 <= s.leaf_count() <= usize::MAX,
            0 <= s.frame_offset() <= usize::MAX,
    {
    }

    spec fn node_ok(a: Seq<u8>, i: int) -> bool {
        a[i] == and_of(a[2 * i], a[2 * i + 1])
    }

    spec fn values_ok(a: Seq<u8>, m: int) -> bool {
        forall|k: int| 1 <= k < 2 * m ==> #[trigger] a[k] == 0 || a[k] == 1
    }

    /// The allocator has been initialised and its tree is consistent.
    pub closed spec fn wf(&self) -> bool {
        &&& is_pow2(self.m as int)
        &&& 2 <= self.m <= MAX_PHYSICAL_PAGES
        &&& Self::values_ok(self.a@, self.m as int)
        &&& forall|i: int| 1 <= i < self.m ==> #[trigger] Self::node_ok(self.a@, i)
    }

    /// A node covers exactly the leaves below it: it is 1 iff all of them are 1.
    proof fn lemma_node_covers(a: Seq<u8>, m: int, p: int, w: int)
        requires
            a.len() == 0x1_0000,
            2 * m <= 0x1_0000,
            Self::values_ok(a, m),
            forall|i: int| 1 <= i < m ==> #[trigger] Self::node_ok(a, i),
            is_pow2(w),
            p >= 1,
            p * w >= m,
            (p + 1) * w <= 2 * m,
        ensures
            a[p] == 1 <==> (forall|k: int| p * w <= k < (p + 1) * w ==> #[trigger] a[k] == 1),
        decreases w,
    {
        if w == 1 {
            assert(p * w == p && (p + 1) * w == p + 1) by (nonlinear_arith)
                requires
                    w == 1,
            ;
            if a[p] == 1 {
                assert forall|k: int| p * w <= k < (p + 1) * w implies #[trigger] a[k] == 1 by {
                    assert(k == p);
                }
            } else {
                assert(!(a[p] == 1));
            }
        } else {
            let h = w / 2;
            assert(w == 2 * h);
            assert(is_pow2(h));
            assert(p + 1 <= m) by (nonlinear_arith)
                requires
                    (p + 1) * w <= 2 * m,
                    w >= 2,
                    p >= 1,
            ;
            assert(p * w == (2 * p) * h) by (nonlinear_arith)
                requires
                    w == 2 * h,
            ;
            assert((p + 1) * w == (2 * p + 2) * h) by (nonlinear_arith)
                requires
                    w == 2 * h,
            ;
            assert((2 * p + 1) * h == p * w + h) by (nonlinear_arith)
                requires
                    w == 2 * h,
            ;
            assert(h >= 1);
            assert((2 * p + 2) * h == (2 * p + 1) * h + h) by (nonlinear_arith);
            assert((2 * p + 1) * h <= 2 * m);
            Self::lemma_node_covers(a, m, 2 * p, h);
            Self::lemma_node_covers(a, m, 2 * p + 1, h);
            assert(Self::node_ok(a, p));
            assert(a[2 * p] == 0 || a[2 * p] == 1);
            assert(a[2 * p + 1] == 0 || a[2 * p + 1] == 1);
            if a[p] == 1 {
                assert forall|k: int| p * w <= k < (p + 1) * w implies #[trigger] a[k] == 1 by {
                    assert(a[k] == 1);
                }
            } else {
                if a[2 * p] == 0 {
                    let k0 = choose|k: int| (2 * p) * h <= k < (2 * p + 1) * h && a[k] != 1;
                    assert(p * w <= k0 < (p + 1) * w && a[k0] != 1);
                } else {
                    let k0 = choose|k: int| (2 * p + 1) * h <= k < (2 * p + 2) * h && a[k] != 1;
                    assert(p * w <= k0 < (p + 1) * w && a[k0] != 1);
                }
            }
        }
    }

    /// The root is 1 exactly when every frame is in use.
    proof fn lemma_root(&self)
        requires
            self.wf(),
        ensures
            self.a@[1] == 1 <==> (forall|j: int| 0 <= j < self.m ==> #[trigger] self.used()[j]),
    {
        Self::lemma_node_covers(self.a@, self.m as int, 1, self.m as int);
        if self.a@[1] == 1 {
            assert forall|j: int| 0 <= j < self.m implies #[trigger] self.used()[j] by {
                assert(self.a@[self.m + j] == 1);
            }
        } else {
            let k = choose|k: int| self.m <= k < 2 * self.m && self.a@[k] != 1;
            assert(!self.used()[k - self.m]);
        }
    }
}


/// Leaf pattern right after `init` of `n` frames: leaves `1..=n` are free,
/// all others in use.
pub open spec fn init_used(m: int, n: int) -> Seq<bool> {
    Seq::new(m as nat, |j: int| !(1 <= j <= n))
}

/// After `init` of `n` frames, the free leaves are exactly leaves `1` to `n`.
pub proof fn lemma_init_used_frees_range(m: int, n: int)
    requires
        0 <= n < m,
    ensures
        init_used(m, n).len() == m,
        forall|j: int| 0 <= j < m ==> (!#[trigger] init_used(m, n)[j] <==> 1 <= j <= n),
        forall|j: int| 1 <= j <= n ==> !#[trigger] init_used(m, n)[j],
        init_used(m, n)[0],
{
}

impl SegmentTreeAllocator {
    /// The lowest free frame can be numbered without overflowing `usize`.
    pub open spec fn alloc_fits(&self) -> bool {
        forall|j: int|
            0 <= j < self.leaf_count() && !#[trigger] self.used()[j] && (forall|k: int|
                0 <= k < j ==> self.used()[k]) ==> self.frame_offset() + self.leaf_count() + j
                <= usize::MAX
    }

    /// `after` is `before` once `allocate` has handed out frame `result`: the
    /// free frame with the lowest number, now in use, and nothing else changed.
    pub open spec fn allocates(before: SegmentTreeAllocator, result: int, after: SegmentTreeAllocator) -> bool {
        let j = result - before.frame_offset();
        &&& after.wf()
        &&& after.leaf_count() == before.leaf_count()
        &&& after.frame_offset() == before.frame_offset()
        &&& after.frame_count() == before.frame_count()
        &&& 0 <= j < before.leaf_count()
        &&& !before.used()[j]
        &&& forall|k: int| 0 <= k < j ==> #[trigger] before.used()[k]
        &&& after.used() == before.used().update(j, true)
    }

    /// `after` is `before` once `dealloc` has taken frame `n` back: that frame
    /// is free, and nothing else changed.
    pub open spec fn deallocates(before: SegmentTreeAllocator, n: int, after: SegmentTreeAllocator) -> bool {
        &&& after.wf()
        &&& after.leaf_count() == before.leaf_count()
        &&& after.frame_offset() == before.frame_offset()
        &&& after.frame_count() == before.frame_count()
        &&& after.used() == before.used().update(n - before.frame_offset(), false)
    }

    /// An allocator with no frames, to be set up with `init`.
    pub fn new() -> (s: Self)
        ensures
            s.leaf_count() == 0,
            s.frame_offset() == 0,
            s.frame_count() == 0,
    {
        SegmentTreeAllocator { a: [0u8; 0x1_0000], m: 0, n: 0, offset: 0 }
    }

    /// Manages the physical frames `[l, r)` and marks all of them free:
    /// leaf `j` stands for frame `l - 1 + j`.
    pub fn init(&mut self, l: usize, r: usize)
        requires
            1 <= l <= r,
            r - l + 2 <= MAX_PHYSICAL_PAGES,
        ensures
            final(self).wf(),
            final(self).frame_offset() == l - 1,
            final(self).frame_count() == r - l,
            is_pow2(final(self).leaf_count()),
            final(self).leaf_count() >= r - l + 2,
            final(self).leaf_count() < 2 * (r - l + 2),
            final(self).used() == init_used(final(self).leaf_count(), r - l),
            forall|j: int|
                0 <= j < final(self).leaf_count() ==> (!#[trigger] final(self).used()[j] <==> l
                    <= final(self).frame_offset() + j < r),
    {
        self.offset = l - 1;
        self.n = r - l;
        self.m = 1;
        proof {
            lemma_max_pages_pow2();
            reveal_with_fuel(is_pow2, 2);
        }
        while self.m < self.n + 2
            invariant
                is_pow2(self.m as int),
                1 <= self.m <= MAX_PHYSICAL_PAGES,
                self.m == 1 || self.m < 2 * (self.n + 2),
                self.n + 2 <= MAX_PHYSICAL_PAGES,
                self.n == r - l,
                self.offset == l - 1,
                is_pow2(MAX_PHYSICAL_PAGES as int),
            decreases MAX_PHYSICAL_PAGES - self.m,
        {
            proof {
                lemma_pow2_double_le(self.m as int, MAX_PHYSICAL_PAGES as int);
                lemma_shifts(self.m);
                assert(is_pow2(2 * self.m) ) by {
                    assert((2 * self.m) / 2 == self.m);
                }
            }
            self.m = self.m << 1;
        }
        let m = self.m;
        let n = self.n;
        proof {
            lemma_shifts(m);
        }
        let mut i: usize = 1;
        while i < (m << 1)
            invariant
                1 <= i <= 2 * m,
                2 * m <= 0x1_0000,
                m << 1 == 2 * m,
                self.m == m,
                self.n == n,
                self.offset == l - 1,
                forall|k: int| 1 <= k < i ==> self.a@[k] == 1,
            decreases 2 * m - i,
        {
            self.a[i] = 1;
            i = i + 1;
        }
        i = 1;
        while i <= n
            invariant
                1 <= i <= n + 1,
                n + 2 <= m,
                2 * m <= 0x1_0000,
                self.m == m,
                self.n == n,
                self.offset == l - 1,
                forall|k: int|
                    1 <= k < 2 * m ==> self.a@[k] == (if m + 1 <= k < m + i {
                        0u8
                    } else {
                        1u8
                    }),
            decreases n + 1 - i,
        {
            self.a[m + i] = 0;
            i = i + 1;
        }
        assert forall|k: int| 1 <= k < 2 * m implies self.a@[k] == (if m + 1 <= k < m + n + 1 {
            0u8
        } else {
            1u8
        }) by {
            assert(i == n + 1);
        }
        let ghost leaves = self.a@;
        i = m;
        while i > 1
            invariant
                1 <= i <= m,
                2 * m <= 0x1_0000,
                is_pow2(m as int),
                2 <= m <= MAX_PHYSICAL_PAGES,
                self.m == m,
                self.n == n,
                self.offset == l - 1,
                Self::values_ok(self.a@, m as int),
                forall|k: int| m <= k < 2 * m ==> self.a@[k] == leaves[k],
                forall|k: int| i <= k < m ==> #[trigger] Self::node_ok(self.a@, k),
            decreases i,
        {
            i = i - 1;
            proof {
                lemma_shifts(i);
                lemma_and_u8(self.a@[2 * i], self.a@[2 * i + 1]);
            }
            let v = self.a[i << 1] & self.a[(i << 1) | 1];
            let ghost before = self.a@;
            self.a[i] = v;
            assert forall|k: int| i <= k < m implies #[trigger] Self::node_ok(self.a@, k) by {
                if k > i {
                    assert(Self::node_ok(before, k));
                }
            }
        }
        assert forall|j: int| 0 <= j < m implies #[trigger] self.used()[j] == init_used(m as int, n as int)[j] by {
            assert(self.a@[m + j] == leaves[m + j]);
        }
        assert(self.used() =~= init_used(m as int, n as int));
    }

    /// Hands out the free frame with the lowest number.
    #[verifier::spinoff_prover]
    pub fn allocate(&mut self) -> (result: usize)
        requires
            old(self).wf(),
            exists|j: int| 0 <= j < old(self).leaf_count() && !#[trigger] old(self).used()[j],
            old(self).alloc_fits(),
        ensures
            Self::allocates(*old(self), result as int, *final(self)),
    {
        assert(self.a@[1] == 0) by {
            self.lemma_root();
            assert(self.a@[1] == 0 || self.a@[1] == 1);
        }
        let p = self.lowest_free_leaf();
        let ghost m = self.m as int;
        let ghost j = p - m;
        assert(!self.used()[j]);
        assert forall|k: int| 0 <= k < j implies #[trigger] self.used()[k] by {
            assert(self.a@[m + k] == 1);
        }
        proof {
            self.lemma_alloc_fits(j);
        }
        let result = p + self.offset - self.m;
        self.set_leaf(p, 1);
        result
    }

    proof fn lemma_alloc_fits(&self, j: int)
        requires
            self.alloc_fits(),
            0 <= j < self.leaf_count(),
            !self.used()[j],
            forall|k: int| 0 <= k < j ==> #[trigger] self.used()[k],
        ensures
            self.frame_offset() + self.leaf_count() + j <= usize::MAX,
    {
    }

    /// `allocate` may be called: some frame is free and the lowest free frame
    /// can be numbered without overflowing `usize`.
    pub fn can_allocate(&self) -> (r: bool)
        requires
            self.wf(),
        ensures
            r == ((exists|j: int| 0 <= j < self.leaf_count() && !#[trigger] self.used()[j])
                && self.alloc_fits()),
    {
        proof {
            self.lemma_root();
        }
        if self.a[1] == 1 {
            assert(!(exists|j: int| 0 <= j < self.leaf_count() && !#[trigger] self.used()[j]));
            return false;
        }
        let p = self.lowest_free_leaf();
        let ghost m = self.m as int;
        let ghost j = p - m;
        assert(!self.used()[j]);
        assert forall|k: int| 0 <= k < j implies #[trigger] self.used()[k] by {
            assert(self.a@[m + k] == 1);
        }
        let r = self.offset <= usize::MAX - p;
        assert(r == self.alloc_fits()) by {
            if !r {
                assert(!(self.frame_offset() + self.leaf_count() + j <= usize::MAX));
            } else {
                assert forall|i: int|
                    0 <= i < self.leaf_count() && !#[trigger] self.used()[i] && (forall|k: int|
                        0 <= k < i ==> self.used()[k]) implies self.frame_offset()
                    + self.leaf_count() + i <= usize::MAX by {
                    if i > j {
                        assert(self.used()[j]);
                    }
                    if i < j {
                        assert(self.used()[i]);
                    }
                }
            }
        }
        r
    }

    /// `dealloc(n)` may be called: `n` is the frame of a leaf of the tree and
    /// that leaf is in use. The leaves that `init` leaves in use (frame
    /// `l - 1`, and the frames from `r` up to the end of the tree) count too;
    /// once returned, `allocate` can hand them out, as for any other leaf.
    pub fn can_dealloc(&self, n: usize) -> (r: bool)
        requires
            self.wf(),
        ensures
            r == (self.frame_offset() <= n < self.frame_offset() + self.leaf_count() && n
                + self.leaf_count() <= usize::MAX && self.used()[n - self.frame_offset()]),
    {
        if n < self.offset || n - self.offset >= self.m || n > usize::MAX - self.m {
            return false;
        }
        self.a[n - self.offset + self.m] == 1
    }

    /// Walks down from the root to the leftmost leaf that is 0.
    fn lowest_free_leaf(&self) -> (p: usize)
        requires
            self.wf(),
            self.a@[1] == 0,
        ensures
            self.m <= p < 2 * self.m,
            self.a@[p as int] == 0,
            forall|k: int| self.m <= k < p ==> #[trigger] self.a@[k] == 1,
    {
        let ghost m = self.m as int;
        let mut p: usize = 1;
        let ghost mut w: int = m;
        assert(p * w == m && (p + 1) * w == 2 * m) by (nonlinear_arith)
            requires
                p == 1,
                w == m,
        ;
        while p < self.m
            invariant
                self.wf(),
                self.m == m,
                1 <= p,
                is_pow2(w),
                p * w >= m,
                (p + 1) * w <= 2 * m,
                self.a@[p as int] == 0,
                forall|k: int| m <= k < p * w ==> #[trigger] self.a@[k] == 1,
            decreases w,
        {
            proof {
                if w == 1 {
                    assert(p * w == p) by (nonlinear_arith)
                        requires
                            w == 1,
                    ;
                }
            }
            let ghost h = w / 2;
            assert(w == 2 * h && is_pow2(h) && h >= 1);
            assert((2 * p) * h == p * w && (2 * p + 2) * h == (p + 1) * w && (2 * p + 1) * h == p
                * w + h) by (nonlinear_arith)
                requires
                    w == 2 * h,
            ;
            assert((p + 1) * w == p * w + w) by (nonlinear_arith);
            assert((2 * p + 1) * h <= 2 * m);
            assert(Self::node_ok(self.a@, p as int));
            proof {
                lemma_shifts(p);
            }
            if self.a[p << 1] == 0 {
                p = p << 1;
            } else {
                proof {
                    Self::lemma_node_covers(self.a@, m, 2 * p, h);
                }
                p = (p << 1) | 1;
            }
            proof {
                w = h;
            }
        }
        proof {
            if w != 1 {
                assert(w >= 2);
                assert(p + 1 <= m) by (nonlinear_arith)
                    requires
                        (p + 1) * w <= 2 * m,
                        w >= 2,
                ;
            }
        }
        assert(p * w == p && (p + 1) * w == p + 1) by (nonlinear_arith)
            requires
                w == 1,
        ;
        p
    }

    /// Returns frame `n` to the allocator.
    pub fn dealloc(&mut self, n: usize)
        requires
            old(self).wf(),
            old(self).frame_offset() <= n < old(self).frame_offset() + old(self).leaf_count(),
            n + old(self).leaf_count() <= usize::MAX,
            old(self).used()[n - old(self).frame_offset()],
        ensures
            Self::deallocates(*old(self), n as int, *final(self)),
    {
        let ghost m = self.m as int;
        let p = n + self.m - self.offset;
        let ghost j = p - m;
        assert(self.a@[p as int] == 1);
        self.set_leaf(p, 0);
    }

    /// Writes leaf `p` and brings the inner nodes above it up to date.
    fn set_leaf(&mut self, p: usize, v: u8)
        requires
            old(self).wf(),
            old(self).m <= p < 2 * old(self).m,
            v == 0 || v == 1,
        ensures
            final(self).wf(),
            final(self).m == old(self).m,
            final(self).n == old(self).n,
            final(self).offset == old(self).offset,
            final(self).used() == old(self).used().update(p - old(self).m, v == 1),
    {
        let ghost m = self.m as int;
        let ghost j = p - m;
        let ghost old_used = self.used();
        self.a[p] = v;
        assert forall|i: int| 1 <= i < m && !is_ancestor(i, (p / 2) as int) implies #[trigger] Self::node_ok(self.a@, i) by {
            assert(Self::node_ok(old(self).a@, i));
            if i == p / 2 {
                assert(is_ancestor(i, (p / 2) as int));
            }
        }
        proof {
            lemma_shifts(p);
        }
        self.fix_path(p >> 1);
        assert(self.used() =~= old_used.update(j, v == 1));
    }

    /// Recomputes the inner nodes on the path from `p` up to the root.
    fn fix_path(&mut self, p: usize)
        requires
            is_pow2(old(self).m as int),
            2 <= old(self).m <= MAX_PHYSICAL_PAGES,
            1 <= p < old(self).m,
            Self::values_ok(old(self).a@, old(self).m as int),
            forall|i: int|
                1 <= i < old(self).m && !is_ancestor(i, p as int) ==> #[trigger] Self::node_ok(
                    old(self).a@,
                    i,
                ),
        ensures
            final(self).wf(),
            final(self).m == old(self).m,
            final(self).n == old(self).n,
            final(self).offset == old(self).offset,
            forall|k: int| old(self).m <= k < 2 * old(self).m ==> final(self).a@[k] == old(self).a@[k],
    {
        let ghost m = self.m as int;
        let mut p = p;
        while p > 0
            invariant
                is_pow2(m),
                2 <= m <= MAX_PHYSICAL_PAGES,
                self.m == m,
                self.n == old(self).n,
                self.offset == old(self).offset,
                p < m,
                Self::values_ok(self.a@, m),
                forall|i: int|
                    1 <= i < m && !is_ancestor(i, p as int) ==> #[trigger] Self::node_ok(self.a@, i),
                forall|k: int| m <= k < 2 * m ==> self.a@[k] == old(self).a@[k],
            decreases p,
        {
            proof {
                lemma_shifts(p);
                lemma_and_u8(self.a@[2 * p], self.a@[2 * p + 1]);
            }
            let v = self.a[p << 1] & self.a[(p << 1) | 1];
            let ghost before = self.a@;
            self.a[p] = v;
            assert forall|i: int| 1 <= i < m && !is_ancestor(i, (p / 2) as int) implies #[trigger] Self::node_ok(self.a@, i) by {
                if i != p {
                    assert(!is_ancestor(i, p as int));
                    assert(Self::node_ok(before, i));
                    if 2 * i == p || 2 * i + 1 == p {
                        assert(i == p / 2);
                        assert(is_ancestor(i, (p / 2) as int));
                    }
                }
            }
            p = p >> 1;
        }
    }
}


/// Every slot in `[s, s + c)` is free.
pub open spec fn run_free(slots: Seq<bool>, s: int, c: int) -> bool {
    forall|k: int| s <= k < s + c ==> !#[trigger] slots[k]
}

/// A block of `c` free slots starts at `s` and lies inside `[1, n)`.
pub open spec fn fits(slots: Seq<bool>, n: int, s: int, c: int) -> bool {
    &&& 1 <= s
    &&& s + c <= n
    &&& run_free(slots, s, c)
}

/// Number of slots that a request for `cnt` frames takes: a request for none takes one.
pub open spec fn block_len(cnt: int) -> int {
    if cnt == 0 {
        1
    } else {
        cnt
    }
}

/// `slots` with `[s, s + c)` set to `v`.
pub open spec fn mark(slots: Seq<bool>, s: int, c: int, v: bool) -> Seq<bool> {
    Seq::new(slots.len(), |k: int| if s <= k < s + c { v } else { slots[k] })
}

/// Page frame allocator that hands out runs of consecutive frames, taking the
/// first run that is long enough.
///
/// Slot `i` (`1 <= i < n`) stands for frame `offset + i`; `a[i]` is 1 when it is in use.
pub struct FirstFitAllocator {
    a: [u8; 0x8000],
    n: usize,
    offset: usize,
}

impl FirstFitAllocator {
    /// For each slot, whether it is in use.
    pub closed spec fn slots(&self) -> Seq<bool> {
        Seq::new(MAX_PHYSICAL_PAGES as nat, |i: int| self.a@[i] == 1)
    }

    /// `slots()` has one entry per slot of the table.
    pub broadcast proof fn lemma_slots_len(s: &FirstFitAllocator)
        ensures
            #[trigger] s.slots().len() == MAX_PHYSICAL_PAGES,
    {
    }

    /// What the invariant bounds: the slots that `allocate` looks at lie in
    /// the table, and their frame numbers fit in `usize`.
    pub proof fn lemma_wf_bounds(&self)
        requires
            self.wf(),
        ensures
            0 <= self.frame_offset(),
            0 <= self.slot_end() <= MAX_PHYSICAL_PAGES,
            self.frame_offset() + self.slot_end() <= usize::MAX,
    {
    }

    /// One past the last slot that `allocate` looks at.
    pub closed spec fn slot_end(&self) -> int {
        self.n as int
    }

    /// Frame number of slot 0.
    pub closed spec fn frame_offset(&self) -> int {
        self.offset as int
    }

    /// Every slot holds 0 or 1, and the managed slots fit in the table.
    pub closed spec fn wf(&self) -> bool {
        &&& self.n <= MAX_PHYSICAL_PAGES
        &&& self.offset + self.n <= usize::MAX
        &&& forall|i: int| 0 <= i < MAX_PHYSICAL_PAGES ==> #[trigger] self.a@[i] == 0 || self.a@[i] == 1
    }

    /// An allocator with no frames and every slot free, to be set up with `init`.
    pub fn new() -> (s: Self)
        ensures
            s.wf(),
            s.slot_end() == 0,
            s.frame_offset() == 0,
            s.slots() == Seq::new(MAX_PHYSICAL_PAGES as nat, |i: int| false),
    {
        let s = FirstFitAllocator { a: [0u8; 0x8000], n: 0, offset: 0 };
        assert(s.slots() =~= Seq::new(MAX_PHYSICAL_PAGES as nat, |i: int| false));
        s
    }

    /// Manages the physical frames `[l, r)`: slots `1..=r - l` stand for them
    /// (slot `i` for frame `l - 1 + i`) and are marked free. Slots outside
    /// that range keep what they held.
    pub fn init(&mut self, l: usize, r: usize)
        requires
            old(self).wf(),
            1 <= l <= r,
            r - l + 1 <= MAX_PHYSICAL_PAGES,
        ensures
            final(self).wf(),
            final(self).frame_offset() == l - 1,
            final(self).slot_end() == r - l + 1,
            final(self).slots() == mark(old(self).slots(), 1, r - l, false),
    {
        self.offset = l - 1;
        self.n = r - l + 1;
        let n = self.n;
        let mut i: usize = 1;
        while i < n
            invariant
                1 <= i,
                i <= n || n == 0,
                n == r - l + 1,
                n <= MAX_PHYSICAL_PAGES,
                self.n == n,
                self.offset == l - 1,
                forall|k: int|
                    0 <= k < MAX_PHYSICAL_PAGES ==> #[trigger] self.a@[k] == (if 1 <= k < i {
                        0u8
                    } else {
                        old(self).a@[k]
                    }),
            decreases n - i,
        {
            self.a[i] = 0;
            i = i + 1;
        }
        assert(self.slots() =~= mark(old(self).slots(), 1, r - l, false));
    }

    /// Takes the first run of `cnt` free slots (one slot when `cnt` is 0) and
    /// returns the frame number of its first slot, or `None` when no run is
    /// long enough.
    pub fn allocate(&mut self, cnt: usize) -> (result: Option<usize>)
        requires
            old(self).wf(),
        ensures
            final(self).wf(),
            final(self).slot_end() == old(self).slot_end(),
            final(self).frame_offset() == old(self).frame_offset(),
            match result {
                Some(p) => {
                    let s = p - old(self).frame_offset();
                    &&& old(self).frame_offset() <= p
                    &&& fits(old(self).slots(), old(self).slot_end(), s, block_len(cnt as int))
                    &&& forall|t: int|
                        1 <= t < s ==> !fits(
                            old(self).slots(),
                            old(self).slot_end(),
                            t,
                            block_len(cnt as int),
                        )
                    &&& final(self).slots() == mark(
                        old(self).slots(),
                        s,
                        block_len(cnt as int),
                        true,
                    )
                },
                None => {
                    &&& forall|t: int|
                        !fits(old(self).slots(), old(self).slot_end(), t, block_len(cnt as int))
                    &&& final(self).slots() == old(self).slots()
                },
            },
    {
        let ghost slots = old(self).slots();
        let ghost n = self.n as int;
        let ghost c = block_len(cnt as int);
        let mut result: usize = 1;
        let mut i: usize = 1;
        while i < self.n
            invariant
                self.wf(),
                self.a@ == old(self).a@,
                self.n == n,
                n == old(self).n,
                self.offset == old(self).offset,
                slots == self.slots(),
                slots == old(self).slots(),
                c == block_len(cnt as int),
                1 <= result <= i,
                i <= n || n == 0,
                run_free(slots, result as int, i - result),
                i - result < c,
                result == 1 || slots[result - 1],
                forall|t: int| 1 <= t && t + c <= i ==> !#[trigger] fits(slots, n, t, c),
            decreases n - i,
        {
            if self.a[i] == 1 {
                assert forall|t: int| 1 <= t && t + c <= i + 1 implies !#[trigger] fits(slots, n, t, c) by {
                    if t + c == i + 1 {
                        assert(slots[i as int]);
                    }
                }
                result = i + 1;
            } else {
                if i - result + 1 >= cnt {
                    assert(i - result + 1 == c);
                    let mut j: usize = result;
                    while j < i + 1
                        invariant
                            result <= j <= i + 1,
                            i < n <= MAX_PHYSICAL_PAGES,
                            self.n == n,
                            n == old(self).n,
                            old(self).wf(),
                            self.offset == old(self).offset,
                            forall|k: int|
                                0 <= k < MAX_PHYSICAL_PAGES ==> #[trigger] self.a@[k] == (if result
                                    <= k < j {
                                    1u8
                                } else {
                                    old(self).a@[k]
                                }),
                        decreases i + 1 - j,
                    {
                        self.a[j] = 1;
                        j = j + 1;
                    }
                    assert(self.slots() =~= mark(slots, result as int, c, true));
                    assert(fits(slots, n, result as int, c));
                    assert forall|t: int| 1 <= t < result implies !fits(slots, n, t, c) by {
                        assert(t + c <= i);
                    }
                    return Some(result + self.offset);
                }
                assert forall|t: int| 1 <= t && t + c <= i + 1 implies !#[trigger] fits(slots, n, t, c) by {
                    if t + c == i + 1 {
                        assert(t < result);
                        if result > 1 {
                            assert(slots[result - 1]);
                        }
                    }
                }
            }
            i = i + 1;
        }
        assert forall|t: int| !#[trigger] fits(slots, n, t, c) by {
            if 1 <= t && t + c <= n {
                assert(t + c <= i);
            }
        }
        None
    }

    /// `dealloc(ppn, cnt)` may be called: the `cnt` frames from `ppn` on are
    /// managed and in use.
    pub fn can_dealloc(&self, ppn: usize, cnt: usize) -> (r: bool)
        requires
            self.wf(),
        ensures
            r == (self.frame_offset() <= ppn && ppn - self.frame_offset() + cnt <= usize::MAX && (
            ppn - self.frame_offset() + cnt <= MAX_PHYSICAL_PAGES || cnt == 0) && forall|k: int|
                ppn - self.frame_offset() <= k < ppn - self.frame_offset() + cnt
                    ==> #[trigger] self.slots()[k]),
    {
        if ppn < self.offset {
            return false;
        }
        let p = ppn - self.offset;
        if p > usize::MAX - cnt {
            return false;
        }
        if cnt == 0 {
            return true;
        }
        if p + cnt > MAX_PHYSICAL_PAGES {
            return false;
        }
        let mut i: usize = p;
        while i < p + cnt
            invariant
                p <= i <= p + cnt,
                p + cnt <= MAX_PHYSICAL_PAGES,
                p == ppn - self.offset,
                forall|k: int| p <= k < i ==> #[trigger] self.slots()[k],
            decreases p + cnt - i,
        {
            if self.a[i] != 1 {
                assert(!self.slots()[i as int]);
                return false;
            }
            i = i + 1;
        }
        true
    }

    /// Returns the `cnt` frames starting at frame `ppn` to the allocator.
    pub fn dealloc(&mut self, ppn: usize, cnt: usize)
        requires
            old(self).wf(),
            old(self).frame_offset() <= ppn,
            ppn - old(self).frame_offset() + cnt <= usize::MAX,
            ppn - old(self).frame_offset() + cnt <= MAX_PHYSICAL_PAGES || cnt == 0,
            forall|k: int|
                ppn - old(self).frame_offset() <= k < ppn - old(self).frame_offset() + cnt
                    ==> #[trigger] old(self).slots()[k],
        ensures
            final(self).wf(),
            final(self).slot_end() == old(self).slot_end(),
            final(self).frame_offset() == old(self).frame_offset(),
            final(self).slots() == mark(
                old(self).slots(),
                ppn - old(self).frame_offset(),
                cnt as int,
                false,
            ),
    {
        let p = ppn - self.offset;
        let mut i: usize = p;
        while i < p + cnt
            invariant
                p <= i <= p + cnt,
                p + cnt <= usize::MAX,
                p == ppn - old(self).offset,
                self.n == old(self).n,
                self.offset == old(self).offset,
                p + cnt <= MAX_PHYSICAL_PAGES || cnt == 0,
                forall|k: int| p <= k < p + cnt ==> #[trigger] old(self).slots()[k],
                forall|k: int|
                    0 <= k < MAX_PHYSICAL_PAGES ==> #[trigger] self.a@[k] == (if p <= k < i {
                        0u8
                    } else {
                        old(self).a@[k]
                    }),
            decreases p + cnt - i,
        {
            assert(old(self).slots()[i as int]);
            self.a[i] = 0;
            i = i + 1;
        }
        assert(self.slots() =~= mark(old(self).slots(), p as int, cnt as int, false));
    }
}


/// Index of the first `false` in `used`, or its length when there is none.
pub open spec fn lowest_free(used: Seq<bool>) -> int
    decreases used.len(),
{
    if used.len() == 0 {
        0
    } else if !used[0] {
        0
    } else {
        1 + lowest_free(used.drop_first())
    }
}

/// `lowest_free` is the first free index, and the only index that is free
/// with every index before it in use.
pub proof fn lemma_lowest_free(used: Seq<bool>)
    ensures
        0 <= lowest_free(used) <= used.len(),
        forall|k: int| 0 <= k < lowest_free(used) ==> #[trigger] used[k],
        lowest_free(used) < used.len() ==> !used[lowest_free(used)],
        forall|j: int|
            0 <= j < used.len() && !#[trigger] used[j] ==> lowest_free(used) <= j,
    decreases used.len(),
{
    if used.len() > 0 && used[0] {
        let rest = used.drop_first();
        lemma_lowest_free(rest);
        assert forall|k: int| 0 <= k < lowest_free(used) implies #[trigger] used[k] by {
            if k > 0 {
                assert(used[k] == rest[k - 1]);
            }
        }
        assert forall|j: int| 0 <= j < used.len() && !#[trigger] used[j] implies lowest_free(used) <= j by {
            assert(j > 0);
            assert(!rest[j - 1]);
        }
    }
}


/// Handing out frame `j` (`allocate`) and then returning it (`dealloc`)
/// leaves the segment tree allocator's frames as they were.
pub proof fn lemma_segment_alloc_dealloc_restores(used: Seq<bool>, j: int)
    requires
        0 <= j < used.len(),
        !used[j],
    ensures
        used.update(j, true).update(j, false) == used,
{
    assert(used.update(j, true).update(j, false) =~= used);
}

/// A frame that `allocate` handed out is not handed out again before it is
/// returned: after it, every free frame is another one.
pub proof fn lemma_segment_alloc_distinct(used: Seq<bool>, j: int, k: int)
    requires
        0 <= j < used.len(),
        0 <= k < used.len(),
        !used.update(j, true)[k],
    ensures
        k != j,
        !used[k],
{
}

/// Without a `dealloc` in between, successive `allocate`s of the segment
/// tree allocator return increasing frames: after the lowest free frame `j` is
/// handed out, every free frame lies above it.
pub proof fn lemma_segment_alloc_increasing(used: Seq<bool>, j: int, k: int)
    requires
        0 <= j < used.len(),
        0 <= k < used.len(),
        !used[j],
        forall|i: int| 0 <= i < j ==> #[trigger] used[i],
        !used.update(j, true)[k],
    ensures
        k > j,
{
    if k < j {
        assert(used[k]);
    }
}

/// Without a `dealloc` in between, two `allocate`s of the segment tree
/// allocator return increasing frames.
pub proof fn lemma_segment_successive_allocates_increase(
    s0: SegmentTreeAllocator,
    x: int,
    s1: SegmentTreeAllocator,
    y: int,
    s2: SegmentTreeAllocator,
)
    requires
        SegmentTreeAllocator::allocates(s0, x, s1),
        SegmentTreeAllocator::allocates(s1, y, s2),
    ensures
        y > x,
{
    SegmentTreeAllocator::lemma_used_len(&s0);
    lemma_segment_alloc_increasing(s0.used(), x - s0.frame_offset(), y - s1.frame_offset());
}

/// Handing out a frame and taking it back with `dealloc` restores which
/// frames are in use, and the next `allocate` hands out the same frame again.
pub proof fn lemma_segment_allocate_dealloc_allocate(
    s0: SegmentTreeAllocator,
    x: int,
    s1: SegmentTreeAllocator,
    s2: SegmentTreeAllocator,
    y: int,
    s3: SegmentTreeAllocator,
)
    requires
        SegmentTreeAllocator::allocates(s0, x, s1),
        SegmentTreeAllocator::deallocates(s1, x, s2),
    ensures
        s2.used() == s0.used(),
        SegmentTreeAllocator::allocates(s2, y, s3) ==> y == x,
{
    SegmentTreeAllocator::lemma_used_len(&s0);
    lemma_segment_alloc_dealloc_restores(s0.used(), x - s0.frame_offset());
    if SegmentTreeAllocator::allocates(s2, y, s3) {
        let j = x - s0.frame_offset();
        let k = y - s2.frame_offset();
        if k < j {
            assert(s0.used()[k]);
        }
        if j < k {
            assert(s2.used()[j]);
        }
    }
}

/// Taking a free run with `allocate` and giving it back with `dealloc`
/// leaves the first-fit allocator's slots as they were.
pub proof fn lemma_first_fit_alloc_dealloc_restores(slots: Seq<bool>, s: int, c: int)
    requires
        run_free(slots, s, c),
        0 <= s,
        s + c <= slots.len(),
    ensures
        mark(mark(slots, s, c, true), s, c, false) == slots,
{
    assert(mark(mark(slots, s, c, true), s, c, false) =~= slots);
}

/// A run that `allocate` handed out shares no slot with any run that a later
/// `allocate` can find free.
pub proof fn lemma_first_fit_alloc_disjoint(slots: Seq<bool>, n: int, s: int, c: int, t: int, d: int)
    requires
        s + c <= slots.len(),
        0 <= s,
        c >= 1,
        d >= 1,
        t + d <= slots.len(),
        fits(mark(slots, s, c, true), n, t, d),
    ensures
        t + d <= s || s + c <= t,
{
    if !(t + d <= s || s + c <= t) {
        let k = if s <= t { t } else { s };
        assert(mark(slots, s, c, true)[k]);
        assert(!mark(slots, s, c, true)[k]);
    }
}


/// What first fit hands out for a request of `cnt` frames starting at slot
/// `s`: `cnt` slots (one slot when `cnt` is 0), all free before and all in use
/// after, inside `[1, n)`; every other slot keeps its state.
pub proof fn lemma_first_fit_block(slots: Seq<bool>, n: int, s: int, cnt: int)
    requires
        cnt >= 0,
        fits(slots, n, s, block_len(cnt)),
    ensures
        1 <= s,
        cnt == 0 ==> s + 1 <= n,
        cnt > 0 ==> s + cnt <= n,
        forall|k: int| s <= k < s + cnt ==> !#[trigger] slots[k],
        !slots[s],
        forall|k: int|
            0 <= k < slots.len() ==> #[trigger] mark(slots, s, block_len(cnt), true)[k] == if s
                <= k < s + cnt || k == s {
                true
            } else {
                slots[k]
            },
{
}

} // verus!
