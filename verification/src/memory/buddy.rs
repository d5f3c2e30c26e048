//! Binary buddy allocator over physical frames: one free bitmap per order,
//! a set bit meaning "the block of 2^order frames at this index is free".
use vstd::prelude::*;
use vstd::arithmetic::power2::{pow2, lemma_pow2_unfold, lemma_pow2_pos, lemma_pow2_adds, lemma_pow2_strictly_increases};

verus! {

pub const MAX_FRAMES: usize = 1048576;
pub const BITMAP_WORDS: usize = 16384;
pub const MAX_ORDER: usize = 11;
pub const NUM_ORDERS: usize = 12;
pub const FRAME_SIZE: u64 = 4096;

/// Bit `b` of `w`.
pub open spec fn bit_of(w: u64, b: u64) -> bool {
    (w >> b) & 1u64 == 1u64
}

/// The block of the same order that a block merges with.
pub open spec fn buddy(idx: int) -> int {
    if idx % 2 == 0 { idx + 1 } else { idx - 1 }
}

/// Blocks of order `o` that lie inside the frame range.
pub open spec fn block_limit(o: int) -> int {
    pow2((20 - o) as nat) as int
}

/// A free-block state: order and block index to "free".
pub type FreeMap = spec_fn(int, int) -> bool;

/// Taking a block of order `order` at address `p` turned the free map `f0`
/// into `f1` and the free count `ff0` into `ff1`: the lowest free block of
/// the smallest order at or above `order` was split down to `order`.
pub open spec fn block_taken(f0: FreeMap, f1: FreeMap, ff0: usize, ff1: usize, order: int, p: u64) -> bool {
    exists|o: int, idx: int| {
        &&& order <= o <= MAX_ORDER
        &&& f0(o, idx)
        &&& forall|o2: int, i2: int| order <= o2 < o ==> !#[trigger] f0(o2, i2)
        &&& forall|j: int| 0 <= j < idx ==> !#[trigger] f0(o, j)
        &&& p == idx * pow2(o as nat) * FRAME_SIZE
        &&& f1 == after_split(f0, idx, o, order)
        &&& ff1 == if ff0 >= pow2(order as nat) { (ff0 - pow2(order as nat)) as usize } else { ff0 }
    }
}

/// `f` with block `(o, idx)` set to `v`.
pub open spec fn with_block(f: FreeMap, o: int, idx: int, v: bool) -> FreeMap {
    |o2: int, i2: int| if o2 == o && i2 == idx { v } else { f(o2, i2) }
}

/// Freeing block `idx` of order `o`: merge with the buddy while it is free
/// and the order is below the maximum, then mark the merged block free.
pub open spec fn after_free(f: FreeMap, idx: int, o: int) -> FreeMap
    decreases MAX_ORDER - o,
{
    if o >= MAX_ORDER || !f(o, buddy(idx)) {
        with_block(f, o, idx, true)
    } else {
        after_free(with_block(f, o, buddy(idx), false), idx / 2, o + 1)
    }
}

/// Taking block `idx` of order `o` to serve a request of order `order`:
/// the block leaves order `o` and, at every order `s` from `o - 1` down to
/// `order`, the upper half split off is marked free.
pub open spec fn after_split(f: FreeMap, idx: int, o: int, order: int) -> FreeMap {
    |o2: int, i2: int|
        if o2 == o {
            f(o2, i2) && i2 != idx
        } else if order <= o2 < o {
            f(o2, i2) || i2 == idx * pow2((o - o2) as nat) + 1
        } else {
            f(o2, i2)
        }
}

/// Frames `first .. first + n` given one by one to the allocator.
pub open spec fn after_add(f: FreeMap, first: int, n: int) -> FreeMap
    decreases n,
{
    if n <= 0 {
        f
    } else {
        after_free(after_add(f, first, n - 1), first + n - 1, 0)
    }
}

/// The upper half split off a block of order `o` at a lower order `o2`
/// stays within the blocks of order `o2`.
pub proof fn lemma_split_in_range(idx: int, o: int, o2: int)
    requires
        0 <= o2 < o <= MAX_ORDER,
        0 <= idx < block_limit(o),
    ensures
        idx * pow2((o - o2) as nat) + 1 < block_limit(o2),
{
    lemma_pow2_adds((20 - o) as nat, (o - o2) as nat);
    lemma_pow2_strictly_increases(0, (o - o2) as nat);
    vstd::arithmetic::power2::lemma2_to64();
    let p = pow2((o - o2) as nat) as int;
    let l = block_limit(o);
    assert(idx * p + 1 < l * p) by (nonlinear_arith)
        requires
            0 <= idx < l,
            p > 1;
}

pub proof fn lemma_set_bit(w: u64, b: u64)
    requires
        b < 64,
    ensures
        bit_of(w | (1u64 << b), b),
        forall|c: u64| c < 64 && c != b ==> #[trigger] bit_of(w | (1u64 << b), c) == bit_of(w, c),
{
    assert(((w | (1u64 << b)) >> b) & 1u64 == 1u64) by (bit_vector)
        requires
            b < 64,
    ;
    assert(forall|c: u64| c < 64 && c != b ==> ((w | (1u64 << b)) >> c) & 1u64 == (w >> c) & 1u64) by (bit_vector)
        requires
            b < 64,
    ;
}

pub proof fn lemma_clear_bit(w: u64, b: u64)
    requires
        b < 64,
    ensures
        !bit_of(w & !(1u64 << b), b),
        forall|c: u64| c < 64 && c != b ==> #[trigger] bit_of(w & !(1u64 << b), c) == bit_of(w, c),
{
    assert(((w & !(1u64 << b)) >> b) & 1u64 == 0u64) by (bit_vector)
        requires
            b < 64,
    ;
    assert(forall|c: u64| c < 64 && c != b ==> ((w & !(1u64 << b)) >> c) & 1u64 == (w >> c) & 1u64) by (bit_vector)
        requires
            b < 64,
    ;
}

pub proof fn lemma_test_bit(w: u64, b: u64)
    requires
        b < 64,
    ensures
        ((w & (1u64 << b)) != 0) == bit_of(w, b),
{
    assert(((w & (1u64 << b)) != 0) == ((w >> b) & 1u64 == 1u64)) by (bit_vector)
        requires
            b < 64,
    ;
}

/// `2^e` as a machine word.
pub fn pow2_usize(e: usize) -> (r: usize)
    requires
        e <= 30,
    ensures
        r as int == pow2(e as nat),
{
    let mut r: usize = 1;
    let mut i: usize = 0;
    proof {
        vstd::arithmetic::power2::lemma2_to64();
        vstd::arithmetic::power2::lemma2_to64_rest();
    }
    while i < e
        invariant
            i <= e,
            e <= 30,
            r as int == pow2(i as nat),
        decreases e - i,
    {
        proof {
            lemma_pow2_unfold((i + 1) as nat);
            if i + 1 < 30 {
                lemma_pow2_strictly_increases((i + 1) as nat, 30);
            }
            vstd::arithmetic::power2::lemma2_to64();
        }
        r = r * 2;
        i = i + 1;
    }
    r
}

pub struct BuddyAlloc {
    pub free_bitmaps: Vec<u64>,
    pub total_frames: usize,
    pub free_frames: usize,
}

impl BuddyAlloc {
    /// Block `idx` of order `o` is marked free.
    pub closed spec fn free_at(&self, o: int, idx: int) -> bool {
        bit_of(self.free_bitmaps@[o * BITMAP_WORDS + idx / 64], (idx % 64) as u64)
    }

    /// The free-block state as a function.
    pub open spec fn free_map(&self) -> FreeMap {
        |o: int, idx: int| 0 <= o <= MAX_ORDER && 0 <= idx < block_limit(o) && self.free_at(o, idx)
    }

    pub closed spec fn wf(&self) -> bool {
        &&& self.free_bitmaps@.len() == NUM_ORDERS * BITMAP_WORDS
        &&& forall|o: int, idx: int|
            0 <= o <= MAX_ORDER && block_limit(o) <= idx < MAX_FRAMES
                ==> !#[trigger] self.free_at(o, idx)
    }

    pub proof fn lemma_limits()
        ensures
            forall|o: int| 0 <= o <= MAX_ORDER ==> 512 <= #[trigger] block_limit(o) <= MAX_FRAMES,
            forall|o: int| 0 <= o < MAX_ORDER ==> #[trigger] block_limit(o) == 2 * block_limit(o + 1),
            block_limit(0) == MAX_FRAMES,
    {
        assert forall|o: int| 0 <= o <= MAX_ORDER implies 512 <= #[trigger] block_limit(o) <= MAX_FRAMES by {
            vstd::arithmetic::power2::lemma2_to64();
            if o < 11 {
                lemma_pow2_strictly_increases(9, (20 - o) as nat);
            }
            if 20 - o < 20 {
                lemma_pow2_strictly_increases((20 - o) as nat, 20);
            }
            if 20 - o == 9 {
            }
        }
        assert forall|o: int| 0 <= o < MAX_ORDER implies #[trigger] block_limit(o) == 2 * block_limit(o + 1) by {
            lemma_pow2_unfold((20 - o) as nat);
        }
        vstd::arithmetic::power2::lemma2_to64();
    }

    /// Two allocators with the same bitmaps have the same free blocks.
    pub proof fn lemma_same_bitmaps(a: &Self, b: &Self)
        requires
            a.wf(),
            a.free_bitmaps@ == b.free_bitmaps@,
        ensures
            b.wf(),
            b.free_map() == a.free_map(),
    {
        assert forall|o2: int, i2: int| 0 <= o2 <= MAX_ORDER && block_limit(o2) <= i2 < MAX_FRAMES
            implies !#[trigger] b.free_at(o2, i2) by {
            assert(!a.free_at(o2, i2));
        }
        assert forall|o2: int, i2: int| #[trigger] (b.free_map())(o2, i2) == (a.free_map())(o2, i2) by {
            assert(b.free_at(o2, i2) == a.free_at(o2, i2));
        }
        assert(b.free_map() =~= a.free_map());
    }

    /// An allocator with every block in use and no frames.
    pub fn new() -> (r: BuddyAlloc)
        ensures
            r.wf(),
            forall|o: int, idx: int| !#[trigger] (r.free_map())(o, idx),
            r.total_frames == 0,
            r.free_frames == 0,
    {
        let r = BuddyAlloc { free_bitmaps: vec![0u64; NUM_ORDERS * BITMAP_WORDS], total_frames: 0, free_frames: 0 };
        proof {
            Self::lemma_limits();
            assert forall|o: int, idx: int| 0 <= o <= MAX_ORDER && 0 <= idx < MAX_FRAMES implies !#[trigger] r.free_at(o, idx) by {
                let w = r.free_bitmaps@[o * BITMAP_WORDS + idx / 64];
                assert(w == 0u64);
                let b = (idx % 64) as u64;
                assert((0u64 >> b) & 1u64 == 0u64) by (bit_vector);
            }
        }
        r
    }

    fn set_free(&mut self, order: usize, block_idx: usize)
        requires
            old(self).free_bitmaps@.len() == NUM_ORDERS * BITMAP_WORDS,
            order <= MAX_ORDER,
            block_idx < MAX_FRAMES,
        ensures
            final(self).free_bitmaps@.len() == NUM_ORDERS * BITMAP_WORDS,
            final(self).total_frames == old(self).total_frames,
            final(self).free_frames == old(self).free_frames,
            forall|o: int, i: int| 0 <= o <= MAX_ORDER && 0 <= i < MAX_FRAMES ==>
                #[trigger] final(self).free_at(o, i) == if o == order && i == block_idx { true } else { old(self).free_at(o, i) },
    {
        let w = order * BITMAP_WORDS + block_idx / 64;
        let b = (block_idx % 64) as u64;
        let old_w = self.free_bitmaps[w];
        self.free_bitmaps.set(w, old_w | (1u64 << b));
        proof {
            lemma_set_bit(old_w, b);
            assert forall|o: int, i: int| 0 <= o <= MAX_ORDER && 0 <= i < MAX_FRAMES implies
                #[trigger] self.free_at(o, i) == if o == order && i == block_idx { true } else { old(self).free_at(o, i) } by {
                let wi = o * BITMAP_WORDS + i / 64;
                if wi == w {
                    assert(o == order) by (nonlinear_arith)
                        requires wi == w, wi == o * 16384 + i / 64, w == order * 16384 + block_idx / 64,
                            0 <= i < 1048576, 0 <= block_idx < 1048576, 0 <= o, 0 <= order;
                    if i != block_idx {
                        assert((i % 64) as u64 != b);
                    }
                }
            }
        }
    }

    fn clr_free(&mut self, order: usize, block_idx: usize)
        requires
            old(self).free_bitmaps@.len() == NUM_ORDERS * BITMAP_WORDS,
            order <= MAX_ORDER,
            block_idx < MAX_FRAMES,
        ensures
            final(self).free_bitmaps@.len() == NUM_ORDERS * BITMAP_WORDS,
            final(self).total_frames == old(self).total_frames,
            final(self).free_frames == old(self).free_frames,
            forall|o: int, i: int| 0 <= o <= MAX_ORDER && 0 <= i < MAX_FRAMES ==>
                #[trigger] final(self).free_at(o, i) == if o == order && i == block_idx { false } else { old(self).free_at(o, i) },
    {
        let w = order * BITMAP_WORDS + block_idx / 64;
        let b = (block_idx % 64) as u64;
        let old_w = self.free_bitmaps[w];
        self.free_bitmaps.set(w, old_w & !(1u64 << b));
        proof {
            lemma_clear_bit(old_w, b);
            assert forall|o: int, i: int| 0 <= o <= MAX_ORDER && 0 <= i < MAX_FRAMES implies
                #[trigger] self.free_at(o, i) == if o == order && i == block_idx { false } else { old(self).free_at(o, i) } by {
                let wi = o * BITMAP_WORDS + i / 64;
                if wi == w {
                    assert(o == order) by (nonlinear_arith)
                        requires wi == w, wi == o * 16384 + i / 64, w == order * 16384 + block_idx / 64,
                            0 <= i < 1048576, 0 <= block_idx < 1048576, 0 <= o, 0 <= order;
                    if i != block_idx {
                        assert((i % 64) as u64 != b);
                    }
                }
            }
        }
    }

    fn is_free(&self, order: usize, block_idx: usize) -> (r: bool)
        requires
            self.free_bitmaps@.len() == NUM_ORDERS * BITMAP_WORDS,
            order <= MAX_ORDER,
            block_idx < MAX_FRAMES,
        ensures
            r == self.free_at(order as int, block_idx as int),
    {
        let w = self.free_bitmaps[order * BITMAP_WORDS + block_idx / 64];
        let b = (block_idx % 64) as u64;
        proof {
            lemma_test_bit(w, b);
        }
        w & (1u64 << b) != 0
    }

    /// The lowest free block of order `order`, scanning the bitmap words that
    /// can hold blocks of that order.
    fn find_free(&self, order: usize) -> (r: Option<usize>)
        requires
            self.wf(),
            order <= MAX_ORDER,
        ensures
            r is None ==> forall|i: int| 0 <= i < MAX_FRAMES ==> !#[trigger] self.free_at(order as int, i),
            r is Some ==> {
                &&& r->0 < block_limit(order as int)
                &&& self.free_at(order as int, r->0 as int)
                &&& forall|j: int| 0 <= j < r->0 ==> !#[trigger] self.free_at(order as int, j)
            },
    {
        let frames = pow2_usize(order);
        proof {
            lemma_pow2_pos(order as nat);
        }
        let max = (MAX_FRAMES / frames) / 64 + 1;
        let limit = if max < BITMAP_WORDS { max } else { BITMAP_WORDS };
        proof {
            Self::lemma_limits();
            vstd::arithmetic::power2::lemma2_to64();
            assert(MAX_FRAMES as int == pow2(20));
            lemma_pow2_adds((20 - order) as nat, order as nat);
            vstd::arithmetic::div_mod::lemma_div_by_multiple(block_limit(order as int), frames as int);
            assert(MAX_FRAMES / frames == block_limit(order as int));
        }
        let base = order * BITMAP_WORDS;
        let mut i: usize = 0;
        while i < limit
            invariant
                self.wf(),
                order <= MAX_ORDER,
                base == order * BITMAP_WORDS,
                limit <= BITMAP_WORDS,
                limit * 64 >= block_limit(order as int),
                i <= limit,
                forall|j: int| 0 <= j < i * 64 ==> !#[trigger] self.free_at(order as int, j),
            decreases limit - i,
        {
            let w = self.free_bitmaps[base + i];
            if w != 0 {
                let tz = w.trailing_zeros();
                proof {
                    vstd::std_specs::bits::axiom_u64_trailing_zeros(w);
                }
                let r = i * 64 + tz as usize;
                proof {
                    assert(r / 64 == i as int);
                    assert(r % 64 == tz as int);
                    assert(self.free_at(order as int, r as int));
                    assert forall|j: int| 0 <= j < r implies !#[trigger] self.free_at(order as int, j) by {
                        if j >= i * 64 {
                            assert(j / 64 == i as int);
                            let jb = (j % 64) as u64;
                            assert(jb < tz);
                            assert((w >> jb) & 1u64 == 0u64);
                        }
                    }
                    if r >= block_limit(order as int) {
                        assert(!self.free_at(order as int, r as int));
                    }
                }
                return Some(r);
            }
            proof {
                assert forall|j: int| 0 <= j < (i + 1) * 64 implies !#[trigger] self.free_at(order as int, j) by {
                    if j >= i * 64 {
                        assert(j / 64 == i as int);
                        let jb = (j % 64) as u64;
                        assert((0u64 >> jb) & 1u64 == 0u64) by (bit_vector);
                    }
                }
            }
            i = i + 1;
        }
        None
    }

    /// Allocates `2^order` contiguous frames: takes the lowest free block
    /// of the lowest order at or above `order` that has one, splits it down
    /// to `order`, and returns its physical address.
    pub fn alloc_block(&mut self, order: usize) -> (r: Option<u64>)
        requires
            old(self).wf(),
            order <= MAX_ORDER,
        ensures
            final(self).wf(),
            final(self).total_frames == old(self).total_frames,
            r is None ==> {
                &&& *final(self) == *old(self)
                &&& final(self).free_map() == old(self).free_map()
                &&& final(self).free_frames == old(self).free_frames
                &&& forall|o: int, i: int| order <= o <= MAX_ORDER ==> !#[trigger] (old(self).free_map())(o, i)
            },
            r is Some ==> r->0 / FRAME_SIZE < MAX_FRAMES && r->0 % FRAME_SIZE == 0,
            r is Some ==> exists|o: int, idx: int| {
                &&& order <= o <= MAX_ORDER
                &&& (old(self).free_map())(o, idx)
                &&& forall|o2: int, i2: int| order <= o2 < o ==> !#[trigger] (old(self).free_map())(o2, i2)
                &&& forall|j: int| 0 <= j < idx ==> !#[trigger] (old(self).free_map())(o, j)
                &&& r->0 == idx * pow2(o as nat) * FRAME_SIZE
                &&& final(self).free_map() == after_split(old(self).free_map(), idx, o, order as int)
                &&& final(self).free_frames == if old(self).free_frames >= pow2(order as nat) {
                    (old(self).free_frames - pow2(order as nat)) as usize
                } else {
                    old(self).free_frames
                }
            },
    {
        let ghost f0 = self.free_map();
        proof {
            Self::lemma_limits();
        }
        let mut o = order;
        while o <= MAX_ORDER
            invariant
                self == old(self),
                self.wf(),
                order <= o <= MAX_ORDER + 1,
                f0 == old(self).free_map(),
                forall|o2: int, i2: int| order <= o2 < o ==> !#[trigger] f0(o2, i2),
                forall|o: int| 0 <= o <= MAX_ORDER ==> 512 <= #[trigger] block_limit(o) <= MAX_FRAMES,
                forall|o: int| 0 <= o < MAX_ORDER ==> #[trigger] block_limit(o) == 2 * block_limit(o + 1),
            decreases MAX_ORDER + 1 - o,
        {
            match self.find_free(o) {
                Some(idx) => {
                    self.clr_free(o, idx);
                    let mut cur = idx;
                    let mut s = o;
                    proof {
                        lemma_pow2_pos(0);
                        assert(pow2(0) == 1) by {
                            vstd::arithmetic::power2::lemma2_to64();
                        }
                        assert(self.free_map() =~= after_split(f0, idx as int, o as int, o as int));
                        assert(idx * pow2(0) == idx);
                    }
                    while s > order
                        invariant
                            order <= s <= o <= MAX_ORDER,
                            self.free_bitmaps@.len() == NUM_ORDERS * BITMAP_WORDS,
                            self.total_frames == old(self).total_frames,
                            self.free_frames == old(self).free_frames,
                            idx < block_limit(o as int),
                            cur as int == idx * pow2((o - s) as nat),
                            cur < block_limit(s as int),
                            f0 == old(self).free_map(),
                            self.free_map() == after_split(f0, idx as int, o as int, s as int),
                            forall|o2: int, i2: int| 0 <= o2 <= MAX_ORDER && block_limit(o2) <= i2 < MAX_FRAMES
                                ==> !#[trigger] self.free_at(o2, i2),
                            forall|o: int| 0 <= o <= MAX_ORDER ==> 512 <= #[trigger] block_limit(o) <= MAX_FRAMES,
                            forall|o: int| 0 <= o < MAX_ORDER ==> #[trigger] block_limit(o) == 2 * block_limit(o + 1),
                        decreases s - order,
                    {
                        s = s - 1;
                        assert(block_limit(s as int) == 2 * block_limit(s + 1));
                        let buddy_idx = cur * 2 + 1;
                        let ghost prev = self.free_map();
                        self.set_free(s, buddy_idx);
                        cur = cur * 2;
                        proof {
                            assert(buddy_idx == cur + 1);
                            lemma_pow2_unfold((o - s) as nat);
                            assert(cur as int == idx * pow2((o - s) as nat)) by (nonlinear_arith)
                                requires
                                    cur == 2 * (idx * pow2((o - s - 1) as nat)),
                                    pow2((o - s) as nat) == 2 * pow2((o - s - 1) as nat);
                            assert forall|o2: int, i2: int| #[trigger] (self.free_map())(o2, i2)
                                == (after_split(f0, idx as int, o as int, s as int))(o2, i2) by {
                                if 0 <= o2 <= MAX_ORDER && 0 <= i2 < block_limit(o2) {
                                    assert(block_limit(o2) <= MAX_FRAMES);
                                    assert(prev(o2, i2) == (after_split(f0, idx as int, o as int, (s + 1) as int))(o2, i2));
                                } else {
                                    assert(!(self.free_map())(o2, i2));
                                    if 0 <= o2 <= MAX_ORDER && i2 >= block_limit(o2) {
                                        assert(!f0(o2, i2));
                                        if s <= o2 < o {
                                            lemma_split_in_range(idx as int, o as int, o2);
                                        }
                                    }
                                }
                            }
                            assert(self.free_map() =~= after_split(f0, idx as int, o as int, s as int));
                        }
                    }
                    proof {
                        assert forall|o2: int, i2: int| 0 <= o2 <= MAX_ORDER && block_limit(o2) <= i2 < MAX_FRAMES
                            implies !#[trigger] self.free_at(o2, i2) by {
                        }
                        assert(self.wf());
                    }
                    let ghost before = *self;
                    let frames = pow2_usize(order);
                    if self.free_frames >= frames {
                        self.free_frames = self.free_frames - frames;
                    }
                    proof {
                        lemma_pow2_adds((20 - order) as nat, order as nat);
                        lemma_pow2_adds((o - order) as nat, order as nat);
                        vstd::arithmetic::power2::lemma2_to64();
                        assert(cur * frames < MAX_FRAMES) by (nonlinear_arith)
                            requires
                                cur < block_limit(order as int),
                                block_limit(order as int) * frames == pow2(20),
                                pow2(20) == MAX_FRAMES,
                                frames > 0;
                        assert(cur * frames == idx * pow2(o as nat)) by (nonlinear_arith)
                            requires
                                cur == idx * pow2((o - order) as nat),
                                pow2((o - order) as nat) * pow2(order as nat) == pow2(o as nat),
                                frames == pow2(order as nat);
                        assert(self.free_bitmaps == before.free_bitmaps);
                        assert(self.free_map() =~= before.free_map());
                        assert forall|o2: int, i2: int| 0 <= o2 <= MAX_ORDER && block_limit(o2) <= i2 < MAX_FRAMES
                            implies !#[trigger] self.free_at(o2, i2) by {
                            assert(!before.free_at(o2, i2));
                        }
                        assert(self.wf());
                    }
                    let r = cur as u64 * frames as u64 * FRAME_SIZE;
                    return Some(r);
                },
                None => {},
            }
            o = o + 1;
        }
        None
    }

    /// Frees `2^order` frames at `phys`, merging with free buddies up to the
    /// maximum order.
    pub fn free_block(&mut self, phys: u64, order: usize)
        requires
            old(self).wf(),
            order <= MAX_ORDER,
            phys / FRAME_SIZE < MAX_FRAMES,
            old(self).free_frames + pow2(order as nat) <= usize::MAX,
        ensures
            final(self).wf(),
            final(self).total_frames == old(self).total_frames,
            final(self).free_frames == old(self).free_frames + pow2(order as nat),
            final(self).free_map() == after_free(
                old(self).free_map(),
                (phys / FRAME_SIZE) as int / pow2(order as nat) as int,
                order as int,
            ),
    {
        proof {
            Self::lemma_limits();
            lemma_pow2_pos(order as nat);
            lemma_pow2_adds((20 - order) as nat, order as nat);
            vstd::arithmetic::power2::lemma2_to64();
        }
        let frames = pow2_usize(order);
        let block_idx = (phys / FRAME_SIZE) as usize / frames;
        proof {
            vstd::arithmetic::div_mod::lemma_div_by_multiple(block_limit(order as int), frames as int);
            vstd::arithmetic::div_mod::lemma_div_is_ordered((phys / FRAME_SIZE) as int, MAX_FRAMES as int, frames as int);
            assert(MAX_FRAMES as int == block_limit(order as int) * frames);
            assert(block_idx < block_limit(order as int)) by (nonlinear_arith)
                requires
                    block_idx == (phys / FRAME_SIZE) as int / frames as int,
                    (phys / FRAME_SIZE) < MAX_FRAMES,
                    MAX_FRAMES as int == block_limit(order as int) * frames,
                    frames > 0;
        }
        let ghost before = *self;
        self.free_frames = self.free_frames + frames;
        proof {
            Self::lemma_same_bitmaps(&before, self);
        }
        let ghost target = after_free(old(self).free_map(), block_idx as int, order as int);
        let mut idx = block_idx;
        let mut o = order;
        loop
            invariant
                self.wf(),
                self.total_frames == old(self).total_frames,
                self.free_frames == old(self).free_frames + pow2(order as nat),
                o <= MAX_ORDER,
                idx < block_limit(o as int),
                after_free(self.free_map(), idx as int, o as int) == target,
                forall|o: int| 0 <= o <= MAX_ORDER ==> 512 <= #[trigger] block_limit(o) <= MAX_FRAMES,
                forall|o: int| 0 <= o < MAX_ORDER ==> #[trigger] block_limit(o) == 2 * block_limit(o + 1),
            ensures
                self.wf(),
                self.total_frames == old(self).total_frames,
                self.free_frames == old(self).free_frames + pow2(order as nat),
                self.free_map() == target,
            decreases MAX_ORDER - o,
        {
            let bud = idx ^ 1;
            proof {
                assert(bud == buddy(idx as int)) by (bit_vector)
                    requires
                        idx < 0x100000usize,
                        bud == idx ^ 1usize;
            }
            let ghost prev = self.free_map();
            if o >= MAX_ORDER || !self.is_free(o, bud) {
                self.set_free(o, idx);
                proof {
                    assert(self.free_map() =~= with_block(prev, o as int, idx as int, true));
                }
                break;
            }
            self.clr_free(o, bud);
            proof {
                assert(self.free_map() =~= with_block(prev, o as int, bud as int, false));
                assert(block_limit(o as int) == 2 * block_limit(o + 1));
            }
            idx = idx / 2;
            o = o + 1;
        }
    }

    /// Marks frames `first .. first + count` as in use at order 0.
    pub fn mark_range_used(&mut self, first: usize, count: usize)
        requires
            old(self).wf(),
            first + count <= MAX_FRAMES,
        ensures
            final(self).wf(),
            final(self).total_frames == old(self).total_frames,
            final(self).free_frames == if count <= old(self).free_frames {
                (old(self).free_frames - count) as usize
            } else {
                old(self).free_frames
            },
            final(self).free_map() == (|o: int, i: int|
                (old(self).free_map())(o, i) && !(o == 0 && first <= i < first + count)),
    {
        let ghost f0 = self.free_map();
        proof {
            Self::lemma_limits();
        }
        let mut f = first;
        while f < first + count
            invariant
                self.wf(),
                first <= f <= first + count,
                first + count <= MAX_FRAMES,
                self.total_frames == old(self).total_frames,
                self.free_frames == old(self).free_frames,
                f0 == old(self).free_map(),
                self.free_map() == (|o: int, i: int| f0(o, i) && !(o == 0 && first <= i < f)),
                forall|o: int| 0 <= o <= MAX_ORDER ==> 512 <= #[trigger] block_limit(o) <= MAX_FRAMES,
            decreases first + count - f,
        {
            let ghost prev = self.free_map();
            self.clr_free(0, f);
            f = f + 1;
            proof {
                assert forall|o: int, i: int| #[trigger] (self.free_map())(o, i)
                    == (f0(o, i) && !(o == 0 && first <= i < f)) by {
                    if 0 <= o <= MAX_ORDER && 0 <= i < block_limit(o) {
                        assert(block_limit(o) <= MAX_FRAMES);
                        assert(prev(o, i) == (f0(o, i) && !(o == 0 && first <= i < f - 1)));
                    }
                }
                assert(self.free_map() =~= (|o: int, i: int| f0(o, i) && !(o == 0 && first <= i < f)));
            }
        }
        let ghost before = *self;
        if count <= self.free_frames {
            self.free_frames = self.free_frames - count;
        }
        proof {
            Self::lemma_same_bitmaps(&before, self);
        }
    }

    /// Gives frames `first .. first + count` to the allocator one by one.
    pub fn add_range(&mut self, first: usize, count: usize)
        requires
            old(self).wf(),
            first + count <= MAX_FRAMES,
            old(self).free_frames + count <= usize::MAX,
            old(self).total_frames + count <= usize::MAX,
        ensures
            final(self).wf(),
            final(self).total_frames == old(self).total_frames + count,
            final(self).free_frames == old(self).free_frames + count,
            final(self).free_map() == after_add(old(self).free_map(), first as int, count as int),
    {
        proof {
            vstd::arithmetic::power2::lemma2_to64();
        }
        let mut k: usize = 0;
        while k < count
            invariant
                self.wf(),
                k <= count,
                first + count <= MAX_FRAMES,
                old(self).free_frames + count <= usize::MAX,
                self.total_frames == old(self).total_frames,
                self.free_frames == old(self).free_frames + k,
                self.free_map() == after_add(old(self).free_map(), first as int, k as int),
                pow2(0) == 1,
            decreases count - k,
        {
            let f = first + k;
            let p = f as u64 * FRAME_SIZE;
            proof {
                assert(p / FRAME_SIZE == f as u64);
                assert(f as int / 1 == f as int);
            }
            self.free_block(p, 0);
            k = k + 1;
        }
        let ghost before = *self;
        self.total_frames = self.total_frames + count;
        proof {
            Self::lemma_same_bitmaps(&before, self);
        }
    }
}

/// Induction step of the round-trip law: from order `s` up.
proof fn lemma_free_undoes_split(f: FreeMap, idx: int, o: int, order: int, s: int)
    requires
        0 <= order <= s <= o <= MAX_ORDER,
        0 <= idx,
        f(o, idx),
        o == MAX_ORDER || !f(o, buddy(idx)),
        forall|t: int| order <= t < o ==> !#[trigger] f(t, idx * pow2((o - t) as nat) + 1),
    ensures
        after_free(after_split(f, idx, o, s), idx * pow2((o - s) as nat), s) == f,
    decreases o - s,
{
    let g = after_split(f, idx, o, s);
    let cur = idx * pow2((o - s) as nat);
    if s == o {
        vstd::arithmetic::power2::lemma2_to64();
        assert(cur == idx);
        assert(buddy(idx) != idx);
        assert(after_free(g, idx, o) == with_block(g, o, idx, true));
        assert(with_block(g, o, idx, true) =~= f);
    } else {
        lemma_pow2_unfold((o - s) as nat);
        let half = idx * pow2((o - s - 1) as nat);
        assert(cur == 2 * half) by (nonlinear_arith)
            requires
                cur == idx * pow2((o - s) as nat),
                half == idx * pow2((o - s - 1) as nat),
                pow2((o - s) as nat) == 2 * pow2((o - s - 1) as nat);
        assert(half >= 0) by (nonlinear_arith)
            requires
                half == idx * pow2((o - s - 1) as nat),
                idx >= 0;
        assert(cur % 2 == 0);
        assert(buddy(cur) == cur + 1);
        assert(g(s, cur + 1));
        assert(cur / 2 == half);
        let g2 = with_block(g, s, cur + 1, false);
        assert(!f(s, cur + 1));
        assert(g2 =~= after_split(f, idx, o, s + 1));
        assert(after_free(g, cur, s) == after_free(g2, cur / 2, s + 1));
        lemma_free_undoes_split(f, idx, o, order, s + 1);
    }
}

/// Freeing a block right after it was allocated restores every free block
/// as it was, provided the block taken was not beside a free buddy and the
/// halves split off it were not already free (both hold of a coalesced
/// buddy state).
pub proof fn law_alloc_then_free_restores(f: FreeMap, idx: int, o: int, order: int)
    requires
        0 <= order <= o <= MAX_ORDER,
        0 <= idx,
        f(o, idx),
        o == MAX_ORDER || !f(o, buddy(idx)),
        forall|t: int| order <= t < o ==> !#[trigger] f(t, idx * pow2((o - t) as nat) + 1),
    ensures
        after_free(after_split(f, idx, o, order), idx * pow2((o - order) as nat), order) == f,
{
    lemma_free_undoes_split(f, idx, o, order, order);
}

/// No free block lies beside a free buddy: what freeing leaves behind.
pub open spec fn coalesced(f: FreeMap) -> bool {
    forall|o: int, i: int| 0 <= o < MAX_ORDER && #[trigger] f(o, i) ==> !f(o, buddy(i))
}

/// Allocating a block of order `order` and freeing it at the address the
/// allocation gave restores the free blocks of a coalesced state.
pub proof fn law_take_then_free_restores(f0: FreeMap, f1: FreeMap, ff0: usize, ff1: usize, order: int, p: u64)
    requires
        0 <= order <= MAX_ORDER,
        coalesced(f0),
        block_taken(f0, f1, ff0, ff1, order, p),
    ensures
        after_free(f1, (p / FRAME_SIZE) as int / pow2(order as nat) as int, order) == f0,
{
    let (o, i) = choose|o: int, idx: int| {
        &&& order <= o <= MAX_ORDER
        &&& f0(o, idx)
        &&& forall|o2: int, i2: int| order <= o2 < o ==> !#[trigger] f0(o2, i2)
        &&& forall|j: int| 0 <= j < idx ==> !#[trigger] f0(o, j)
        &&& p == idx * pow2(o as nat) * FRAME_SIZE
        &&& f1 == after_split(f0, idx, o, order)
        &&& ff1 == if ff0 >= pow2(order as nat) { (ff0 - pow2(order as nat)) as usize } else { ff0 }
    };
    lemma_pow2_pos(o as nat);
    lemma_pow2_pos(order as nat);
    lemma_pow2_pos((o - order) as nat);
    lemma_pow2_adds((o - order) as nat, order as nat);
    assert(pow2(o as nat) == pow2((o - order) as nat) * pow2(order as nat));
    assert(i >= 0) by {
        if i < 0 {
            assert(i * pow2(o as nat) * FRAME_SIZE < 0) by (nonlinear_arith)
                requires i < 0, pow2(o as nat) > 0;
        }
    }
    let q = i * pow2((o - order) as nat);
    assert((p / FRAME_SIZE) as int == i * pow2(o as nat)) by (nonlinear_arith)
        requires p == i * pow2(o as nat) * FRAME_SIZE, FRAME_SIZE == 4096;
    assert(i * pow2(o as nat) == q * pow2(order as nat)) by (nonlinear_arith)
        requires q == i * pow2((o - order) as nat), pow2(o as nat) == pow2((o - order) as nat) * pow2(order as nat);
    assert((q * pow2(order as nat)) / pow2(order as nat) as int == q) by (nonlinear_arith)
        requires pow2(order as nat) > 0;
    assert(o == MAX_ORDER || !f0(o, buddy(i)));
    law_alloc_then_free_restores(f0, i, o, order);
}

} // verus!
