//! A buddy allocator over a 32 MiB arena of 4 KiB leaves: blocks of 2^k
//! leaves, split in halves to serve small requests and merged with their free
//! halves ("buddies") when released. It keeps the arena's bookkeeping (a tag
//! per leaf and a free list per order) and hands out offsets into the arena.

use vstd::arithmetic::power2::{lemma2_to64, lemma_pow2_adds, lemma_pow2_strictly_increases, lemma_pow2_unfold, pow2};
use vstd::prelude::*;

verus! {

/// Bytes in the arena.
pub const ARENA_SIZE: usize = 33554432;

/// Bytes in the smallest block, a leaf.
pub const MIN_BLOCK_SIZE: usize = 4096;

/// Number of block orders: 4 KiB up to 32 MiB.
pub const NUM_ORDERS: usize = 14;

/// Tag bit of an allocated block.
pub const TAG_ALLOCATED: u8 = 0x80;

/// Tag bits that hold a block's order.
pub const TAG_ORDER_MASK: u8 = 0x7F;

/// Leaves in the arena.
pub const LEAF_COUNT: usize = 8192;

/// Bytes in a block of order `k`: 4 KiB times 2^k.
pub open spec fn bsize(k: int) -> int {
    (4096 * pow2(k as nat)) as int
}

/// The order of the smallest block of at least `size` bytes, searching from
/// order `k` up to the largest order.
pub open spec fn least_order(size: int, k: int) -> int
    decreases 13 - k,
{
    if k >= 13 || size <= bsize(k) {
        k
    } else {
        least_order(size, k + 1)
    }
}

/// The order of the block that serves a request of `size` bytes, if the arena
/// can hold one: the smallest order whose blocks have at least `size` bytes.
pub open spec fn order_for(size: usize) -> Option<usize> {
    if size > ARENA_SIZE {
        None
    } else {
        Some(least_order(size as int, 0) as usize)
    }
}

/// Sizes of the orders.
pub proof fn lemma_bsize_values()
    ensures
        bsize(0) == 0x1000,
        bsize(1) == 0x2000,
        bsize(2) == 0x4000,
        bsize(3) == 0x8000,
        bsize(4) == 0x10000,
        bsize(5) == 0x20000,
        bsize(6) == 0x40000,
        bsize(7) == 0x80000,
        bsize(8) == 0x100000,
        bsize(9) == 0x200000,
        bsize(10) == 0x400000,
        bsize(11) == 0x800000,
        bsize(12) == 0x1000000,
        bsize(13) == 0x2000000,
{
    lemma2_to64();
}

/// A block of the next order is twice as large; every block is a whole number
/// of leaves and fits in the arena.
pub proof fn lemma_bsize_step(k: int)
    requires
        0 <= k < 14,
    ensures
        bsize(k) > 0,
        bsize(k) % 4096 == 0,
        bsize(k) <= ARENA_SIZE,
        k < 13 ==> bsize(k + 1) == 2 * bsize(k),
        bsize(k) == pow2((k + 12) as nat),
{
    lemma_bsize_values();
    lemma2_to64();
}

/// Larger orders have larger blocks.
proof fn lemma_bsize_monotone(j: int, k: int)
    requires
        0 <= j <= k < 14,
    ensures
        bsize(j) <= bsize(k),
        bsize(k) % bsize(j) == 0,
{
    lemma_bsize_values();
    let d = (k - j) as nat;
    lemma_pow2_adds(j as nat, d);
    assert(bsize(k) == bsize(j) * pow2(d)) by (nonlinear_arith)
        requires
            bsize(k) == 4096 * pow2(k as nat),
            bsize(j) == 4096 * pow2(j as nat),
            pow2(k as nat) == pow2(j as nat) * pow2(d),
    ;
    vstd::arithmetic::div_mod::lemma_mod_multiples_basic(pow2(d) as int, bsize(j));
    assert(pow2(d) * bsize(j) == bsize(j) * pow2(d)) by (nonlinear_arith);
}

/// The least order is within range and its blocks are large enough, while the
/// order below is too small.
proof fn lemma_least_order(size: int, k: int)
    requires
        0 <= k <= 13,
        size <= bsize(13),
    ensures
        k <= least_order(size, k) <= 13,
        size <= bsize(least_order(size, k)),
        least_order(size, k) > k ==> size > bsize(least_order(size, k) - 1),
        forall|j: int| k <= j < least_order(size, k) ==> size > #[trigger] bsize(j),
    decreases 13 - k,
{
    if k < 13 && size > bsize(k) {
        lemma_least_order(size, k + 1);
    }
}

/// Calls `usize::next_power_of_two`: the smallest power of two at least `n`.
#[verifier::external_body]
fn usize_next_power_of_two(n: usize) -> (r: usize)
    requires
        n <= ARENA_SIZE,
    ensures
        crate::num::is_power_of_two(r),
        n <= r,
        r == 1 || r / 2 < n,
{
    n.next_power_of_two()
}

/// Calls `usize::ilog2`: the base-2 logarithm of `n`, rounded down.
#[verifier::external_body]
fn usize_ilog2(n: usize) -> (r: u32)
    requires
        n > 0,
    ensures
        pow2(r as nat) <= n,
        n < pow2(r as nat + 1),
{
    n.ilog2()
}


/// Stepping by one block keeps the quotient's parity flipping: a multiple of
/// `2 * s` is a multiple of `s` with an even quotient, and adding `s` gives an
/// odd one.
proof fn lemma_even_block(p: int, s: int)
    requires
        s > 0,
        p >= 0,
        p % (2 * s) == 0,
    ensures
        p % s == 0,
        (p / s) % 2 == 0,
        (p + s) % s == 0,
        ((p + s) / s) % 2 == 1,
        (p + s) / s == p / s + 1,
{
    let q = p / (2 * s);
    assert(p == q * (2 * s)) by (nonlinear_arith)
        requires
            s > 0,
            p % (2 * s) == 0,
            q == p / (2 * s),
    ;
    assert(p == (2 * q) * s) by (nonlinear_arith)
        requires
            p == q * (2 * s),
    ;
    vstd::arithmetic::div_mod::lemma_mod_multiples_basic(2 * q, s);
    vstd::arithmetic::div_mod::lemma_div_multiples_vanish(2 * q, s);
    assert(p == s * (2 * q)) by (nonlinear_arith)
        requires
            p == (2 * q) * s,
    ;
    assert(p + s == (2 * q + 1) * s) by (nonlinear_arith)
        requires
            p == (2 * q) * s,
    ;
    assert(p + s == s * (2 * q + 1)) by (nonlinear_arith)
        requires
            p + s == (2 * q + 1) * s,
    ;
    vstd::arithmetic::div_mod::lemma_mod_multiples_basic(2 * q + 1, s);
    vstd::arithmetic::div_mod::lemma_div_multiples_vanish(2 * q + 1, s);
}

/// An aligned offset with an odd quotient is one block above a multiple of
/// twice the block size.
proof fn lemma_odd_block(p: int, s: int)
    requires
        s > 0,
        p >= 0,
        p % s == 0,
        (p / s) % 2 == 1,
    ensures
        p >= s,
        (p - s) % (2 * s) == 0,
        (p - s) / s == p / s - 1,
{
    let q = p / s;
    assert(p == q * s) by (nonlinear_arith)
        requires
            s > 0,
            p % s == 0,
            q == p / s,
    ;
    let h = q / 2;
    assert(q == 2 * h + 1);
    assert(p - s == h * (2 * s)) by (nonlinear_arith)
        requires
            p == q * s,
            q == 2 * h + 1,
    ;
    assert(h >= 0);
    assert(p - s >= 0) by (nonlinear_arith)
        requires
            p - s == h * (2 * s),
            h >= 0,
            s > 0,
    ;
    vstd::arithmetic::div_mod::lemma_mod_multiples_basic(h, 2 * s);
    assert(p - s == (q - 1) * s) by (nonlinear_arith)
        requires
            p == q * s,
    ;
    assert(p - s == s * (q - 1)) by (nonlinear_arith)
        requires
            p - s == (q - 1) * s,
    ;
    vstd::arithmetic::div_mod::lemma_div_multiples_vanish(q - 1, s);
}

/// A multiple of `a` is a multiple of every divisor of `a`.
proof fn lemma_mod_trans(p: int, a: int, b: int)
    requires
        a > 0,
        b > 0,
        p >= 0,
        p % a == 0,
        a % b == 0,
    ensures
        p % b == 0,
{
    let x = p / a;
    let y = a / b;
    assert(p == x * a) by (nonlinear_arith)
        requires
            a > 0,
            p % a == 0,
            x == p / a,
    ;
    assert(a == y * b) by (nonlinear_arith)
        requires
            b > 0,
            a % b == 0,
            y == a / b,
    ;
    assert(p == (x * y) * b) by (nonlinear_arith)
        requires
            p == x * a,
            a == y * b,
    ;
    vstd::arithmetic::div_mod::lemma_mod_multiples_basic(x * y, b);
}

/// The buddy of an aligned block is aligned, within one block of it, and its
/// buddy is the block itself; the lower of the two is aligned to twice the size.
proof fn lemma_buddy(p: int, k: int)
    requires
        0 <= k < 13,
        p >= 0,
        p % bsize(k) == 0,
    ensures
        buddy_of(p, k) >= 0,
        buddy_of(p, k) % bsize(k) == 0,
        buddy_of(buddy_of(p, k), k) == p,
        buddy_of(p, k) != p,
        (if p < buddy_of(p, k) { p } else { buddy_of(p, k) }) % bsize(k + 1) == 0,
        (if p < buddy_of(p, k) { buddy_of(p, k) } else { p }) == (if p < buddy_of(p, k) { p } else { buddy_of(p, k) }) + bsize(k),
{
    lemma_bsize_step(k);
    let s = bsize(k);
    if (p / s) % 2 == 0 {
        assert(p % (2 * s) == 0) by {
            let q = p / s;
            assert(p == q * s) by (nonlinear_arith)
                requires
                    s > 0,
                    p % s == 0,
                    q == p / s,
            ;
            assert(p == (q / 2) * (2 * s)) by (nonlinear_arith)
                requires
                    p == q * s,
                    q % 2 == 0,
            ;
            vstd::arithmetic::div_mod::lemma_mod_multiples_basic(q / 2, 2 * s);
        }
        lemma_even_block(p, s);
    } else {
        lemma_odd_block(p, s);
        lemma_even_block(p - s, s);
    }
}

/// Distinct multiples of a leaf have distinct leaf indexes.
proof fn lemma_leaf_index(x: int, y: int)
    requires
        x >= 0,
        y >= 0,
        x % 4096 == 0,
        y % 4096 == 0,
        x != y,
    ensures
        x / 4096 != y / 4096,
{
}

/// The bits of a tag: an order below 128 is its own tag when free, and setting
/// the allocated bit adds 128.
proof fn lemma_tag_bits(b: u8)
    by (bit_vector)
    requires
        b < 128,
    ensures
        (b | 0x80u8) == b + 128,
        (b & 0x80u8) == 0,
        (b & 0x7fu8) == b,
{
}

/// Flipping one bit of an offset in the arena adds or subtracts that bit.
proof fn lemma_xor_bit(x: usize, j: usize)
    by (bit_vector)
    requires
        j < 26,
        x < 0x2000000,
    ensures
        ((x >> j) & 1) == 0 ==> (x ^ (1usize << j)) == x + (1usize << j),
        ((x >> j) & 1) == 1 ==> (x ^ (1usize << j)) == x - (1usize << j),
        ((x >> j) & 1) == (x >> j) % 2,
{
}

/// A block size as a shift of a leaf is a shift of one.
proof fn lemma_shift_leaf(k: usize)
    by (bit_vector)
    requires
        k < 14,
    ensures
        (4096usize << k) == (1usize << (k + 12) as usize),
{
}

/// The buddy of a block at `off` of order `k` is `off` with the bit of the
/// block size flipped.
proof fn lemma_buddy_xor(off: usize, k: usize)
    requires
        k < 14,
        off < ARENA_SIZE,
    ensures
        (off ^ (4096usize << k)) == buddy_of(off as int, k as int),
        (4096usize << k) == bsize(k as int),
{
    let j = (k + 12) as usize;
    lemma_xor_bit(off, j);
    lemma_shift_leaf(k);
    lemma_bsize_step(k as int);
    vstd::bits::lemma_usize_shr_is_div(off, j);
    vstd::bits::lemma_usize_pow2_no_overflow(j as nat);
    vstd::bits::lemma_usize_shl_is_mul(1, j);
    assert((1usize << j) == bsize(k as int));
}

/// Removing the element at `i` of a sequence without duplicates removes that
/// value and keeps the others, each at its index or one below.
proof fn lemma_remove_member(s: Seq<usize>, i: int)
    requires
        s.no_duplicates(),
        0 <= i < s.len(),
    ensures
        s.remove(i).no_duplicates(),
        s.remove(i).len() == s.len() - 1,
        forall|y: usize| s.remove(i).contains(y) <==> s.contains(y) && y != s[i],
        forall|j: int|
            0 <= j < s.len() - 1 ==> (#[trigger] s.remove(i)[j] == s[j] && j < i) || (s.remove(i)[j] == s[j + 1]
                && j >= i),
{
    s.remove_ensures(i);
    let r = s.remove(i);
    assert forall|y: usize| r.contains(y) <==> s.contains(y) && y != s[i] by {
        if r.contains(y) {
            let j = choose|j: int| 0 <= j < r.len() && r[j] == y;
            if j < i {
                assert(s[j] == y);
            } else {
                assert(s[j + 1] == y);
            }
        }
        if s.contains(y) && y != s[i] {
            let j = choose|j: int| 0 <= j < s.len() && s[j] == y;
            if j < i {
                assert(r[j] == y);
            } else {
                assert(j != i);
                assert(r[j - 1] == y);
            }
        }
    }
    assert forall|a: int, b: int| 0 <= a < b < r.len() implies r[a] != r[b] by {
        let sa = if a < i { a } else { a + 1 };
        let sb = if b < i { b } else { b + 1 };
        assert(r[a] == s[sa]);
        assert(r[b] == s[sb]);
    }
}

/// The block at `off` of order `k` in the arena, aligned to its size.
pub open spec fn block_ok(b: (usize, usize)) -> bool {
    &&& b.1 < NUM_ORDERS
    &&& (b.0 as int) % bsize(b.1 as int) == 0
    &&& b.0 + bsize(b.1 as int) <= ARENA_SIZE
}

/// Two blocks share no byte.
pub open spec fn apart(a: (usize, usize), b: (usize, usize)) -> bool {
    a.0 + bsize(a.1 as int) <= b.0 || b.0 + bsize(b.1 as int) <= a.0
}

/// The buddy of the block at `off` of order `k`: the other half of the block
/// of order `k + 1` that holds it.
pub open spec fn buddy_of(off: int, k: int) -> int {
    if (off / bsize(k)) % 2 == 0 {
        off + bsize(k)
    } else {
        off - bsize(k)
    }
}

/// The tag of a free block of order `k`.
pub open spec fn free_tag(k: int) -> u8 {
    k as u8
}

/// The tag of an allocated block of order `k`.
pub open spec fn allocated_tag(k: int) -> u8 {
    (k + 128) as u8
}

/// The bookkeeping of the arena: a tag per leaf, which records the order of
/// the block that starts there and whether it is allocated, and per order a
/// list of the free blocks' offsets, whose last element is the list's head.
pub struct BuddyAllocator {
    free_lists: Vec<Vec<usize>>,
    tags: Vec<u8>,
    allocated: Ghost<Set<(usize, usize)>>,
}

impl BuddyAllocator {
    /// The order of the block that serves a request of `size` bytes: `None` when
    /// the request is larger than the arena, order 0 up to one leaf, else the
    /// order whose block size is `size` rounded up to a power of two.
    pub fn calculate_order(size: usize) -> (r: Option<usize>)
        ensures
            r == order_for(size),
    {
        if size > ARENA_SIZE {
            return None;
        }
        if size <= MIN_BLOCK_SIZE {
            proof {
                lemma_bsize_values();
            }
            return Some(0);
        }
        let p = usize_next_power_of_two(size);
        let l = usize_ilog2(p);
        proof {
            lemma2_to64();
            let e = choose|e: nat| pow2(e) == p;
            assert(pow2(e) == p);
            if e < l as nat {
                lemma_pow2_strictly_increases(e, l as nat);
            }
            if e > l as nat {
                lemma_pow2_strictly_increases((l + 1) as nat, e);
            }
            assert(e == l as nat);
            if l <= 12 {
                if l < 12 {
                    lemma_pow2_strictly_increases(l as nat, 12);
                }
            }
            assert(l > 12);
            if l >= 26 {
                if l > 26 {
                    lemma_pow2_strictly_increases(26, l as nat);
                }
                lemma_pow2_unfold(l as nat);
            }
            assert(l <= 25) by {
                if l > 25 {
                    lemma_pow2_unfold(l as nat);
                    if l > 26 {
                        lemma_pow2_strictly_increases(26, l as nat);
                    }
                }
            }
        }
        let order = (l as usize) - 12;
        if order >= NUM_ORDERS {
            return None;
        }
        proof {
            let m = least_order(size as int, 0);
            lemma_bsize_step(13);
            lemma_least_order(size as int, 0);
            lemma_bsize_step(order as int);
            lemma_bsize_step((order - 1) as int);
            assert(bsize(order as int) == p);
            lemma_pow2_unfold(l as nat);
            assert(bsize(order - 1) == p / 2);
            if order < m {
                assert(size > bsize(order as int));
            }
            if order > m {
                lemma_bsize_monotone(m, order - 1);
            }
        }
        Some(order)
    }

    /// The free list of order `k`, head last.
    pub closed spec fn free_list(self, k: int) -> Seq<usize> {
        self.free_lists@[k]@
    }

    /// The blocks handed out and not yet released.
    pub closed spec fn allocated(self) -> Set<(usize, usize)> {
        self.allocated@
    }

    /// The block is in the free list of its order.
    pub open spec fn is_free(self, b: (usize, usize)) -> bool {
        b.1 < NUM_ORDERS && self.free_list(b.1 as int).contains(b.0)
    }

    /// The block is free or handed out.
    pub open spec fn is_block(self, b: (usize, usize)) -> bool {
        self.is_free(b) || self.allocated().contains(b)
    }

    /// The tag of the leaf at `off`.
    pub closed spec fn tag_at(self, off: int) -> u8 {
        self.tags@[off / 4096]
    }

    /// The allocator's invariant: the tags and lists have their sizes; free and
    /// allocated blocks are aligned, inside the arena and tagged at their start;
    /// no two of them overlap; no free list holds an offset twice, nor a block
    /// together with its buddy.
    pub closed spec fn wf(self) -> bool {
        &&& self.tags@.len() == LEAF_COUNT
        &&& self.free_lists@.len() == NUM_ORDERS
        &&& forall|k: int| 0 <= k < NUM_ORDERS ==> (#[trigger] self.free_list(k)).no_duplicates()
        &&& forall|k: int, i: int|
            0 <= k < NUM_ORDERS && 0 <= i < self.free_list(k).len() ==> block_ok(
                (#[trigger] self.free_list(k)[i], k as usize),
            ) && self.tag_at(self.free_list(k)[i] as int) == free_tag(k)
        &&& forall|b: (usize, usize)|
            #[trigger] self.allocated().contains(b) ==> block_ok(b) && self.tag_at(b.0 as int)
                == allocated_tag(b.1 as int)
        &&& forall|a: (usize, usize), b: (usize, usize)|
            #[trigger] self.is_block(a) && #[trigger] self.is_block(b) && a != b ==> apart(a, b)
        &&& forall|k: int, i: int, j: int|
            0 <= k < NUM_ORDERS && 0 <= i < self.free_list(k).len() && 0 <= j < self.free_list(k).len()
                ==> buddy_of(#[trigger] self.free_list(k)[i] as int, k) != #[trigger] self.free_list(k)[j]
    }

    /// The lowest order from `k` up whose free list is not empty, or
    /// `NUM_ORDERS` if there is none.
    pub open spec fn first_free_order(self, k: int) -> int
        decreases NUM_ORDERS - k,
    {
        if k >= NUM_ORDERS {
            NUM_ORDERS as int
        } else if self.free_list(k).len() > 0 {
            k
        } else {
            self.first_free_order(k + 1)
        }
    }

    /// A fresh arena: one free block of the largest order at offset 0.
    pub fn new() -> (r: Self)
        ensures
            r.wf(),
            r.allocated().is_empty(),
            forall|k: int|
                0 <= k < NUM_ORDERS ==> #[trigger] r.free_list(k) == if k == NUM_ORDERS - 1 {
                    seq![0usize]
                } else {
                    Seq::<usize>::empty()
                },
    {
        let mut free_lists: Vec<Vec<usize>> = Vec::with_capacity(NUM_ORDERS);
        let mut k: usize = 0;
        while k < NUM_ORDERS
            invariant
                k <= NUM_ORDERS,
                free_lists@.len() == k,
                forall|j: int| 0 <= j < k ==> (#[trigger] free_lists@[j])@.len() == 0,
            decreases NUM_ORDERS - k,
        {
            free_lists.push(Vec::new());
            k = k + 1;
        }
        let max_order = NUM_ORDERS - 1;
        free_lists[max_order].push(0);
        let mut tags: Vec<u8> = Vec::with_capacity(LEAF_COUNT);
        let mut i: usize = 0;
        while i < LEAF_COUNT
            invariant
                i <= LEAF_COUNT,
                tags@.len() == i,
            decreases LEAF_COUNT - i,
        {
            tags.push(0);
            i = i + 1;
        }
        tags[0] = max_order as u8;
        let r = BuddyAllocator { free_lists, tags, allocated: Ghost(Set::empty()) };
        proof {
            lemma_bsize_values();
            assert forall|k: int|
                0 <= k < NUM_ORDERS implies #[trigger] r.free_list(k) == if k == NUM_ORDERS - 1 {
                    seq![0usize]
                } else {
                    Seq::<usize>::empty()
                } by {
                if k == NUM_ORDERS - 1 {
                    assert(r.free_list(k) =~= seq![0usize]);
                } else {
                    assert(r.free_list(k) =~= Seq::<usize>::empty());
                }
            }
            assert forall|a: (usize, usize), b: (usize, usize)|
                #[trigger] r.is_block(a) && #[trigger] r.is_block(b) && a != b implies apart(a, b) by {
                assert(r.free_list(a.1 as int).contains(a.0));
                assert(r.free_list(b.1 as int).contains(b.0));
            }
            assert forall|k: int, i: int, j: int|
                0 <= k < NUM_ORDERS && 0 <= i < r.free_list(k).len() && 0 <= j < r.free_list(k).len()
                    implies buddy_of(#[trigger] r.free_list(k)[i] as int, k) != #[trigger] r.free_list(k)[j] by {
            }
        }
        r
    }
}

impl BuddyAllocator {
    /// Puts `off` at the head of the free list of `order`.
    fn push_front(&mut self, order: usize, off: usize)
        requires
            order < old(self).free_lists@.len(),
        ensures
            final(self).free_lists@.len() == old(self).free_lists@.len(),
            final(self).free_list(order as int) == old(self).free_list(order as int).push(off),
            forall|k: int| 0 <= k < old(self).free_lists@.len() && k != order ==> #[trigger] final(self).free_list(k) == old(self).free_list(k),
            final(self).tags == old(self).tags,
            final(self).allocated == old(self).allocated,
    {
        self.free_lists[order].push(off);
    }

    /// Takes the head off the free list of `order`.
    fn pop_front(&mut self, order: usize) -> (r: usize)
        requires
            order < old(self).free_lists@.len(),
            old(self).free_list(order as int).len() > 0,
        ensures
            r == old(self).free_list(order as int).last(),
            final(self).free_lists@.len() == old(self).free_lists@.len(),
            final(self).free_list(order as int) == old(self).free_list(order as int).drop_last(),
            forall|k: int| 0 <= k < old(self).free_lists@.len() && k != order ==> #[trigger] final(self).free_list(k) == old(self).free_list(k),
            final(self).tags == old(self).tags,
            final(self).allocated == old(self).allocated,
    {
        self.free_lists[order].pop().unwrap()
    }

    /// Takes `off` out of the free list of `order`, keeping the order of the
    /// others; returns whether it was there.
    fn remove(&mut self, order: usize, off: usize) -> (found: bool)
        requires
            order < old(self).free_lists@.len(),
            old(self).free_list(order as int).no_duplicates(),
        ensures
            found == old(self).free_list(order as int).contains(off),
            final(self).free_lists@.len() == old(self).free_lists@.len(),
            final(self).free_list(order as int) == if found {
                old(self).free_list(order as int).remove(old(self).free_list(order as int).index_of(off))
            } else {
                old(self).free_list(order as int)
            },
            forall|k: int| 0 <= k < old(self).free_lists@.len() && k != order ==> #[trigger] final(self).free_list(k) == old(self).free_list(k),
            final(self).tags == old(self).tags,
            final(self).allocated == old(self).allocated,
    {
        let n = self.free_lists[order].len();
        let mut i: usize = 0;
        while i < n
            invariant
                i <= n,
                n == old(self).free_list(order as int).len(),
                *self == *old(self),
                order < old(self).free_lists@.len(),
                old(self).free_list(order as int).no_duplicates(),
                forall|j: int| 0 <= j < i ==> old(self).free_list(order as int)[j] != off,
            decreases n - i,
        {
            if self.free_lists[order][i] == off {
                proof {
                    let l = old(self).free_list(order as int);
                    assert(l.contains(off));
                    let j = l.index_of(off);
                    assert(l[j] == off);
                    assert(l[i as int] == off);
                    assert(j == i);
                }
                self.free_lists[order].remove(i);
                return true;
            }
            i = i + 1;
        }
        false
    }
}

impl BuddyAllocator {
    /// What `allocate(size)` hands out: the head of the lowest non-empty free list
    /// from the order that `size` needs, at that order; `None` if the request
    /// is too large or no such list exists.
    pub open spec fn alloc_result(self, size: usize) -> Option<(usize, usize)> {
        match order_for(size) {
            None => None,
            Some(n) => {
                let o = self.first_free_order(n as int);
                if o >= NUM_ORDERS {
                    None
                } else {
                    Some((self.free_list(o).last(), n))
                }
            },
        }
    }

    /// The free list of order `k` after the head `p` of the list of order `o`
    /// is split down to order `n`: each order from `n` below `o` gains the upper
    /// half split off at that order, and the list of `o` loses `p`.
    pub open spec fn split_list(self, p: usize, n: int, o: int, k: int) -> Seq<usize> {
        if n <= k < o {
            self.free_list(k).push((p + bsize(k)) as usize)
        } else if k == o {
            self.free_list(o).drop_last()
        } else {
            self.free_list(k)
        }
    }

    /// The lowest non-empty free order from `k` is at least `k`, and if it is
    /// an order, its list is not empty.
    proof fn lemma_first_free_order_found(self, k: int)
        requires
            0 <= k <= NUM_ORDERS,
        ensures
            k <= self.first_free_order(k) <= NUM_ORDERS,
            self.first_free_order(k) < NUM_ORDERS ==> self.free_list(self.first_free_order(k)).len() > 0,
        decreases NUM_ORDERS - k,
    {
        if k < NUM_ORDERS && self.free_list(k).len() == 0 {
            self.lemma_first_free_order_found(k + 1);
        }
    }

    /// The lowest non-empty free order from `n` is at most any non-empty
    /// order from `n` up.
    proof fn lemma_first_free_order_at_most(self, n: int, k: int)
        requires
            0 <= n <= k < NUM_ORDERS,
            self.free_list(k).len() > 0,
        ensures
            self.first_free_order(n) <= k,
        decreases k - n,
    {
        if n < k && self.free_list(n).len() == 0 {
            self.lemma_first_free_order_at_most(n + 1, k);
        }
    }

    /// A request is granted exactly when it fits in the arena and some free
    /// block of at least the order it needs exists: the allocator never
    /// refuses a request that a free block could serve, by splitting it.
    pub proof fn law_granted_iff_free_block(self, len: usize)
        requires
            self.wf(),
        ensures
            self.alloc_result(len) is Some <==> (len <= ARENA_SIZE && exists|k: int|
                least_order(len as int, 0) <= k < NUM_ORDERS && #[trigger] self.free_list(k).len() > 0),
    {
        if len <= ARENA_SIZE {
            lemma_bsize_values();
            lemma_least_order(len as int, 0);
            let n = least_order(len as int, 0);
            self.lemma_first_free_order_found(n);
            let o = self.first_free_order(n);
            if o < NUM_ORDERS {
                assert(self.free_list(o).len() > 0);
            }
            if exists|k: int| n <= k < NUM_ORDERS && #[trigger] self.free_list(k).len() > 0 {
                let k = choose|k: int| n <= k < NUM_ORDERS && #[trigger] self.free_list(k).len() > 0;
                self.lemma_first_free_order_at_most(n, k);
            }
        }
    }

    /// A request of `len` bytes is refused when it is larger than the arena.
    /// A block that is granted is the smallest that holds `len` bytes (4 KiB,
    /// or `len` rounded up to a power of two), lies inside the arena at an
    /// offset that is a multiple of its size, and shares no byte with any
    /// block handed out and not given back.
    pub proof fn law_granted_block_fits(self, len: usize)
        requires
            self.wf(),
        ensures
            len > ARENA_SIZE ==> self.alloc_result(len) is None,
            self.alloc_result(len) matches Some(b) ==> {
                &&& len <= bsize(b.1 as int)
                &&& (b.1 == 0 || len > bsize(b.1 - 1))
                &&& block_ok(b)
                &&& forall|x: (usize, usize)| #[trigger] self.allocated().contains(x) ==> apart(b, x)
            },
    {
        if len <= ARENA_SIZE {
            lemma_bsize_values();
            lemma_least_order(len as int, 0);
            let n = least_order(len as int, 0);
            self.lemma_first_free_order_found(n);
            let o = self.first_free_order(n);
            if o < NUM_ORDERS {
                let l = self.free_list(o);
                let p = l.last();
                assert(l[l.len() - 1] == p);
                assert(block_ok((p, o as usize)));
                assert(self.tag_at(p as int) == free_tag(o));
                lemma_bsize_monotone(n, o);
                lemma_bsize_step(n);
                lemma_bsize_step(o);
                lemma_mod_trans(p as int, bsize(o), bsize(n));
                assert(self.is_block((p, o as usize))) by {
                    assert(self.free_list(o).contains(p));
                }
                assert forall|x: (usize, usize)| #[trigger] self.allocated().contains(x) implies apart((p, n as usize), x) by {
                    assert(self.is_block(x));
                    if x == (p, o as usize) {
                        assert(self.tag_at(p as int) == allocated_tag(o));
                    }
                    assert(apart((p, o as usize), x));
                }
            }
        }
    }

    /// On a fresh arena, with one free block of the largest order and nothing
    /// handed out, every request of at most the arena's size is granted, at
    /// offset 0.
    pub proof fn law_fresh_arena_grants(self, len: usize)
        requires
            self.wf(),
            forall|k: int|
                0 <= k < NUM_ORDERS ==> #[trigger] self.free_list(k) == if k == NUM_ORDERS - 1 {
                    seq![0usize]
                } else {
                    Seq::<usize>::empty()
                },
            len <= ARENA_SIZE,
        ensures
            self.alloc_result(len) is Some,
            self.alloc_result(len).unwrap().0 == 0,
    {
        lemma_bsize_values();
        lemma_least_order(len as int, 0);
        let n = least_order(len as int, 0);
        assert forall|j: int| n <= j < 13 implies (#[trigger] self.free_list(j)).len() == 0 by {
            assert(self.free_list(j) == Seq::<usize>::empty());
        }
        self.lemma_first_free_order(n, 13);
        assert(self.free_list(13) == seq![0usize]);
        assert(self.first_free_order(13) == 13);
    }

    /// The lowest non-empty free order does not change over empty lists.
    proof fn lemma_first_free_order(self, n: int, k: int)
        requires
            0 <= n <= k <= NUM_ORDERS,
            forall|j: int| n <= j < k ==> (#[trigger] self.free_list(j)).len() == 0,
        ensures
            self.first_free_order(n) == self.first_free_order(k),
        decreases k - n,
    {
        if n < k {
            self.lemma_first_free_order(n + 1, k);
        }
    }

    /// The upper half split off at order `k` from the block at `p` of order
    /// `o`: aligned, inside that block, with `p` as its buddy.
    spec fn half_ok(p: usize, k: int, o: int) -> bool {
        &&& p + bsize(k) <= ARENA_SIZE
        &&& block_ok(((p + bsize(k)) as usize, k as usize))
        &&& buddy_of(p + bsize(k), k) == p
        &&& (p as int) % bsize(k) == 0
        &&& p + 2 * bsize(k) <= p + bsize(o)
        &&& (p + bsize(k)) % 4096 == 0
    }

    /// The upper half split off at each order below that of an aligned block.
    proof fn lemma_half(p: usize, k: int, o: int)
        requires
            0 <= k < o < NUM_ORDERS,
            (p as int) % bsize(o) == 0,
            p + bsize(o) <= ARENA_SIZE,
        ensures
            Self::half_ok(p, k, o),
    {
        lemma_bsize_step(k);
        lemma_bsize_step(o);
        lemma_bsize_monotone(k + 1, o);
        lemma_mod_trans(p as int, bsize(o), bsize(k + 1));
        lemma_even_block(p as int, bsize(k));
        lemma_mod_trans((p + bsize(k)) as int, bsize(k), 4096);
    }

    /// The state after the head `p` of the free list of order `o` is split
    /// down to order `n` and `(p, n)` handed out.
    spec fn split_state(old: Self, new: Self, p: usize, n: int, o: int) -> bool {
        &&& old.wf()
        &&& 0 <= n <= o < NUM_ORDERS
        &&& old.free_list(o).len() > 0
        &&& p == old.free_list(o).last()
        &&& new.free_lists@.len() == NUM_ORDERS
        &&& new.tags@.len() == LEAF_COUNT
        &&& forall|k: int| 0 <= k < NUM_ORDERS ==> #[trigger] new.free_list(k) == old.split_list(p, n, o, k)
        &&& forall|k: int| n <= k < o ==> #[trigger] new.tags@[(p + bsize(k)) / 4096] == free_tag(k)
        &&& new.tags@[(p as int) / 4096] == allocated_tag(n)
        &&& forall|idx: int|
            0 <= idx < LEAF_COUNT && idx != (p as int) / 4096 && (forall|k: int| n <= k < o ==> idx != #[trigger] ((p + bsize(k)) / 4096))
                ==> new.tags@[idx] == old.tags@[idx]
        &&& new.allocated() == old.allocated().insert((p, n as usize))
    }

    /// The halves split off are aligned, inside the split block, and have `p`
    /// as buddy; every other block lies outside the split block.
    proof fn lemma_split_facts(old: Self, new: Self, p: usize, n: int, o: int)
        requires
            Self::split_state(old, new, p, n, o),
        ensures
            block_ok((p, o as usize)),
            (p as int) % 4096 == 0,
            forall|k: int| n <= k < o ==> #[trigger] Self::half_ok(p, k, o),
            forall|b: (usize, usize)| #[trigger] old.is_block(b) && b != (p, o as usize) ==> b.0
                + bsize(b.1 as int) <= p || p + bsize(o) <= b.0,
            forall|b: (usize, usize)| #[trigger] new.is_block(b) ==> (old.is_block(b) && b != (p,
                o as usize)) || (n <= b.1 < o && b.0 == p + bsize(b.1 as int)) || b == (p, n as usize),
            forall|b: (usize, usize)| #[trigger] new.is_block(b) && !(old.is_block(b) && b != (p, o as usize))
                ==> p <= b.0 && b.0 + bsize(b.1 as int) <= p + bsize(o),
    {
        let lo = old.free_list(o);
        assert(block_ok((lo[lo.len() - 1], o as usize)));
        assert(block_ok((p, o as usize)));
        lemma_bsize_step(o);
        lemma_bsize_step(n);
        let so = bsize(o);
        // The blocks split off: aligned, inside the split block, with `p` as buddy.
        assert forall|k: int| n <= k < o implies #[trigger] Self::half_ok(p, k, o) by {
            lemma_bsize_step(k);
            lemma_bsize_monotone(k + 1, o);
            lemma_mod_trans(p as int, so, bsize(k + 1));
            lemma_even_block(p as int, bsize(k));
            lemma_mod_trans((p + bsize(k)) as int, bsize(k), 4096);
        }
        assert((p as int) % 4096 == 0) by {
            lemma_mod_trans(p as int, so, 4096);
        }
        // Every block of the old list other than the split one lies outside it.
        assert forall|b: (usize, usize)| #[trigger] old.is_block(b) && b != (p, o as usize) implies b.0
            + bsize(b.1 as int) <= p || p + so <= b.0 by {
            assert(old.is_block((p, o as usize))) by {
                assert(lo.contains(p)) by {
                    assert(lo[lo.len() - 1] == p);
                }
            }
        }
        // Which blocks the new state has.
        assert forall|b: (usize, usize)| #[trigger] new.is_block(b) implies (old.is_block(b) && b != (p,
            o as usize)) || (n <= b.1 < o && b.0 == p + bsize(b.1 as int)) || b == (p, n as usize) by {
            if new.is_free(b) {
                let k = b.1 as int;
                if n <= k < o {
                    let l = old.free_list(k);
                    assert(new.free_list(k) == l.push((p + bsize(k)) as usize));
                    assert(Self::half_ok(p, k, o));
                    if b.0 != p + bsize(k) {
                        let i = choose|i: int| 0 <= i < new.free_list(k).len() && new.free_list(k)[i] == b.0;
                        assert(i < l.len());
                        assert(l[i] == b.0);
                        assert(old.is_free(b));
                    }
                } else if k == o {
                    let i = choose|i: int| 0 <= i < new.free_list(k).len() && new.free_list(k)[i] == b.0;
                    assert(lo[i] == b.0);
                    assert(old.is_free(b));
                    assert(b.0 != p) by {
                        assert(lo.no_duplicates());
                        assert(lo[lo.len() - 1] == p);
                    }
                } else {
                    assert(old.is_free(b));
                }
            }
        }
        // Blocks new to the list lie inside the split block.
        assert forall|b: (usize, usize)| #[trigger] new.is_block(b) && !(old.is_block(b) && b != (p, o as usize))
            implies p <= b.0 && b.0 + bsize(b.1 as int) <= p + so by {
            if n <= b.1 < o && b.0 == p + bsize(b.1 as int) {
                assert(Self::half_ok(p, b.1 as int, o));
                lemma_bsize_step(b.1 as int);
            } else {
                assert(b == (p, n as usize));
                lemma_bsize_monotone(n, o);
            }
        }
    }

    /// No two blocks of the state after a split overlap.
    proof fn lemma_split_apart(old: Self, new: Self, p: usize, n: int, o: int)
        requires
            Self::split_state(old, new, p, n, o),
        ensures
            forall|a: (usize, usize), b: (usize, usize)|
                #[trigger] new.is_block(a) && #[trigger] new.is_block(b) && a != b ==> apart(a, b),
    {
        Self::lemma_split_facts(old, new, p, n, o);
        let so = bsize(o);
        // Pairwise apart.
        assert forall|a: (usize, usize), b: (usize, usize)|
            #[trigger] new.is_block(a) && #[trigger] new.is_block(b) && a != b implies apart(a, b) by {
            let a_old = old.is_block(a) && a != (p, o as usize);
            let b_old = old.is_block(b) && b != (p, o as usize);
            if a_old && b_old {
            } else if a_old {
                assert(a.0 + bsize(a.1 as int) <= p || p + so <= a.0);
                assert(p <= b.0 && b.0 + bsize(b.1 as int) <= p + so);
            } else if b_old {
                assert(b.0 + bsize(b.1 as int) <= p || p + so <= b.0);
                assert(p <= a.0 && a.0 + bsize(a.1 as int) <= p + so);
            } else {
                if n <= a.1 < o && a.0 == p + bsize(a.1 as int) && n <= b.1 < o && b.0 == p + bsize(b.1 as int) {
                    assert(Self::half_ok(p, a.1 as int, o));
                    assert(Self::half_ok(p, b.1 as int, o));
                    if a.1 < b.1 {
                        lemma_bsize_step(a.1 as int);
                        lemma_bsize_monotone(a.1 as int + 1, b.1 as int);
                    } else {
                        lemma_bsize_step(b.1 as int);
                        lemma_bsize_monotone(b.1 as int + 1, a.1 as int);
                    }
                } else if n <= a.1 < o && a.0 == p + bsize(a.1 as int) {
                    assert(b == (p, n as usize));
                    lemma_bsize_monotone(n, a.1 as int);
                } else if n <= b.1 < o && b.0 == p + bsize(b.1 as int) {
                    assert(a == (p, n as usize));
                    lemma_bsize_monotone(n, b.1 as int);
                }
            }
        }
    }

    /// The free and allocated blocks after a split are tagged at their start.
    proof fn lemma_split_tags(old: Self, new: Self, p: usize, n: int, o: int)
        requires
            Self::split_state(old, new, p, n, o),
        ensures
            forall|k: int, i: int|
                0 <= k < NUM_ORDERS && 0 <= i < new.free_list(k).len() ==> block_ok(
                    (#[trigger] new.free_list(k)[i], k as usize),
                ) && new.tag_at(new.free_list(k)[i] as int) == free_tag(k),
            forall|b: (usize, usize)|
                #[trigger] new.allocated().contains(b) ==> block_ok(b) && new.tag_at(b.0 as int)
                    == allocated_tag(b.1 as int),
    {
        Self::lemma_split_facts(old, new, p, n, o);
        lemma_bsize_step(o);
        lemma_bsize_step(n);
        let so = bsize(o);
        // Tags of the free entries.
        assert forall|k: int, i: int|
            0 <= k < NUM_ORDERS && 0 <= i < new.free_list(k).len() implies block_ok(
            (#[trigger] new.free_list(k)[i], k as usize),
        ) && new.tag_at(new.free_list(k)[i] as int) == free_tag(k) by {
            let x = new.free_list(k)[i];
            assert(new.free_list(k).contains(x));
            assert(new.is_block((x, k as usize)));
            if n <= k < o && x == p + bsize(k) {
                assert(Self::half_ok(p, k, o));
                assert(new.tags@[(p + bsize(k)) / 4096] == free_tag(k));
            } else {
                assert(old.is_block((x, k as usize)) && (x, k as usize) != (p, o as usize));
                let l = old.free_list(k);
                let j = choose|j: int| 0 <= j < l.len() && l[j] == x;
                assert(block_ok((l[j], k as usize)) && old.tag_at(l[j] as int) == free_tag(k));
                lemma_bsize_step(k);
                lemma_mod_trans(x as int, bsize(k), 4096);
                let idx = x / 4096;
                assert(idx != (p as int) / 4096) by {
                    lemma_leaf_index(x as int, p as int);
                }
                assert(x + bsize(k) <= p || p + so <= x);
                assert forall|kk: int| n <= kk < o implies idx != #[trigger] ((p + bsize(kk)) / 4096) by {
                    lemma_bsize_step(kk);
                    lemma_bsize_step(k);
                    lemma_bsize_monotone(kk + 1, o);
                    assert(x != p + bsize(kk));
                    lemma_leaf_index(x as int, p + bsize(kk));
                }
                lemma_bsize_step(k);
                assert(0 <= idx < LEAF_COUNT);
                assert(new.tags@[idx as int] == old.tags@[idx as int]);
            }
        }
        // Tags of the allocated blocks.
        assert forall|b: (usize, usize)| #[trigger] new.allocated().contains(b) implies block_ok(b)
            && new.tag_at(b.0 as int) == allocated_tag(b.1 as int) by {
            if b != (p, n as usize) {
                assert(old.allocated().contains(b));
                assert(old.is_block(b));
                assert(b != (p, o as usize)) by {
                    if b == (p, o as usize) {
                        assert(old.tag_at(p as int) == free_tag(o));
                        assert(old.tag_at(p as int) == allocated_tag(o));
                    }
                }
                lemma_bsize_step(b.1 as int);
                lemma_mod_trans(b.0 as int, bsize(b.1 as int), 4096);
                let idx = b.0 / 4096;
                assert(idx != (p as int) / 4096) by {
                    lemma_leaf_index(b.0 as int, p as int);
                }
                assert(b.0 + bsize(b.1 as int) <= p || p + so <= b.0);
                assert forall|kk: int| n <= kk < o implies idx != #[trigger] ((p + bsize(kk)) / 4096) by {
                    lemma_bsize_step(kk);
                    lemma_bsize_step(b.1 as int);
                    lemma_bsize_monotone(kk + 1, o);
                    assert(b.0 != p + bsize(kk));
                    lemma_leaf_index(b.0 as int, p + bsize(kk));
                }
                assert(0 <= idx < LEAF_COUNT);
                assert(new.tags@[idx as int] == old.tags@[idx as int]);
            } else {
                lemma_bsize_monotone(n, o);
                lemma_mod_trans(p as int, so, bsize(n));
            }
        }
    }

    /// The free lists after a split hold no offset twice and no block with its
    /// buddy.
    proof fn lemma_split_lists(old: Self, new: Self, p: usize, n: int, o: int)
        requires
            Self::split_state(old, new, p, n, o),
        ensures
            forall|k: int| 0 <= k < NUM_ORDERS ==> (#[trigger] new.free_list(k)).no_duplicates(),
            forall|k: int, i: int, j: int|
                0 <= k < NUM_ORDERS && 0 <= i < new.free_list(k).len() && 0 <= j < new.free_list(k).len()
                    ==> buddy_of(#[trigger] new.free_list(k)[i] as int, k) != #[trigger] new.free_list(k)[j],
    {
        Self::lemma_split_facts(old, new, p, n, o);
        let lo = old.free_list(o);
        // No duplicates.
        assert forall|k: int| 0 <= k < NUM_ORDERS implies (#[trigger] new.free_list(k)).no_duplicates() by {
            let l = old.free_list(k);
            if n <= k < o {
                assert(Self::half_ok(p, k, o));
                lemma_bsize_step(k);
                let x = (p + bsize(k)) as usize;
                assert(!l.contains(x)) by {
                    if l.contains(x) {
                        assert(old.is_block((x, k as usize)));
                        assert((x, k as usize) != (p, o as usize));
                    }
                }
                assert forall|i: int, j: int| 0 <= i < j < new.free_list(k).len() implies new.free_list(k)[i] != new.free_list(k)[j] by {
                    if j == l.len() {
                        assert(l[i] == new.free_list(k)[i]);
                    }
                }
            } else if k == o {
                assert forall|i: int, j: int| 0 <= i < j < new.free_list(k).len() implies new.free_list(k)[i] != new.free_list(k)[j] by {
                    assert(new.free_list(k)[i] == l[i]);
                    assert(new.free_list(k)[j] == l[j]);
                }
            }
        }
        // No block together with its buddy.
        assert forall|k: int, i: int, j: int|
            0 <= k < NUM_ORDERS && 0 <= i < new.free_list(k).len() && 0 <= j < new.free_list(k).len()
                implies buddy_of(#[trigger] new.free_list(k)[i] as int, k) != #[trigger] new.free_list(k)[j] by {
            let l = old.free_list(k);
            let xi = new.free_list(k)[i];
            let xj = new.free_list(k)[j];
            if n <= k < o {
                assert(Self::half_ok(p, k, o));
                lemma_bsize_step(k);
                let x = (p + bsize(k)) as usize;
                assert(!l.contains(p)) by {
                    if l.contains(p) {
                        assert(old.is_block((p, k as usize)));
                        assert(apart((p, k as usize), (p, o as usize)));
                    }
                }
                if i < l.len() && j < l.len() {
                    assert(xi == l[i] && xj == l[j]);
                } else if i == l.len() && j < l.len() {
                    assert(xi == x);
                    assert(xj == l[j]);
                    assert(l.contains(xj));
                } else if j == l.len() && i < l.len() {
                    assert(xj == x);
                    assert(xi == l[i]);
                    assert(block_ok((l[i], k as usize)));
                    if buddy_of(xi as int, k) == xj {
                        lemma_bsize_step(k);
                        if k < 13 {
                            lemma_buddy(xi as int, k);
                        }
                        assert(xi == p);
                        assert(l.contains(p));
                    }
                } else {
                    assert(xi == x && xj == x);
                    lemma_bsize_step(k);
                    assert(Self::half_ok(p, k, o));
                    lemma_buddy(x as int, k);
                }
            } else if k == o {
                assert(xi == l[i] && xj == l[j]);
            } else {
            }
        }
    }

    /// The block list after a split of `(p, o)` down to order `n`, with `(p, n)`
    /// handed out, keeps the invariant.
    proof fn lemma_alloc_wf(old: Self, new: Self, p: usize, n: int, o: int)
        requires
            Self::split_state(old, new, p, n, o),
        ensures
            new.wf(),
    {
        Self::lemma_split_apart(old, new, p, n, o);
        Self::lemma_split_tags(old, new, p, n, o);
        Self::lemma_split_lists(old, new, p, n, o);
    }
}

impl BuddyAllocator {
    /// Hands out a block of at least `size` bytes: takes the head of the lowest
    /// non-empty free list from the order `size` needs, splits it in halves
    /// down to that order, puts each upper half on the free list of its order,
    /// and returns the block's offset and order. `None` when `size` exceeds the
    /// arena or no free block is large enough; nothing changes then.
    pub fn allocate(&mut self, size: usize) -> (r: Option<(usize, usize)>)
        requires
            old(self).wf(),
        ensures
            final(self).wf(),
            r == old(self).alloc_result(size),
            r is None ==> *final(self) == *old(self),
            r matches Some(b) ==> {
                let o = old(self).first_free_order(b.1 as int);
                &&& final(self).allocated() == old(self).allocated().insert(b)
                &&& forall|k: int|
                    0 <= k < NUM_ORDERS ==> #[trigger] final(self).free_list(k) == old(self).split_list(b.0, b.1 as int, o, k)
            },
    {
        let needed_order = match Self::calculate_order(size) {
            Some(o) => o,
            None => {
                return None;
            },
        };
        proof {
            lemma_bsize_values();
            lemma_least_order(size as int, 0);
        }
        let mut order = needed_order;
        while order < NUM_ORDERS
            invariant
                needed_order <= order <= NUM_ORDERS,
                needed_order < NUM_ORDERS,
                order_for(size) == Some(needed_order),
                *self == *old(self),
                old(self).wf(),
                forall|j: int| needed_order <= j < order ==> (#[trigger] old(self).free_list(j)).len() == 0,
            decreases NUM_ORDERS - order,
        {
            if self.free_lists[order].len() > 0 {
                proof {
                    old(self).lemma_first_free_order(needed_order as int, order as int);
                    assert(old(self).first_free_order(order as int) == order);
                }
                let curr = self.pop_front(order);
                let ghost p = curr;
                let ghost o = order as int;
                let ghost n = needed_order as int;
                proof {
                    let lo = old(self).free_list(o);
                    assert(block_ok((lo[lo.len() - 1], o as usize)));
                    lemma_bsize_step(o);
                }
                let mut curr_order = order;
                while curr_order > needed_order
                    invariant
                        needed_order <= curr_order <= order,
                        order < NUM_ORDERS,
                        old(self).wf(),
                        block_ok((p, o as usize)),
                        p == old(self).free_list(o).last(),
                        curr == p,
                        o == order,
                        n == needed_order,
                        old(self).free_list(o).len() > 0,
                        self.free_lists@.len() == NUM_ORDERS,
                        self.tags@.len() == LEAF_COUNT,
                        self.allocated == old(self).allocated,
                        forall|k: int|
                            0 <= k < NUM_ORDERS ==> #[trigger] self.free_list(k) == old(self).split_list(
                                p,
                                curr_order as int,
                                o,
                                k,
                            ),
                        forall|k: int| curr_order <= k < o ==> #[trigger] self.tags@[(p + bsize(k)) / 4096] == free_tag(k),
                        forall|idx: int|
                            0 <= idx < LEAF_COUNT && (forall|k: int| curr_order <= k < o ==> idx != #[trigger] ((p + bsize(k)) / 4096))
                                ==> self.tags@[idx] == old(self).tags@[idx],
                    decreases curr_order,
                {
                    let ghost before = *self;
                    curr_order = curr_order - 1;
                    let ghost c = curr_order as int;
                    proof {
                        lemma_bsize_step(c);
                        lemma_bsize_step(o);
                        lemma_bsize_monotone(c + 1, o);
                        vstd::arithmetic::power2::lemma_pow2_pos(c as nat);
                        vstd::bits::lemma_usize_pow2_no_overflow(c as nat);
                        assert(4096 * pow2(c as nat) <= usize::MAX);
                        vstd::bits::lemma_usize_shl_is_mul(4096, curr_order);
                    }
                    let block_size = MIN_BLOCK_SIZE << curr_order;
                    let buddy_ptr = curr + block_size;
                    self.push_front(curr_order, buddy_ptr);
                    let ghost mid = *self;
                    let buddy_idx = buddy_ptr / MIN_BLOCK_SIZE;
                    self.tags[buddy_idx] = curr_order as u8;
                    proof {
                        assert(self.free_lists == mid.free_lists);
                        assert(block_size == bsize(c));
                        assert(buddy_ptr == (p + bsize(c)) as usize);
                        assert forall|k: int| 0 <= k < NUM_ORDERS implies #[trigger] self.free_list(k) == old(self).split_list(
                            p,
                            c,
                            o,
                            k,
                        ) by {
                            assert(before.free_list(k) == old(self).split_list(p, c + 1, o, k));
                            if k == c {
                                assert(old(self).split_list(p, c + 1, o, k) == old(self).free_list(k));
                                assert(self.free_list(k) == before.free_list(k).push(buddy_ptr));
                            } else {
                                assert(mid.free_list(k) == before.free_list(k));
                            }
                        }
                        lemma_mod_trans(p as int, bsize(o), 4096);
                        Self::lemma_half(p, c, o);
                        assert forall|k: int| c <= k < o implies #[trigger] self.tags@[(p + bsize(k)) / 4096] == free_tag(k) by {
                            if k != c {
                                Self::lemma_half(p, k, o);
                                lemma_bsize_monotone(c + 1, k);
                                lemma_bsize_step(k);
                                lemma_bsize_step(c);
                                lemma_leaf_index(p + bsize(c), p + bsize(k));
                            }
                        }
                        assert forall|idx: int|
                            0 <= idx < LEAF_COUNT && (forall|k: int| c <= k < o ==> idx != #[trigger] ((p + bsize(k)) / 4096))
                                implies self.tags@[idx] == old(self).tags@[idx] by {
                            assert(idx != (p + bsize(c)) / 4096);
                        }
                    }
                }
                let ghost split = *self;
                proof {
                    assert(curr_order == needed_order);
                    assert(forall|k: int| 0 <= k < NUM_ORDERS ==> #[trigger] split.free_list(k) == old(self).split_list(p, n, o, k));
                }
                let idx = curr / MIN_BLOCK_SIZE;
                proof {
                    lemma_tag_bits(needed_order as u8);
                }
                self.tags[idx] = (needed_order as u8) | TAG_ALLOCATED;
                self.allocated = Ghost(self.allocated@.insert((curr, needed_order)));
                proof {
                    lemma_mod_trans(p as int, bsize(o), 4096);
                    assert forall|k: int| n <= k < o implies #[trigger] self.tags@[(p + bsize(k)) / 4096] == free_tag(k) by {
                        Self::lemma_half(p, k, o);
                        lemma_bsize_step(k);
                        lemma_leaf_index(p as int, p + bsize(k));
                    }
                    assert(self.tags@[(p as int) / 4096] == allocated_tag(n));
                    assert(self.free_lists@.len() == NUM_ORDERS);
                    assert(self.tags@.len() == LEAF_COUNT);
                    assert(self.allocated() == old(self).allocated().insert((p, n as usize)));
                    assert(self.free_lists == split.free_lists);
                    assert forall|k: int| 0 <= k < NUM_ORDERS implies #[trigger] self.free_list(k) == old(self).split_list(p, n, o, k) by {
                        assert(split.free_list(k) == old(self).split_list(p, n, o, k));
                    }
                    assert forall|i: int|
                        0 <= i < LEAF_COUNT && i != (p as int) / 4096 && (forall|k: int| n <= k < o ==> i != #[trigger] ((p + bsize(k)) / 4096))
                            implies self.tags@[i] == old(self).tags@[i] by {
                    }
                    Self::lemma_alloc_wf(*old(self), *self, p, n, o);
                }
                return Some((curr, needed_order));
            }
            order = order + 1;
        }
        proof {
            old(self).lemma_first_free_order(needed_order as int, NUM_ORDERS as int);
        }
        None
    }
}

/// The free lists after the block at `off` of order `k` is released into
/// `lists`: while its buddy lies in the arena and in the free list of its
/// order, the buddy leaves that list and the two merge into the block of the
/// next order at the lower offset; the block that results goes to the head of
/// the list of its order.
pub open spec fn released(lists: Seq<Seq<usize>>, off: int, k: int) -> Seq<Seq<usize>>
    decreases 13 - k,
{
    let b = buddy_of(off, k);
    if 0 <= k < 13 && 0 <= b < ARENA_SIZE && lists[k].contains(b as usize) {
        released(
            lists.update(k, lists[k].remove(lists[k].index_of(b as usize))),
            if off < b {
                off
            } else {
                b
            },
            k + 1,
        )
    } else {
        lists.update(k, lists[k].push(off as usize))
    }
}

impl BuddyAllocator {
    /// The free lists, by order.
    pub open spec fn lists(self) -> Seq<Seq<usize>> {
        Seq::new(NUM_ORDERS as nat, |k: int| self.free_list(k))
    }

    /// The invariant while a released block `d` is being merged: it holds of
    /// the lists and allocated blocks, `d` is neither free nor allocated, is
    /// tagged free at its start, and overlaps no block.
    spec fn merging(self, d: (usize, usize)) -> bool {
        &&& self.tags@.len() == LEAF_COUNT
        &&& self.free_lists@.len() == NUM_ORDERS
        &&& forall|k: int| 0 <= k < NUM_ORDERS ==> (#[trigger] self.free_list(k)).no_duplicates()
        &&& forall|k: int, i: int|
            0 <= k < NUM_ORDERS && 0 <= i < self.free_list(k).len() ==> block_ok(
                (#[trigger] self.free_list(k)[i], k as usize),
            ) && self.tag_at(self.free_list(k)[i] as int) == free_tag(k)
        &&& forall|b: (usize, usize)|
            #[trigger] self.allocated().contains(b) ==> block_ok(b) && self.tag_at(b.0 as int)
                == allocated_tag(b.1 as int)
        &&& forall|k: int, i: int, j: int|
            0 <= k < NUM_ORDERS && 0 <= i < self.free_list(k).len() && 0 <= j < self.free_list(k).len()
                ==> buddy_of(#[trigger] self.free_list(k)[i] as int, k) != #[trigger] self.free_list(k)[j]
        &&& block_ok(d)
        &&& !self.is_block(d)
        &&& self.tag_at(d.0 as int) == free_tag(d.1 as int)
        &&& forall|a: (usize, usize), b: (usize, usize)|
            (#[trigger] self.is_block(a) || a == d) && (#[trigger] self.is_block(b) || b == d) && a != b ==> apart(a, b)
    }
}

impl BuddyAllocator {
    /// Marking an allocated block free at its start and dropping it from the
    /// allocated blocks starts a merge of it.
    proof fn lemma_release_start(old: Self, new: Self, off: usize, order: usize)
        requires
            old.wf(),
            old.allocated().contains((off, order)),
            new.free_lists == old.free_lists,
            new.tags@ == old.tags@.update((off as int) / 4096, free_tag(order as int)),
            new.allocated() == old.allocated().remove((off, order)),
        ensures
            new.merging((off, order)),
    {
        let d = (off, order);
        assert(block_ok(d));
        lemma_bsize_step(order as int);
        lemma_mod_trans(off as int, bsize(order as int), 4096);
        assert(old.is_block(d));
        assert(!old.is_free(d)) by {
            if old.is_free(d) {
                let l = old.free_list(order as int);
                let i = choose|i: int| 0 <= i < l.len() && l[i] == off;
                assert(old.tag_at(l[i] as int) == free_tag(order as int));
            }
        }
        assert forall|k: int, i: int|
            0 <= k < NUM_ORDERS && 0 <= i < new.free_list(k).len() implies block_ok(
            (#[trigger] new.free_list(k)[i], k as usize),
        ) && new.tag_at(new.free_list(k)[i] as int) == free_tag(k) by {
            let x = new.free_list(k)[i];
            assert(old.free_list(k)[i] == x);
            assert(old.is_block((x, k as usize)));
            assert((x, k as usize) != d);
            assert(apart((x, k as usize), d));
            lemma_bsize_step(k);
            lemma_mod_trans(x as int, bsize(k), 4096);
            lemma_leaf_index(x as int, off as int);
        }
        assert forall|b: (usize, usize)| #[trigger] new.allocated().contains(b) implies block_ok(b)
            && new.tag_at(b.0 as int) == allocated_tag(b.1 as int) by {
            assert(old.allocated().contains(b));
            assert(old.is_block(b));
            assert(apart(b, d));
            lemma_bsize_step(b.1 as int);
            lemma_mod_trans(b.0 as int, bsize(b.1 as int), 4096);
            lemma_leaf_index(b.0 as int, off as int);
        }
        assert forall|a: (usize, usize), b: (usize, usize)|
            (#[trigger] new.is_block(a) || a == d) && (#[trigger] new.is_block(b) || b == d) && a != b implies apart(a, b) by {
            assert(old.is_block(a) && old.is_block(b));
        }
        assert forall|k: int| 0 <= k < NUM_ORDERS implies (#[trigger] new.free_list(k)).no_duplicates() by {
            assert(new.free_list(k) == old.free_list(k));
        }
        assert forall|k: int, i: int, j: int|
            0 <= k < NUM_ORDERS && 0 <= i < new.free_list(k).len() && 0 <= j < new.free_list(k).len()
                implies buddy_of(#[trigger] new.free_list(k)[i] as int, k) != #[trigger] new.free_list(k)[j] by {
            assert(new.free_list(k) == old.free_list(k));
        }
    }

    /// A released block that ends its merge at order `k`, whose buddy is not
    /// free at that order, goes to the head of that order's list and the
    /// invariant holds again.
    proof fn lemma_release_end(old: Self, new: Self, d: (usize, usize))
        requires
            old.merging(d),
            d.1 == 13 || !(0 <= buddy_of(d.0 as int, d.1 as int) < ARENA_SIZE && old.free_list(d.1 as int).contains(
                buddy_of(d.0 as int, d.1 as int) as usize,
            )),
            new.tags == old.tags,
            new.allocated() == old.allocated(),
            new.free_lists@.len() == NUM_ORDERS,
            new.free_list(d.1 as int) == old.free_list(d.1 as int).push(d.0),
            forall|k: int| 0 <= k < NUM_ORDERS && k != d.1 ==> #[trigger] new.free_list(k) == old.free_list(k),
        ensures
            new.wf(),
    {
        let (c, kd) = d;
        let k0 = kd as int;
        let l = old.free_list(k0);
        assert(!l.contains(c)) by {
            if l.contains(c) {
                assert(old.is_free(d));
            }
        }
        assert forall|b: (usize, usize)| #[trigger] new.is_block(b) <==> old.is_block(b) || b == d by {
            if b.1 == kd {
                if new.free_list(k0).contains(b.0) && b.0 != c {
                    let i = choose|i: int| 0 <= i < new.free_list(k0).len() && new.free_list(k0)[i] == b.0;
                    assert(l[i] == b.0);
                }
                if l.contains(b.0) {
                    let i = choose|i: int| 0 <= i < l.len() && l[i] == b.0;
                    assert(new.free_list(k0)[i] == b.0);
                }
                if b == d {
                    assert(new.free_list(k0)[l.len() as int] == c);
                }
            }
        }
        assert forall|a: (usize, usize), b: (usize, usize)|
            #[trigger] new.is_block(a) && #[trigger] new.is_block(b) && a != b implies apart(a, b) by {
        }
        assert forall|k: int, i: int|
            0 <= k < NUM_ORDERS && 0 <= i < new.free_list(k).len() implies block_ok(
            (#[trigger] new.free_list(k)[i], k as usize),
        ) && new.tag_at(new.free_list(k)[i] as int) == free_tag(k) by {
            if k == k0 && i < l.len() {
                assert(new.free_list(k)[i] == l[i]);
            }
        }
        assert forall|k: int| 0 <= k < NUM_ORDERS implies (#[trigger] new.free_list(k)).no_duplicates() by {
            if k == k0 {
                assert forall|i: int, j: int| 0 <= i < j < new.free_list(k).len() implies new.free_list(k)[i] != new.free_list(k)[j] by {
                    if j == l.len() {
                        assert(new.free_list(k)[i] == l[i]);
                    } else {
                        assert(new.free_list(k)[i] == l[i]);
                        assert(new.free_list(k)[j] == l[j]);
                    }
                }
            }
        }
        assert forall|k: int, i: int, j: int|
            0 <= k < NUM_ORDERS && 0 <= i < new.free_list(k).len() && 0 <= j < new.free_list(k).len()
                implies buddy_of(#[trigger] new.free_list(k)[i] as int, k) != #[trigger] new.free_list(k)[j] by {
            if k == k0 {
                let xi = new.free_list(k)[i];
                let xj = new.free_list(k)[j];
                lemma_bsize_step(k);
                if k0 == 13 {
                    lemma_bsize_values();
                    assert(block_ok((xi, kd)));
                    assert(block_ok((xj, kd)));
                } else if i < l.len() && j < l.len() {
                    assert(xi == l[i] && xj == l[j]);
                } else if i == l.len() && j < l.len() {
                    assert(xi == c && xj == l[j]);
                    assert(l.contains(xj));
                } else if j == l.len() && i < l.len() {
                    assert(xj == c && xi == l[i]);
                    assert(block_ok((l[i], kd)));
                    if buddy_of(xi as int, k) == xj {
                        lemma_buddy(xi as int, k);
                        assert(block_ok((l[i], kd)));
                        assert(l.contains(xi));
                    }
                } else {
                    lemma_buddy(c as int, k);
                }
            }
        }
    }
}

impl BuddyAllocator {
    /// The merge invariant depends only on the lists, the tags and the
    /// allocated blocks.
    proof fn lemma_merging_same(a: Self, b: Self, d: (usize, usize))
        requires
            a.merging(d),
            b.tags == a.tags,
            b.allocated() == a.allocated(),
            b.free_lists@.len() == NUM_ORDERS,
            forall|k: int| 0 <= k < NUM_ORDERS ==> #[trigger] b.free_list(k) == a.free_list(k),
        ensures
            b.merging(d),
    {
        assert forall|x: (usize, usize)| #[trigger] b.is_block(x) <==> a.is_block(x) by {
            if x.1 < NUM_ORDERS {
                assert(b.free_list(x.1 as int) == a.free_list(x.1 as int));
            }
        }
        assert forall|x: (usize, usize), y: (usize, usize)|
            (#[trigger] b.is_block(x) || x == d) && (#[trigger] b.is_block(y) || y == d) && x != y implies apart(x, y) by {
            assert(a.is_block(x) || x == d);
            assert(a.is_block(y) || y == d);
        }
        assert forall|k: int, i: int|
            0 <= k < NUM_ORDERS && 0 <= i < b.free_list(k).len() implies block_ok(
            (#[trigger] b.free_list(k)[i], k as usize),
        ) && b.tag_at(b.free_list(k)[i] as int) == free_tag(k) by {
            assert(b.free_list(k) == a.free_list(k));
        }
        assert forall|k: int, i: int, j: int|
            0 <= k < NUM_ORDERS && 0 <= i < b.free_list(k).len() && 0 <= j < b.free_list(k).len()
                implies buddy_of(#[trigger] b.free_list(k)[i] as int, k) != #[trigger] b.free_list(k)[j] by {
            assert(b.free_list(k) == a.free_list(k));
        }
    }

    /// Taking the free buddy `b` of the merging block `d` out of its list and
    /// tagging the lower of the two with the next order continues the merge
    /// with the block of the next order at the lower offset.
    proof fn lemma_merge_step(before: Self, after: Self, d: (usize, usize), b: int)
        requires
            before.merging(d),
            d.1 < 13,
            b == buddy_of(d.0 as int, d.1 as int),
            0 <= b < ARENA_SIZE,
            before.free_list(d.1 as int).contains(b as usize),
            after.free_lists@.len() == NUM_ORDERS,
            after.free_list(d.1 as int) == before.free_list(d.1 as int).remove(
                before.free_list(d.1 as int).index_of(b as usize),
            ),
            forall|k: int| 0 <= k < NUM_ORDERS && k != d.1 ==> #[trigger] after.free_list(k) == before.free_list(k),
            after.allocated() == before.allocated(),
            after.tags@ == before.tags@.update(
                (if (d.0 as int) < b { d.0 as int } else { b }) / 4096,
                free_tag(d.1 + 1),
            ),
        ensures
            after.merging(((if (d.0 as int) < b { d.0 as int } else { b }) as usize, (d.1 + 1) as usize)),
    {
        let (c, kd) = d;
        let k0 = kd as int;
        let s = bsize(k0);
        let m = if (c as int) < b { c as int } else { b };
        let dn = (m as usize, (kd + 1) as usize);
        let bb = (b as usize, kd);
        let l = before.free_list(k0);
        let i0 = l.index_of(b as usize);
        assert(l[i0] == b as usize);
        lemma_remove_member(l, i0);
        lemma_bsize_step(k0);
        lemma_bsize_step(k0 + 1);
        lemma_buddy(c as int, k0);
        assert(before.is_block(bb));
        assert(block_ok(bb)) by {
            let i = choose|i: int| 0 <= i < l.len() && l[i] == b as usize;
            assert(block_ok((l[i], kd)));
        }
        assert(block_ok(dn));
        assert(bb != d);
        assert(apart(bb, d));
        // Which blocks remain.
        assert forall|x: (usize, usize)| #[trigger] after.is_block(x) <==> before.is_block(x) && x != bb by {
            if x.1 == kd {
                assert(after.free_list(k0).contains(x.0) <==> l.contains(x.0) && x.0 != b as usize);
            } else if x.1 < NUM_ORDERS {
                assert(after.free_list(x.1 as int) == before.free_list(x.1 as int));
            }
        }
        // Every other block lies outside the merged one.
        assert forall|x: (usize, usize)| #[trigger] before.is_block(x) && x != bb implies x.0 + bsize(x.1 as int) <= m
            || m + 2 * s <= x.0 by {
            assert(x != d);
            assert(apart(x, d));
            assert(apart(x, bb));
            lemma_bsize_step(x.1 as int);
        }
        assert(!after.is_block(dn)) by {
            if after.is_block(dn) {
                assert(before.is_block(dn) && dn != bb);
            }
        }
        assert forall|x: (usize, usize), y: (usize, usize)|
            (#[trigger] after.is_block(x) || x == dn) && (#[trigger] after.is_block(y) || y == dn) && x != y implies apart(x, y) by {
            if x == dn {
                assert(before.is_block(y) && y != bb);
            } else if y == dn {
                assert(before.is_block(x) && x != bb);
            } else {
                assert(before.is_block(x) && before.is_block(y));
            }
        }
        // Tags: no remaining block starts at the merged block's start.
        assert forall|x: (usize, usize)| #[trigger] before.is_block(x) && x != bb implies (x.0 as int) / 4096 != m / 4096 by {
            assert(x.0 + bsize(x.1 as int) <= m || m + 2 * s <= x.0);
            lemma_bsize_step(x.1 as int);
            assert(block_ok(x)) by {
                if before.is_free(x) {
                    let l2 = before.free_list(x.1 as int);
                    let i = choose|i: int| 0 <= i < l2.len() && l2[i] == x.0;
                    assert(block_ok((l2[i], x.1)));
                }
            }
            lemma_mod_trans(x.0 as int, bsize(x.1 as int), 4096);
            lemma_mod_trans(m, bsize(k0 + 1), 4096);
            lemma_leaf_index(x.0 as int, m);
        }
        assert forall|k: int, i: int|
            0 <= k < NUM_ORDERS && 0 <= i < after.free_list(k).len() implies block_ok(
            (#[trigger] after.free_list(k)[i], k as usize),
        ) && after.tag_at(after.free_list(k)[i] as int) == free_tag(k) by {
            let x = after.free_list(k)[i];
            let bl = before.free_list(k);
            let j = if k == k0 {
                if i < i0 { i } else { i + 1 }
            } else {
                i
            };
            assert(bl[j] == x);
            assert(block_ok((bl[j], k as usize)) && before.tag_at(bl[j] as int) == free_tag(k));
            assert(bl.contains(x));
            assert(after.free_list(k).contains(x));
            assert(after.is_block((x, k as usize)));
            assert((x as int) / 4096 != m / 4096);
        }
        assert forall|x: (usize, usize)| #[trigger] after.allocated().contains(x) implies block_ok(x)
            && after.tag_at(x.0 as int) == allocated_tag(x.1 as int) by {
            assert(before.allocated().contains(x));
            assert(block_ok(x) && before.tag_at(x.0 as int) == allocated_tag(x.1 as int));
            assert(before.is_block(x));
            assert(x != bb) by {
                if x == bb {
                    assert(before.tag_at(b) == free_tag(k0));
                }
            }
            assert((x.0 as int) / 4096 != m / 4096);
            lemma_bsize_step(x.1 as int);
            lemma_mod_trans(x.0 as int, bsize(x.1 as int), 4096);
            assert(0 <= (x.0 as int) / 4096 < LEAF_COUNT);
            assert(after.tags@[(x.0 as int) / 4096] == before.tags@[(x.0 as int) / 4096]);
        }
        assert forall|k: int| 0 <= k < NUM_ORDERS implies (#[trigger] after.free_list(k)).no_duplicates() by {
            if k != k0 {
                assert(after.free_list(k) == before.free_list(k));
            }
        }
        assert forall|k: int, i: int, j: int|
            0 <= k < NUM_ORDERS && 0 <= i < after.free_list(k).len() && 0 <= j < after.free_list(k).len()
                implies buddy_of(#[trigger] after.free_list(k)[i] as int, k) != #[trigger] after.free_list(k)[j] by {
            let bl = before.free_list(k);
            let ii = if k == k0 {
                if i < i0 { i } else { i + 1 }
            } else {
                i
            };
            let jj = if k == k0 {
                if j < i0 { j } else { j + 1 }
            } else {
                j
            };
            assert(after.free_list(k)[i] == bl[ii]);
            assert(after.free_list(k)[j] == bl[jj]);
        }
        assert(after.tag_at(m) == free_tag(k0 + 1));
    }
}

impl BuddyAllocator {
    /// Releases the block at `offset` of order `order`, which `allocate` handed
    /// out: marks it free and, while its buddy is free at the same order, takes
    /// the buddy off its list and merges the two; then puts the block that
    /// results at the head of the list of its order.
    pub fn dealloc(&mut self, offset: usize, order: usize)
        requires
            old(self).wf(),
            old(self).allocated().contains((offset, order)),
        ensures
            final(self).wf(),
            final(self).allocated() == old(self).allocated().remove((offset, order)),
            final(self).lists() == released(old(self).lists(), offset as int, order as int),
    {
        let ghost start_lists = old(self).lists();
        let mut curr_offset = offset;
        let mut curr_order = order;
        proof {
            assert(block_ok((offset, order)));
            lemma_bsize_step(order as int);
        }
        let idx = curr_offset / MIN_BLOCK_SIZE;
        self.tags[idx] = curr_order as u8;
        self.allocated = Ghost(self.allocated@.remove((offset, order)));
        proof {
            Self::lemma_release_start(*old(self), *self, offset, order);
            assert(self.lists() == start_lists) by {
                assert(self.lists() =~= old(self).lists());
            }
        }
        let mut merging = true;
        while merging && curr_order < NUM_ORDERS - 1
            invariant
                self.merging((curr_offset, curr_order)),
                self.allocated() == old(self).allocated().remove((offset, order)),
                released(self.lists(), curr_offset as int, curr_order as int) == released(
                    start_lists,
                    offset as int,
                    order as int,
                ),
                !merging ==> {
                    let b = buddy_of(curr_offset as int, curr_order as int);
                    !(0 <= b < ARENA_SIZE && self.free_list(curr_order as int).contains(b as usize))
                },
            decreases 2 * (NUM_ORDERS - curr_order) + (if merging { 1int } else { 0int }),
        {
            let ghost before = *self;
            let ghost k = curr_order as int;
            let ghost c0 = curr_offset;
            proof {
                assert(block_ok((curr_offset, curr_order)));
                lemma_bsize_step(k);
                lemma_buddy_xor(curr_offset, curr_order);
            }
            let block_size = MIN_BLOCK_SIZE << curr_order;
            let buddy_offset = curr_offset ^ block_size;
            let ghost b = buddy_of(curr_offset as int, k);
            if buddy_offset >= ARENA_SIZE {
                merging = false;
            } else {
                let buddy_idx = buddy_offset / MIN_BLOCK_SIZE;
                let buddy_tag = self.tags[buddy_idx];
                proof {
                    lemma_tag_bits(curr_order as u8);
                    if self.free_list(k).contains(b as usize) {
                        let l = self.free_list(k);
                        let i = choose|i: int| 0 <= i < l.len() && l[i] == b as usize;
                        assert(self.tag_at(l[i] as int) == free_tag(k));
                        lemma_tag_bits(buddy_tag);
                    }
                }
                if (buddy_tag & TAG_ALLOCATED) == 0 && (buddy_tag & TAG_ORDER_MASK) == curr_order as u8 {
                    if self.remove(curr_order, buddy_offset) {
                        let ghost removed = *self;
                        curr_offset = if curr_offset < buddy_offset {
                            curr_offset
                        } else {
                            buddy_offset
                        };
                        curr_order = curr_order + 1;
                        let new_idx = curr_offset / MIN_BLOCK_SIZE;
                        self.tags[new_idx] = curr_order as u8;
                        proof {
                            assert(self.free_lists == removed.free_lists);
                            assert forall|kk: int| 0 <= kk < NUM_ORDERS && kk != k implies #[trigger] self.free_list(kk) == before.free_list(kk) by {
                                assert(removed.free_list(kk) == before.free_list(kk));
                            }
                            lemma_buddy(c0 as int, k);
                            Self::lemma_merge_step(before, *self, (c0, k as usize), b);
                            let l = before.free_list(k);
                            assert(self.lists() =~= before.lists().update(k, l.remove(l.index_of(b as usize))));
                        }
                    } else {
                        merging = false;
                        proof {
                            Self::lemma_merging_same(before, *self, (curr_offset, curr_order));
                        }
                    }
                } else {
                    merging = false;
                }
            }
        }
        let ghost last = *self;
        self.push_front(curr_order, curr_offset);
        proof {
            Self::lemma_release_end(last, *self, (curr_offset, curr_order));
            let k = curr_order as int;
            assert(self.lists() =~= last.lists().update(k, last.free_list(k).push(curr_offset)));
        }
    }
}

impl BuddyAllocator {
    /// The free lists part way through releasing `(p, n)` right after it was
    /// split off `(p, o)`: the orders below `k` are back as they were.
    spec fn rejoined(self, p: usize, n: int, o: int, k: int) -> Seq<Seq<usize>> {
        Seq::new(NUM_ORDERS as nat, |j: int| if j < k { self.free_list(j) } else { self.split_list(p, n, o, j) })
    }

    /// Releasing a block right after it was split off merges it back up to
    /// the order it came from, which restores every free list.
    proof fn lemma_rejoin(self, p: usize, n: int, o: int, k: int)
        requires
            self.wf(),
            0 <= n <= k <= o < NUM_ORDERS,
            self.free_list(o).len() > 0,
            p == self.free_list(o).last(),
        ensures
            released(self.rejoined(p, n, o, k), p as int, k) == self.lists(),
        decreases o - k,
    {
        let lo = self.free_list(o);
        assert(block_ok((lo[lo.len() - 1], o as usize)));
        assert(lo.contains(p)) by {
            assert(lo[lo.len() - 1] == p);
        }
        let lists = self.rejoined(p, n, o, k);
        if k < o {
            Self::lemma_half(p, k, o);
            lemma_bsize_step(k);
            let x = (p + bsize(k)) as usize;
            let l = self.free_list(k);
            assert(lists[k] == l.push(x));
            assert(!l.contains(x)) by {
                if l.contains(x) {
                    assert(self.is_block((x, k as usize)));
                    assert(self.is_block((p, o as usize)));
                    assert(apart((x, k as usize), (p, o as usize)));
                }
            }
            lemma_bsize_monotone(k + 1, o);
            lemma_mod_trans(p as int, bsize(o), bsize(k + 1));
            lemma_even_block(p as int, bsize(k));
            assert(buddy_of(p as int, k) == p + bsize(k));
            assert(lists[k].contains(x)) by {
                assert(lists[k][l.len() as int] == x);
            }
            let i = lists[k].index_of(x);
            assert(lists[k][i] == x);
            assert(i == l.len()) by {
                if i < l.len() {
                    assert(l[i] == x);
                }
            }
            assert(lists[k].remove(i) =~= l);
            assert(lists.update(k, lists[k].remove(i)) =~= self.rejoined(p, n, o, k + 1));
            self.lemma_rejoin(p, n, o, k + 1);
        } else {
            let b = buddy_of(p as int, o);
            let l = lists[o];
            assert(l == lo.drop_last());
            if o < 13 && 0 <= b < ARENA_SIZE && l.contains(b as usize) {
                let i = choose|i: int| 0 <= i < l.len() && l[i] == b as usize;
                assert(lo[i] == b as usize);
                assert(buddy_of(lo[lo.len() - 1] as int, o) != lo[i]);
            }
            assert(l.push(p) =~= lo);
            assert(lists.update(o, l.push(p)) =~= self.lists());
        }
    }

    /// Releasing a block right after `allocate` handed it out restores every
    /// free list as it was before the allocation.
    pub proof fn law_dealloc_undoes_allocate(
        a0: Self,
        a1: Self,
        a2: Self,
        size: usize,
        b: (usize, usize),
    )
        requires
            a0.wf(),
            a0.alloc_result(size) == Some(b),
            forall|k: int|
                0 <= k < NUM_ORDERS ==> #[trigger] a1.free_list(k) == a0.split_list(
                    b.0,
                    b.1 as int,
                    a0.first_free_order(b.1 as int),
                    k,
                ),
            a2.lists() == released(a1.lists(), b.0 as int, b.1 as int),
        ensures
            a2.lists() == a0.lists(),
    {
        let n = b.1 as int;
        let o = a0.first_free_order(n);
        assert(order_for(size) == Some(b.1));
        assert(o < NUM_ORDERS);
        lemma_first_free_order_bounds(a0, n);
        assert(a1.lists() =~= a0.rejoined(b.0, n, o, n));
        a0.lemma_rejoin(b.0, n, o, n);
    }
}

/// The lowest non-empty free order from `n`, when there is one, is at least
/// `n` and its list is not empty.
proof fn lemma_first_free_order_bounds(a: BuddyAllocator, n: int)
    requires
        0 <= n,
        a.first_free_order(n) < NUM_ORDERS,
    ensures
        n <= a.first_free_order(n),
        a.free_list(a.first_free_order(n)).len() > 0,
    decreases NUM_ORDERS - n,
{
    if n < NUM_ORDERS && a.free_list(n).len() == 0 {
        lemma_first_free_order_bounds(a, n + 1);
    }
}

impl BuddyAllocator {
    /// The number of free blocks of order `order`.
    pub fn count_free(&self, order: usize) -> (r: usize)
        requires
            self.wf(),
            order < NUM_ORDERS,
        ensures
            r == self.free_list(order as int).len(),
    {
        self.free_lists[order].len()
    }
}

/// A block handed out by a `BuddyPool`: where it starts in the arena, how
/// many of its bytes are in use, how many it has, and its order.
pub struct BufferBlock {
    offset: usize,
    len: usize,
    cap: usize,
    order: usize,
}

impl BufferBlock {
    /// Where the block starts in the arena.
    pub closed spec fn spec_offset(self) -> usize {
        self.offset
    }

    /// Bytes in use.
    pub closed spec fn spec_len(self) -> usize {
        self.len
    }

    /// Bytes in the block.
    pub closed spec fn spec_capacity(self) -> usize {
        self.cap
    }

    /// The block's order.
    pub closed spec fn spec_order(self) -> usize {
        self.order
    }

    /// Where the block starts in the arena.
    pub fn offset(&self) -> (r: usize)
        ensures
            r == self.spec_offset(),
    {
        self.offset
    }

    /// Bytes in the block.
    pub fn capacity(&self) -> (r: usize)
        ensures
            r == self.spec_capacity(),
    {
        self.cap
    }

    /// Bytes in use.
    pub fn len(&self) -> (r: usize)
        ensures
            r == self.spec_len(),
    {
        self.len
    }

    /// Sets the bytes in use, at most the capacity.
    pub fn set_len(&mut self, len: usize)
        requires
            len <= old(self).spec_capacity(),
        ensures
            final(self).spec_len() == len,
            final(self).spec_offset() == old(self).spec_offset(),
            final(self).spec_capacity() == old(self).spec_capacity(),
            final(self).spec_order() == old(self).spec_order(),
    {
        self.len = len;
    }
}

/// A pool of I/O buffers carved out of one arena by a buddy allocator.
pub struct BuddyPool {
    inner: BuddyAllocator,
}

impl BuddyPool {
    /// The pool's allocator.
    pub closed spec fn allocator(self) -> BuddyAllocator {
        self.inner
    }

    /// The pool's invariant.
    pub open spec fn wf(self) -> bool {
        self.allocator().wf()
    }

    /// The block handed out by a pool `p` for a request of `len` bytes.
    pub open spec fn allocate_result(p: BuddyAllocator, len: usize) -> Option<(usize, usize)> {
        p.alloc_result(len)
    }

    /// A pool over a fresh arena: one free block of the largest order.
    pub fn new() -> (r: Self)
        ensures
            r.wf(),
            r.allocator().allocated().is_empty(),
            forall|k: int|
                0 <= k < NUM_ORDERS ==> #[trigger] r.allocator().free_list(k) == if k == NUM_ORDERS
                    - 1 {
                    seq![0usize]
                } else {
                    Seq::<usize>::empty()
                },
    {
        let inner = BuddyAllocator::new();
        BuddyPool { inner }
    }

    /// A buffer of `len` bytes: the smallest block that holds them, with `len`
    /// bytes in use; `None` when the arena has no such block free.
    pub fn allocate(&mut self, len: usize) -> (r: Option<BufferBlock>)
        requires
            old(self).wf(),
        ensures
            final(self).wf(),
            match old(self).allocator().alloc_result(len) {
                None => r is None && final(self).allocator() == old(self).allocator(),
                Some(b) => r matches Some(buf) && buf.spec_offset() == b.0 && buf.spec_order() == b.1
                    && buf.spec_capacity() == bsize(b.1 as int) && buf.spec_len() == len
                    && final(self).allocator().allocated() == old(self).allocator().allocated().insert(b),
            },
    {
        match self.inner.allocate(len) {
            Some((offset, order)) => {
                proof {
                    assert(order < NUM_ORDERS);
                    lemma_bsize_step(order as int);
                    vstd::bits::lemma_usize_pow2_no_overflow(order as nat);
                    vstd::bits::lemma_usize_shl_is_mul(4096, order);
                    lemma_bsize_values();
                    assert(order_for(len) is Some);
                    lemma_least_order(len as int, 0);
                }
                let capacity = MIN_BLOCK_SIZE << order;
                let mut buf = BufferBlock { offset, len: capacity, cap: capacity, order };
                buf.set_len(len);
                Some(buf)
            },
            None => None,
        }
    }

    /// Gives a buffer back: its block is released and merged with free buddies.
    pub fn release(&mut self, buf: BufferBlock)
        requires
            old(self).wf(),
            old(self).allocator().allocated().contains((buf.spec_offset(), buf.spec_order())),
        ensures
            final(self).wf(),
            final(self).allocator().allocated() == old(self).allocator().allocated().remove(
                (buf.spec_offset(), buf.spec_order()),
            ),
            final(self).allocator().lists() == released(
                old(self).allocator().lists(),
                buf.spec_offset() as int,
                buf.spec_order() as int,
            ),
    {
        self.inner.dealloc(buf.offset, buf.order);
    }

    /// The bytes of the arena that the pool's buffers live in.
    pub fn region_len(&self) -> (r: usize)
        ensures
            r == ARENA_SIZE,
    {
        ARENA_SIZE
    }
}

impl BuddyAllocator {
    /// No two blocks of the arena overlap: a block handed out shares no byte
    /// with any other block handed out or free, and lies in the arena aligned
    /// to its size.
    pub proof fn law_blocks_never_overlap(self, b: (usize, usize), c: (usize, usize))
        requires
            self.wf(),
            self.allocated().contains(b),
            self.is_block(c),
            c != b,
        ensures
            apart(b, c),
            block_ok(b),
    {
        assert(self.is_block(b));
    }
}

} // verus!
