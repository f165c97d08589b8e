use vstd::arithmetic::div_mod::lemma_fundamental_div_mod;
use vstd::arithmetic::power2::{
    lemma2_to64, lemma2_to64_rest, lemma_pow2_adds, lemma_pow2_pos, lemma_pow2_strictly_increases,
    lemma_pow2_unfold, pow2,
};
use vstd::bits::lemma_u32_shl_is_mul;
use vstd::prelude::*;

use crate::cell::Cell;
use crate::point::Point3D;

verus! {

// ---------------------------------------------------------------------------
// The mathematical model.
//
// A tree over a domain of side `size == 2^d` stores one byte per interior
// node in a flat buffer. The root sits at offset 0 and the `c`-th child of
// the node at offset `o` sits at offset `o * 8 + c + 1`; bit `c` of a
// node's byte describes its `c`-th child. The functions below define the
// byte offsets of the path from the root to a voxel, and the effect of the
// two traversals on the buffer.
// ---------------------------------------------------------------------------

/// Base-2 logarithm, rounded down; 0 for inputs below 2.
pub open spec fn log2(n: nat) -> nat
    decreases n,
{
    if n <= 1 {
        0
    } else {
        1 + log2(n / 2)
    }
}

/// `n` is an exact power of two.
pub open spec fn is_power_of_two(n: nat) -> bool {
    n >= 1 && pow2(log2(n)) == n
}

/// Number of interior (non-leaf) nodes of a complete octree with `depth`
/// subdivision levels; equally the byte offset at which nodes of level
/// `depth` would begin. Satisfies `interior_count(d) == (8^d - 1) / 7`.
pub open spec fn interior_count(depth: nat) -> nat
    decreases depth,
{
    if depth == 0 {
        0
    } else {
        8 * interior_count((depth - 1) as nat) + 1
    }
}

/// `n` rounded up to the next multiple of `a` (for `a >= 1`).
pub open spec fn round_up(n: int, a: int) -> int {
    ((n + a - 1) / a) * a
}

/// Bit `k` of the binary expansion of a non-negative coordinate.
pub open spec fn coord_bit(v: int, k: nat) -> int {
    (v / pow2(k) as int) % 2
}

/// The child index (0..8) of the octant holding `p` inside its level
/// ancestor cell, where the children have extent `2^k`. Bit 2 comes from
/// x, bit 1 from y, bit 0 from z, matching [`crate::cell::child_cell`].
pub open spec fn octant(p: Point3D, k: nat) -> nat {
    (4 * coord_bit(p.x as int, k) + 2 * coord_bit(p.y as int, k) + coord_bit(
        p.z as int,
        k,
    )) as nat
}

/// The byte offset of the level-`l` node on the root-to-leaf path of `p`
/// in a tree of depth `d` (the root is level 0).
pub open spec fn path_offset(p: Point3D, d: nat, l: nat) -> nat
    decreases l,
{
    if l == 0 {
        0
    } else {
        8 * path_offset(p, d, (l - 1) as nat) + octant(p, (d - l) as nat) + 1
    }
}

/// The single-bit mask for child index `c` (0..8).
pub open spec fn mask_bit(c: u8) -> u8 {
    1u8 << c
}

/// Whether bit `c` is set in `b`.
pub open spec fn bit_is_set(b: u8, c: u8) -> bool {
    b & mask_bit(c) == mask_bit(c)
}

/// `b` with bit `c` set.
pub open spec fn with_bit(b: u8, c: u8) -> u8 {
    b | mask_bit(c)
}

/// `b` with bit `c` overwritten by `state`.
pub open spec fn with_bit_state(b: u8, c: u8, state: bool) -> u8 {
    (b & !mask_bit(c)) | ((if state {
        1u8
    } else {
        0u8
    }) << c)
}

/// The buffer left by the marking descent that starts at offset `o` with
/// `k` subdivision levels still below it. At each interior step the bit of
/// the child holding `p` is set unconditionally; when the child offset
/// falls outside the buffer there is no deeper byte, so that bit instead
/// receives the literal `state`. The final recursion step (`k == 0`) is a
/// terminal no-op on a unit cell.
pub open spec fn set_from(data: Seq<u8>, p: Point3D, state: bool, o: nat, k: nat) -> Seq<u8>
    decreases k,
{
    if k == 0 {
        data
    } else {
        let c = octant(p, (k - 1) as nat);
        let next = o * 8 + c + 1;
        let b = if next >= data.len() {
            with_bit_state(data[o as int], c as u8, state)
        } else {
            with_bit(data[o as int], c as u8)
        };
        set_from(data.update(o as int, b), p, state, next, (k - 1) as nat)
    }
}

/// The answer of the querying descent that starts at offset `o` with `k`
/// levels below it: false as soon as one bit on the path of `p` is clear,
/// true once a unit cell is reached with every bit on the way set.
pub open spec fn get_from(data: Seq<u8>, p: Point3D, o: nat, k: nat) -> bool
    decreases k,
{
    if k == 0 {
        true
    } else {
        let c = octant(p, (k - 1) as nat);
        if !bit_is_set(data[o as int], c as u8) {
            false
        } else {
            get_from(data, p, o * 8 + c + 1, (k - 1) as nat)
        }
    }
}

/// `p` lies inside the cubic domain `[0, size)^3`.
pub open spec fn in_domain(p: Point3D, size: int) -> bool {
    &&& 0 <= p.x < size
    &&& 0 <= p.y < size
    &&& 0 <= p.z < size
}

// ---------------------------------------------------------------------------
// Arithmetic groundwork.
// ---------------------------------------------------------------------------

/// `interior_count` in closed form: `7 * interior_count(d) + 1 == 8^d`.
proof fn lemma_interior_count_pow(d: nat)
    ensures
        7 * interior_count(d) + 1 == pow2(3 * d),
    decreases d,
{
    if d == 0 {
        lemma2_to64();
    } else {
        lemma_interior_count_pow((d - 1) as nat);
        lemma_pow2_adds(3 * (d - 1) as nat, 3);
        lemma2_to64();
    }
}

/// `interior_count` grows with the depth.
proof fn lemma_interior_count_le(a: nat, b: nat)
    requires
        a <= b,
    ensures
        interior_count(a) <= interior_count(b),
    decreases b,
{
    if a < b && b > 0 {
        lemma_interior_count_le(a, (b - 1) as nat);
    }
}

/// For depths up to 9 the interior node count stays below `2^25` bytes.
proof fn lemma_interior_count_small(d: nat)
    requires
        d <= 9,
    ensures
        interior_count(d) < 0x2000000,
{
    lemma_interior_count_le(d, 9);
    lemma_interior_count_pow(9);
    lemma_pow2_adds(25, 2);
    lemma2_to64();
}

/// A power of two above 1 halves to the next power of two down.
proof fn lemma_power_of_two_halves(n: nat)
    requires
        is_power_of_two(n),
        n > 1,
    ensures
        n % 2 == 0,
        is_power_of_two(n / 2),
        log2(n / 2) + 1 == log2(n),
        log2(n) >= 1,
{
    assert(log2(n) == 1 + log2(n / 2));
    lemma_pow2_unfold(log2(n));
}

/// A power of two at most 512 has depth at most 9.
proof fn lemma_log2_le_9(n: nat)
    requires
        is_power_of_two(n),
        n <= 512,
    ensures
        log2(n) <= 9,
{
    if log2(n) > 9 {
        lemma_pow2_strictly_increases(9, log2(n));
        lemma2_to64();
        assert(pow2(9) == 512);
    }
}

/// A `usize` power of two has its exponent below the word width.
proof fn lemma_usize_pow2_bits(k: nat)
    requires
        pow2(k) <= usize::MAX,
    ensures
        k < usize::BITS,
        pow2(k) <= pow2((usize::BITS - 1) as nat),
{
    if k >= usize::BITS {
        if k > usize::BITS {
            lemma_pow2_strictly_increases(usize::BITS as nat, k);
        }
        lemma2_to64();
        lemma2_to64_rest();
        assert(false);
    }
    if k < usize::BITS - 1 {
        lemma_pow2_strictly_increases(k, (usize::BITS - 1) as nat);
    }
}

/// Masking with the complement of `a - 1`, for a power of two `a`, rounds
/// down to a multiple of `a`: it subtracts exactly `x % a`.
proof fn lemma_mask_rounds_down(x: usize, a: usize, m: usize)
    requires
        is_power_of_two(a as nat),
        m + 1 == a,
    ensures
        (x & !m) + (x % a) == x,
        ((x & !m) as int) % (a as int) == 0,
{
    let k = log2(a as nat);
    lemma_usize_pow2_bits(k);
    assert(m == vstd::bits::low_bits_mask(k));
    vstd::bits::lemma_usize_low_bits_mask_is_mod(x, k);
    assert((x & !m) + (x & m) == x) by (bit_vector);
    lemma_fundamental_div_mod(x as int, a as int);
    vstd::arithmetic::div_mod::lemma_mod_multiples_basic((x as int) / (a as int), a as int);
}

// ---------------------------------------------------------------------------
// The tree itself.
// ---------------------------------------------------------------------------

/// Where a traversal starts.
pub enum SearchParameter {
    /// No custom search: start from the root cell spanning the whole
    /// domain, at offset 0.
    Root,
    /// Resume mid-descent from a given cell and its byte offset. Only the
    /// ancestor cell of the queried point at some level, together with
    /// that level's path offset, is meaningful here; the traversals
    /// require exactly that.
    Custom {
        /// The cell at which the search starts.
        cell: Cell,
        /// The byte offset of that cell's node.
        offset: usize,
    },
}

impl Default for SearchParameter {
    /// No custom search.
    fn default() -> (r: Self)
        ensures
            r is Root,
    {
        SearchParameter::Root
    }
}

/// A linearized sparse voxel octree: a flat byte buffer, sized once at
/// construction for a power-of-two domain and never resized, plus the
/// domain's side length.
pub struct Tree {
    /// The raw tree data.
    data: Vec<u8>,
    /// The number of blocks along each axis.
    size: i32,
}

impl Tree {
    /// The byte buffer, as a mathematical sequence.
    pub closed spec fn data_spec(&self) -> Seq<u8> {
        self.data@
    }

    /// The domain's side length.
    pub closed spec fn size_spec(&self) -> int {
        self.size as int
    }

    /// The number of subdivision levels from the root down to unit cells.
    pub open spec fn depth(&self) -> nat {
        log2(self.size_spec() as nat)
    }

    /// Structural invariant: the side is a power of two no larger than
    /// 512, and the buffer holds one byte per interior node, rounded up
    /// to the storage-buffer alignment chosen at construction.
    pub open spec fn wf(&self) -> bool {
        &&& 1 <= self.size_spec() <= 512
        &&& is_power_of_two(self.size_spec() as nat)
        &&& self.data_spec().len() == round_up(interior_count(self.depth()) as int, 256)
    }

    /// The number of bytes needed for the interior nodes of a tree over a
    /// domain of side `size`: one byte per non-leaf node.
    pub fn estimated_size(size: u32) -> (r: usize)
        requires
            is_power_of_two(size as nat),
            size <= 512,
        ensures
            r == interior_count(log2(size as nat)),
            r < 0x2000000,
    {
        proof {
            lemma_log2_le_9(size as nat);
        }

        // The depth of the tree: log2 of the side length.
        let mut depth: u32 = 0;
        let mut v: u32 = size;
        while v > 1
            invariant
                1 <= v <= size <= 512,
                is_power_of_two(v as nat),
                log2(size as nat) == depth + log2(v as nat),
                log2(size as nat) <= 9,
            decreases v,
        {
            proof {
                lemma_power_of_two_halves(v as nat);
            }
            v = v / 2;
            depth = depth + 1;
        }

        proof {
            lemma_log2_le_9(size as nat);
            lemma_interior_count_pow((depth + 1) as nat);
            lemma_interior_count_small(depth as nat);
            lemma_pow2_strictly_increases(3 * (depth + 1) as nat, 31);
            lemma2_to64();
        }

        // One byte per node of the full tree, leaves excluded:
        // ((8^(depth + 1) - 1) / 7 - 1) / 8 == (8^depth - 1) / 7.
        let len = ((Self::pow8(depth + 1) - 1) / 7 - 1) / 8;

        len as usize
    }

    /// [`Tree::estimated_size`] rounded up to a multiple of `alignement`
    /// (a power of two), with bitmask arithmetic.
    pub fn estimated_size_aligned(size: u32, alignement: usize) -> (r: usize)
        requires
            is_power_of_two(size as nat),
            size <= 512,
            is_power_of_two(alignement as nat),
        ensures
            r == round_up(interior_count(log2(size as nat)) as int, alignement as int),
            (r as int) % (alignement as int) == 0,
            interior_count(log2(size as nat)) <= r,
            r < interior_count(log2(size as nat)) + alignement,
    {
        let est = Self::estimated_size(size);
        let mask = alignement - 1;
        proof {
            lemma_usize_pow2_bits(log2(alignement as nat));
            lemma2_to64();
            lemma2_to64_rest();
            let x = (est + mask) as usize;
            let a = alignement as int;
            lemma_mask_rounds_down(x, alignement, mask);
            lemma_fundamental_div_mod(x as int, a);
            vstd::arithmetic::mul::lemma_mul_is_commutative(a, x as int / a);
            assert((x & !mask) == (x as int / a) * a);
        }
        (est + mask) & !mask
    }

    /// Create a new tree over a domain of side `size`, all bytes zero,
    /// aligned to the 256-byte storage-buffer granularity.
    pub fn new(size: u32) -> (t: Self)
        requires
            is_power_of_two(size as nat),
            size <= 512,
        ensures
            t.wf(),
            t.size_spec() == size,
            t.data_spec() =~= Seq::new(t.data_spec().len(), |i: int| 0u8),
    {
        proof {
            lemma2_to64();
            assert(log2(256) == 8) by {
                reveal_with_fuel(log2, 10);
            }
        }
        let len = Self::estimated_size_aligned(size, 256);

        let mut data: Vec<u8> = Vec::new();
        while data.len() < len
            invariant
                data@.len() <= len,
                forall|i: int| 0 <= i < data@.len() ==> data@[i] == 0u8,
            decreases len - data@.len(),
        {
            data.push(0u8);
        }

        Self { size: size as i32, data }
    }

    /// `8^exp`, computed as a shift of the 3-fold exponent.
    fn pow8(exp: u32) -> (r: u32)
        requires
            exp <= 10,
        ensures
            r == pow2(3 * exp as nat),
    {
        proof {
            if 3 * exp < 31 {
                lemma_pow2_strictly_increases(3 * exp as nat, 31);
            }
            lemma2_to64();
            lemma_u32_shl_is_mul(1u32, (3 * exp) as u32);
        }
        1u32 << (3 * exp)
    }

    /// Read-only export of the backing buffer. The byte layout is the
    /// wire contract consumed by the traversal shader.
    pub fn raw_data(&self) -> (r: &[u8])
        ensures
            r@ == self.data_spec(),
    {
        self.data.as_slice()
    }

    /// The domain's side length.
    pub fn get_size(&self) -> (r: u32)
        requires
            0 <= self.size_spec(),
        ensures
            r == self.size_spec(),
    {
        self.size as u32
    }
}

} // verus!

verus! {

// ---------------------------------------------------------------------------
// The descent: offsets along a path stay inside the interior-node region.
// ---------------------------------------------------------------------------

/// Rounding up cannot round down, and moves by less than one alignment.
proof fn lemma_round_up_bounds(n: int, a: int)
    requires
        0 <= n,
        1 <= a,
    ensures
        n <= round_up(n, a) < n + a,
        round_up(n, a) % a == 0,
{
    lemma_fundamental_div_mod(n + a - 1, a);
    vstd::arithmetic::div_mod::lemma_mod_bound(n + a - 1, a);
    vstd::arithmetic::div_mod::lemma_mod_multiples_basic((n + a - 1) / a, a);
    vstd::arithmetic::mul::lemma_mul_is_commutative(a, (n + a - 1) / a);
}

/// Level-`l` path offsets lie in the half-open band
/// `[interior_count(l), interior_count(l + 1))`: the heap-style numbering
/// puts each level after all shallower ones.
proof fn lemma_path_offset_range(p: Point3D, d: nat, l: nat)
    ensures
        interior_count(l) <= path_offset(p, d, l) < interior_count(l + 1),
    decreases l,
{
    if l > 0 {
        lemma_path_offset_range(p, d, (l - 1) as nat);
    }
}

/// The marking descent keeps the buffer length and leaves every byte
/// strictly below its starting offset untouched.
proof fn lemma_set_from_frame(data: Seq<u8>, p: Point3D, state: bool, d: nat, k: nat, o: nat)
    requires
        k <= d,
        interior_count(d) <= data.len(),
        o == path_offset(p, d, (d - k) as nat),
    ensures
        set_from(data, p, state, o, k).len() == data.len(),
        forall|j: int| 0 <= j < o ==> #[trigger] set_from(data, p, state, o, k)[j] == data[j],
    decreases k,
{
    if k > 0 {
        let l = (d - k) as nat;
        let c = octant(p, (k - 1) as nat);
        let next = o * 8 + c + 1;
        assert(next == path_offset(p, d, (l + 1) as nat));
        lemma_path_offset_range(p, d, l);
        lemma_interior_count_le((l + 1) as nat, d);
        let b = if next >= data.len() {
            with_bit_state(data[o as int], c as u8, state)
        } else {
            with_bit(data[o as int], c as u8)
        };
        let updated = data.update(o as int, b);
        let result = set_from(data, p, state, o, k);
        assert(result == set_from(updated, p, state, next, (k - 1) as nat));
        lemma_set_from_frame(updated, p, state, d, (k - 1) as nat, next);
        assert forall|j: int| 0 <= j < o implies #[trigger] result[j] == data[j] by {
            assert(set_from(updated, p, state, next, (k - 1) as nat)[j] == updated[j]);
            assert(updated[j] == data[j]);
        }
    }
}

} // verus!

verus! {

// ---------------------------------------------------------------------------
// Traversal entry points.
// ---------------------------------------------------------------------------

/// The number of subdivision levels below a search's starting cell, in a
/// tree of depth `d`: all of them for the root search, the cell's own
/// depth for a resumed one.
pub open spec fn search_levels(s: SearchParameter, d: nat) -> nat {
    match s {
        SearchParameter::Root => d,
        SearchParameter::Custom { cell, offset } => log2(cell.extend.x as nat),
    }
}

/// The byte offset at which a search starts.
pub open spec fn search_start(s: SearchParameter) -> nat {
    match s {
        SearchParameter::Root => 0,
        SearchParameter::Custom { cell, offset } => offset as nat,
    }
}

/// A search is meaningful for point `p` in a domain of side `size` when
/// it starts at the root, or resumes exactly where a root descent for `p`
/// would stand at some level: at the aligned ancestor cell of `p` whose
/// extent is the power of two `2^k`, with that level's byte offset.
pub open spec fn search_valid(s: SearchParameter, p: Point3D, size: int) -> bool {
    match s {
        SearchParameter::Root => true,
        SearchParameter::Custom { cell, offset } => {
            let d = log2(size as nat);
            let k = log2(cell.extend.x as nat);
            &&& k <= d
            &&& cell.extend.x == pow2(k)
            &&& cell.extend.y == cell.extend.x
            &&& cell.extend.z == cell.extend.x
            &&& cell.position.x == p.x - (p.x as int % (pow2(k) as int))
            &&& cell.position.y == p.y - (p.y as int % (pow2(k) as int))
            &&& cell.position.z == p.z - (p.z as int % (pow2(k) as int))
            &&& offset == path_offset(p, d, (d - k) as nat)
        },
    }
}

impl Tree {
    /// Set the state of the block at a given position.
    ///
    /// Every interior bit on the descent's path is marked set; the final
    /// bit written — the one whose child offset falls outside the buffer —
    /// receives `state` itself. The whole effect on the buffer is pinned
    /// by [`set_from`]. Note the asymmetry this encodes: clearing a block
    /// never clears the interior presence bits of its ancestors.
    pub fn set_block_state(&mut self, at: Point3D, state: bool, search: SearchParameter)
        requires
            old(self).wf(),
            in_domain(at, old(self).size_spec()),
            search_valid(search, at, old(self).size_spec()),
        ensures
            final(self).wf(),
            final(self).size_spec() == old(self).size_spec(),
            final(self).data_spec() == set_from(
                old(self).data_spec(),
                at,
                state,
                search_start(search),
                search_levels(search, old(self).depth()),
            ),
    {
        let ghost d = self.depth();
        let ghost size0 = self.size_spec();
        let ghost len0 = self.data_spec().len();
        let ghost orig = self.data_spec();

        let (mut offset, mut ext): (usize, i32) = match search {
            SearchParameter::Root => (0, self.size),
            SearchParameter::Custom { cell, offset } => (offset, cell.extend.x),
        };
        let ghost k = search_levels(search, d);

        proof {
            lemma_log2_le_9(size0 as nat);
            lemma_round_up_bounds(interior_count(d) as int, 256);
            if k < d {
                lemma_pow2_strictly_increases(k, d);
            }
            lemma2_to64();
        }

        while ext > 1
            invariant
                self.size_spec() == size0,
                self.data_spec().len() == len0,
                len0 == round_up(interior_count(d) as int, 256),
                interior_count(d) <= len0,
                1 <= size0 <= 512,
                d == log2(size0 as nat),
                d <= 9,
                in_domain(at, size0),
                1 <= ext <= 512,
                ext == pow2(k),
                k <= d,
                offset == path_offset(at, d, (d - k) as nat),
                set_from(orig, at, state, search_start(search), search_levels(search, d))
                    == set_from(self.data_spec(), at, state, offset as nat, k),
            decreases ext,
        {
            proof {
                if k == 0 {
                    assert(ext == pow2(0) == 1) by {
                        lemma2_to64();
                    }
                }
                lemma_pow2_unfold(k);
                lemma_path_offset_range(at, d, (d - k) as nat);
                lemma_interior_count_le((d - k + 1) as nat, d);
                lemma_interior_count_small(d);
            }
            let half = ext / 2;
            let bx = (at.x / half) % 2;
            let by = (at.y / half) % 2;
            let bz = (at.z / half) % 2;
            let c: usize = (4 * bx + 2 * by + bz) as usize;
            let cu: u8 = c as u8;

            proof {
                assert(c == octant(at, (k - 1) as nat));
            }

            let next_offset = offset * 8 + c + 1;
            let mask: u8 = 1u8 << cu;
            let b = self.data[offset];

            let newb = if next_offset >= self.data.len() {
                // One level above the unit cells: no deeper byte exists,
                // so this bit carries the block's own state.
                let state_bit: u8 = if state {
                    1
                } else {
                    0
                };
                (b & !mask) | (state_bit << cu)
            } else {
                b | mask
            };
            self.data[offset] = newb;

            offset = next_offset;
            ext = half;
            proof {
                k = (k - 1) as nat;
            }
        }

        proof {
            if k > 0 {
                lemma_pow2_unfold(k);
                lemma_pow2_pos((k - 1) as nat);
                assert(false);
            }
        }
    }

    /// Get the state of the block at a given position.
    ///
    /// The descent mirrors [`Tree::set_block_state`]: an unset bit on the
    /// path proves the subtree was never marked and answers `false`;
    /// running past the last subdivision with every bit set answers
    /// `true`. The answer is pinned by [`get_from`]; the tree itself is
    /// left unchanged.
    pub fn get_block_state(&mut self, at: Point3D, search: SearchParameter) -> (r: bool)
        requires
            old(self).wf(),
            in_domain(at, old(self).size_spec()),
            search_valid(search, at, old(self).size_spec()),
        ensures
            *final(self) == *old(self),
            r == get_from(
                old(self).data_spec(),
                at,
                search_start(search),
                search_levels(search, old(self).depth()),
            ),
    {
        let ghost d = self.depth();
        let ghost size0 = self.size_spec();
        let ghost orig = self.data_spec();

        let (mut offset, mut ext): (usize, i32) = match search {
            SearchParameter::Root => (0, self.size),
            SearchParameter::Custom { cell, offset } => (offset, cell.extend.x),
        };
        let ghost k = search_levels(search, d);

        proof {
            lemma_log2_le_9(size0 as nat);
            lemma_round_up_bounds(interior_count(d) as int, 256);
            if k < d {
                lemma_pow2_strictly_increases(k, d);
            }
            lemma2_to64();
        }

        while ext > 1
            invariant
                *self == *old(self),
                self.size_spec() == size0,
                self.data_spec() == orig,
                self.data_spec().len() == round_up(interior_count(d) as int, 256),
                interior_count(d) <= self.data_spec().len(),
                1 <= size0 <= 512,
                d == log2(size0 as nat),
                d <= 9,
                in_domain(at, size0),
                1 <= ext <= 512,
                ext == pow2(k),
                k <= d,
                offset == path_offset(at, d, (d - k) as nat),
                get_from(orig, at, search_start(search), search_levels(search, d))
                    == get_from(orig, at, offset as nat, k),
            decreases ext,
        {
            proof {
                if k == 0 {
                    assert(ext == pow2(0) == 1) by {
                        lemma2_to64();
                    }
                }
                lemma_pow2_unfold(k);
                lemma_path_offset_range(at, d, (d - k) as nat);
                lemma_interior_count_le((d - k + 1) as nat, d);
                lemma_interior_count_small(d);
            }
            let half = ext / 2;
            let bx = (at.x / half) % 2;
            let by = (at.y / half) % 2;
            let bz = (at.z / half) % 2;
            let c: usize = (4 * bx + 2 * by + bz) as usize;
            let cu: u8 = c as u8;

            proof {
                assert(c == octant(at, (k - 1) as nat));
            }

            let mask: u8 = 1u8 << cu;

            if self.data[offset] & mask != mask {
                // An unset ancestor bit: the subtree was never marked.
                return false;
            }

            offset = offset * 8 + c + 1;
            ext = half;
            proof {
                k = (k - 1) as nat;
            }
        }

        proof {
            if k > 0 {
                lemma_pow2_unfold(k);
                lemma_pow2_pos((k - 1) as nat);
                assert(false);
            }
        }
        true
    }
}

} // verus!

verus! {

// ---------------------------------------------------------------------------
// Laws of the encoding.
// ---------------------------------------------------------------------------

/// The shape every tree buffer has: a power-of-two side up to 512, and
/// one byte per interior node rounded up to the construction alignment.
/// This is exactly [`Tree::wf`] over the tree's components.
pub open spec fn tree_shape(data: Seq<u8>, size: int) -> bool {
    &&& 1 <= size <= 512
    &&& is_power_of_two(size as nat)
    &&& data.len() == round_up(interior_count(log2(size as nat)) as int, 256)
}

/// Small facts about single-bit edits of a node byte.
proof fn lemma_bit_facts(b: u8, c: u8)
    requires
        c < 8,
    ensures
        bit_is_set(with_bit(b, c), c),
        bit_is_set(with_bit_state(b, c, true), c),
        !bit_is_set(0u8, c),
        with_bit(with_bit(b, c), c) == with_bit(b, c),
        with_bit_state(with_bit_state(b, c, true), c, true) == with_bit_state(b, c, true),
        with_bit_state(with_bit_state(b, c, false), c, false) == with_bit_state(b, c, false),
{
    assert((b | (1u8 << c)) & (1u8 << c) == (1u8 << c)) by (bit_vector)
        requires
            c < 8,
    ;
    assert(((b & !(1u8 << c)) | (1u8 << c)) & (1u8 << c) == (1u8 << c)) by (bit_vector)
        requires
            c < 8,
    ;
    assert(0u8 & (1u8 << c) != (1u8 << c)) by (bit_vector)
        requires
            c < 8,
    ;
    assert((b | (1u8 << c)) | (1u8 << c) == (b | (1u8 << c))) by (bit_vector)
        requires
            c < 8,
    ;
    assert((((b & !(1u8 << c)) | (1u8 << c)) & !(1u8 << c)) | (1u8 << c) == ((b & !(1u8 << c)) | (
    1u8 << c))) by (bit_vector)
        requires
            c < 8,
    ;
    assert((((b & !(1u8 << c)) | (0u8 << c)) & !(1u8 << c)) | (0u8 << c) == ((b & !(1u8 << c)) | (
    0u8 << c))) by (bit_vector)
        requires
            c < 8,
    ;
}

/// A marking descent for `p` leaves, at every level it passes, a byte
/// whose bit for `p`'s octant reads as set when marking with `true`; a
/// query descent for `p` over the result therefore answers `true`.
proof fn lemma_set_then_get_rec(data: Seq<u8>, p: Point3D, d: nat, k: nat)
    requires
        k <= d,
        interior_count(d) <= data.len(),
    ensures
        get_from(
            set_from(data, p, true, path_offset(p, d, (d - k) as nat), k),
            p,
            path_offset(p, d, (d - k) as nat),
            k,
        ),
    decreases k,
{
    if k > 0 {
        let l = (d - k) as nat;
        let o = path_offset(p, d, l);
        let c = octant(p, (k - 1) as nat);
        let next = o * 8 + c + 1;
        assert(next == path_offset(p, d, (l + 1) as nat));
        lemma_path_offset_range(p, d, l);
        lemma_interior_count_le((l + 1) as nat, d);
        let b = if next >= data.len() {
            with_bit_state(data[o as int], c as u8, true)
        } else {
            with_bit(data[o as int], c as u8)
        };
        lemma_bit_facts(data[o as int], c as u8);
        let updated = data.update(o as int, b);
        let result = set_from(data, p, true, o, k);
        assert(result == set_from(updated, p, true, next, (k - 1) as nat));
        lemma_set_from_frame(updated, p, true, d, (k - 1) as nat, next);
        assert(set_from(updated, p, true, next, (k - 1) as nat)[o as int] == updated[o as int]);
        assert(result[o as int] == b);
        lemma_set_then_get_rec(updated, p, d, (k - 1) as nat);
    }
}

/// Marking the same block with the same state twice leaves the buffer of
/// marking it once, level by level.
proof fn lemma_set_idempotent_rec(data: Seq<u8>, p: Point3D, state: bool, d: nat, k: nat)
    requires
        k <= d,
        interior_count(d) <= data.len(),
    ensures
        set_from(
            set_from(data, p, state, path_offset(p, d, (d - k) as nat), k),
            p,
            state,
            path_offset(p, d, (d - k) as nat),
            k,
        ) == set_from(data, p, state, path_offset(p, d, (d - k) as nat), k),
    decreases k,
{
    if k > 0 {
        let l = (d - k) as nat;
        let o = path_offset(p, d, l);
        let c = octant(p, (k - 1) as nat);
        let next = o * 8 + c + 1;
        assert(next == path_offset(p, d, (l + 1) as nat));
        lemma_path_offset_range(p, d, l);
        lemma_interior_count_le((l + 1) as nat, d);
        let b = if next >= data.len() {
            with_bit_state(data[o as int], c as u8, state)
        } else {
            with_bit(data[o as int], c as u8)
        };
        lemma_bit_facts(data[o as int], c as u8);
        let updated = data.update(o as int, b);
        let result = set_from(data, p, state, o, k);
        assert(result == set_from(updated, p, state, next, (k - 1) as nat));
        lemma_set_from_frame(updated, p, state, d, (k - 1) as nat, next);
        assert(set_from(updated, p, state, next, (k - 1) as nat)[o as int] == updated[o as int]);
        assert(result[o as int] == b);
        assert(result.len() == data.len());
        // The second pass recomputes the same byte and writes it back
        // unchanged.
        let b2 = if next >= result.len() {
            with_bit_state(result[o as int], c as u8, state)
        } else {
            with_bit(result[o as int], c as u8)
        };
        assert(b2 == b) by {
            lemma_bit_facts(data[o as int], c as u8);
        }
        assert(result.update(o as int, b2) =~= result);
        lemma_set_idempotent_rec(updated, p, state, d, (k - 1) as nat);
    }
}

/// After a marking descent with `true`, every level from the starting
/// one down has the bit of `p`'s octant set in its path byte.
proof fn lemma_set_marks_path_rec(data: Seq<u8>, p: Point3D, d: nat, k: nat)
    requires
        k <= d,
        interior_count(d) <= data.len(),
    ensures
        forall|l: nat| #![trigger path_offset(p, d, l)]
            d - k <= l < d ==> bit_is_set(
                set_from(data, p, true, path_offset(p, d, (d - k) as nat), k)[path_offset(
                    p,
                    d,
                    l,
                ) as int],
                octant(p, (d - 1 - l) as nat) as u8,
            ),
    decreases k,
{
    if k > 0 {
        let l0 = (d - k) as nat;
        let o = path_offset(p, d, l0);
        let c = octant(p, (k - 1) as nat);
        let next = o * 8 + c + 1;
        assert(next == path_offset(p, d, (l0 + 1) as nat));
        lemma_path_offset_range(p, d, l0);
        lemma_interior_count_le((l0 + 1) as nat, d);
        let b = if next >= data.len() {
            with_bit_state(data[o as int], c as u8, true)
        } else {
            with_bit(data[o as int], c as u8)
        };
        lemma_bit_facts(data[o as int], c as u8);
        let updated = data.update(o as int, b);
        let result = set_from(data, p, true, o, k);
        assert(result == set_from(updated, p, true, next, (k - 1) as nat));
        lemma_set_from_frame(updated, p, true, d, (k - 1) as nat, next);
        assert(set_from(updated, p, true, next, (k - 1) as nat)[o as int] == updated[o as int]);
        assert(result[o as int] == b);
        lemma_set_marks_path_rec(updated, p, d, (k - 1) as nat);
        assert forall|l: nat| #![trigger path_offset(p, d, l)] d - k <= l < d implies bit_is_set(
            result[path_offset(p, d, l) as int],
            octant(p, (d - 1 - l) as nat) as u8,
        ) by {
            if l == l0 {
                assert(octant(p, (d - 1 - l) as nat) == c);
            }
        }
    }
}

/// For every point inside the domain: after `set_block_state(p, true)`,
/// `get_block_state(p)` answers `true`. Stated over the model functions
/// that the two traversals' contracts are written in, for a root
/// descent.
pub proof fn lemma_set_then_get(data: Seq<u8>, p: Point3D, size: int)
    requires
        tree_shape(data, size),
        in_domain(p, size),
    ensures
        get_from(
            set_from(data, p, true, 0, log2(size as nat)),
            p,
            0,
            log2(size as nat),
        ),
{
    let d = log2(size as nat);
    lemma_round_up_bounds(interior_count(d) as int, 256);
    lemma_set_then_get_rec(data, p, d, d);
}

/// On a freshly constructed tree — an all-zero buffer — every block of a
/// domain of side at least 2 reads unoccupied. (A domain of side 1 has
/// no interior byte at all, and its single block reads occupied by the
/// terminal convention; it is left out here.)
pub proof fn lemma_fresh_tree_empty(data: Seq<u8>, p: Point3D, size: int)
    requires
        tree_shape(data, size),
        in_domain(p, size),
        size >= 2,
        forall|i: int| 0 <= i < data.len() ==> data[i] == 0u8,
    ensures
        !get_from(data, p, 0, log2(size as nat)),
{
    let d = log2(size as nat);
    if d == 0 {
        assert(pow2(0) == 1) by {
            lemma2_to64();
        }
    }
    lemma_round_up_bounds(interior_count(d) as int, 256);
    let c = octant(p, (d - 1) as nat);
    lemma_bit_facts(0u8, c as u8);
}

/// Idempotence: marking a block with a state twice yields the very same
/// buffer as marking it once, for a root descent.
pub proof fn lemma_set_idempotent(data: Seq<u8>, p: Point3D, state: bool, size: int)
    requires
        tree_shape(data, size),
        in_domain(p, size),
    ensures
        set_from(
            set_from(data, p, state, 0, log2(size as nat)),
            p,
            state,
            0,
            log2(size as nat),
        ) == set_from(data, p, state, 0, log2(size as nat)),
{
    let d = log2(size as nat);
    lemma_round_up_bounds(interior_count(d) as int, 256);
    lemma_set_idempotent_rec(data, p, state, d, d);
}

/// Path marking: after setting a single point occupied, every node on
/// the root-to-leaf path for that point — the strict ancestors' presence
/// bits as well as the final occupancy bit — has the bit of the point's
/// octant set.
pub proof fn lemma_set_marks_path(data: Seq<u8>, p: Point3D, size: int, l: nat)
    requires
        tree_shape(data, size),
        in_domain(p, size),
        l < log2(size as nat),
    ensures
        bit_is_set(
            set_from(data, p, true, 0, log2(size as nat))[path_offset(p, log2(size as nat), l) as int],
            octant(p, (log2(size as nat) - 1 - l) as nat) as u8,
        ),
{
    let d = log2(size as nat);
    lemma_round_up_bounds(interior_count(d) as int, 256);
    lemma_set_marks_path_rec(data, p, d, d);
}

} // verus!

verus! {

// ---------------------------------------------------------------------------
// The arithmetic descent agrees with the geometric subdivision.
// ---------------------------------------------------------------------------

/// A non-negative coordinate splits against a power-of-two grid: its
/// remainder modulo `2^(k+1)` is its bit `k` worth of `2^k` plus its
/// remainder modulo `2^k`.
proof fn lemma_coord_halves(v: int, k: nat)
    requires
        0 <= v,
    ensures
        v % (pow2((k + 1) as nat) as int) == coord_bit(v, k) * (pow2(k) as int) + v % (
        pow2(k) as int),
        0 <= v % (pow2(k) as int) < pow2(k),
        0 <= coord_bit(v, k) <= 1,
{
    lemma_pow2_pos(k);
    lemma_pow2_unfold((k + 1) as nat);
    vstd::arithmetic::div_mod::lemma_mod_breakdown(v, pow2(k) as int, 2);
    vstd::arithmetic::div_mod::lemma_mod_bound(v, pow2(k) as int);
    vstd::arithmetic::mul::lemma_mul_is_commutative(pow2(k) as int, coord_bit(v, k));
}

/// Containment along one axis: inside the aligned band of width
/// `2^(k+1)` around `v`, the half of width `2^k` that holds `v` (its
/// lower edge at `cpos`) is the upper one exactly when bit `k` of `v`
/// is 1.
proof fn lemma_axis_half(v: int, k: nat, lo: int, upper: bool, cpos: int)
    requires
        0 <= v,
        lo == v - v % (pow2((k + 1) as nat) as int),
        cpos == lo + (if upper {
            pow2(k) as int
        } else {
            0
        }),
    ensures
        0 <= lo <= v,
        (cpos <= v < cpos + pow2(k)) <==> (upper <==> coord_bit(v, k) == 1),
{
    let p2 = pow2((k + 1) as nat) as int;
    lemma_pow2_pos((k + 1) as nat);
    lemma_coord_halves(v, k);
    vstd::arithmetic::div_mod::lemma_mod_bound(v, p2);
    lemma_fundamental_div_mod(v, p2);
    vstd::arithmetic::div_mod::lemma_div_pos_is_pos(v, p2);
    vstd::arithmetic::mul::lemma_mul_nonnegative(p2, v / p2);
}

/// The bit arithmetic of [`octant`] and the fixed child enumeration of
/// [`crate::cell::child_cell`] agree: inside the aligned ancestor cell of
/// `p` whose children have extent `2^k`, the one child that contains `p`
/// is child `octant(p, k)`, and no other child contains it. The bit
/// position written by the descent therefore encodes exactly the octant
/// that [`Cell::subdivide`] enumerates.
pub proof fn lemma_octant_matches_subdivision(p: Point3D, k: nat, parent: Cell, i: int)
    requires
        0 <= p.x && 0 <= p.y && 0 <= p.z,
        p.x + pow2((k + 1) as nat) <= i32::MAX,
        p.y + pow2((k + 1) as nat) <= i32::MAX,
        p.z + pow2((k + 1) as nat) <= i32::MAX,
        parent.extend.x == pow2((k + 1) as nat),
        parent.extend.y == parent.extend.x,
        parent.extend.z == parent.extend.x,
        parent.position.x == p.x - (p.x as int) % (pow2((k + 1) as nat) as int),
        parent.position.y == p.y - (p.y as int) % (pow2((k + 1) as nat) as int),
        parent.position.z == p.z - (p.z as int) % (pow2((k + 1) as nat) as int),
        0 <= i < 8,
    ensures
        crate::cell::cell_contains(crate::cell::child_cell(parent, i), p) <==> i == octant(p, k),
{
    let pp = pow2(k) as int;
    lemma_pow2_pos(k);
    lemma_pow2_unfold((k + 1) as nat);
    lemma_axis_half(
        p.x as int,
        k,
        parent.position.x as int,
        i >= 4,
        parent.position.x + (if i >= 4 {
            pp
        } else {
            0
        }),
    );
    lemma_axis_half(
        p.y as int,
        k,
        parent.position.y as int,
        i % 4 >= 2,
        parent.position.y + (if i % 4 >= 2 {
            pp
        } else {
            0
        }),
    );
    lemma_axis_half(
        p.z as int,
        k,
        parent.position.z as int,
        i % 2 == 1,
        parent.position.z + (if i % 2 == 1 {
            pp
        } else {
            0
        }),
    );
    let child = crate::cell::child_cell(parent, i);
    assert(child.extend.x == pp && child.extend.y == pp && child.extend.z == pp);
    assert(child.position.x == parent.position.x + if i >= 4 {
        pp
    } else {
        0
    });
    assert(child.position.y == parent.position.y + if i % 4 >= 2 {
        pp
    } else {
        0
    });
    assert(child.position.z == parent.position.z + if i % 2 == 1 {
        pp
    } else {
        0
    });
    lemma_coord_halves(p.x as int, k);
    lemma_coord_halves(p.y as int, k);
    lemma_coord_halves(p.z as int, k);
    assert(i == 4 * (if i >= 4 {
        1int
    } else {
        0int
    }) + 2 * (if i % 4 >= 2 {
        1int
    } else {
        0int
    }) + (if i % 2 == 1 {
        1int
    } else {
        0int
    }));
}

} // verus!
