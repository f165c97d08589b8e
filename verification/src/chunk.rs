use vstd::prelude::*;

use crate::point::Point3D;
use crate::tree::{
    in_domain, is_power_of_two, log2, set_from, SearchParameter, Tree,
};

verus! {

/// Helpers for per-voxel values.
pub struct Voxel;

impl Voxel {
    /// Pack a color into the 16-bit voxel encoding: 5 bits of red in the
    /// low bits, 6 bits of green above them, 5 bits of blue on top.
    pub fn new_color(r: u8, g: u8, b: u8) -> (c: u16)
        ensures
            c == (((r & 0x1f) as u16) | (((g & 0x3f) as u16) << 5) | (((b & 0x1f) as u16) << 11)),
    {
        let rm = (r & 0x1F) as u16;
        let gm = (g & 0x3F) as u16;
        let bm = (b & 0x1F) as u16;
        rm | (gm << 5) | (bm << 11)
    }
}

/// The dense voxel grid of a chunk, re-encoded as bytes: each 16-bit
/// value becomes its low byte followed by its high byte (little-endian),
/// the layout the GPU-side dense-grid decoder consumes.
pub open spec fn le_bytes_of(s: Seq<u16>) -> Seq<u8> {
    Seq::new(
        2 * s.len(),
        |i: int|
            if i % 2 == 0 {
                ((s[i / 2] as int) % 256) as u8
            } else {
                ((s[i / 2] as int) / 256) as u8
            },
    )
}

/// A cubic chunk of the world: a dense grid of voxel values together
/// with a [`Tree`] indexing occupancy over the same `SIZE^3` domain.
///
/// The grid and the octree are owned exclusively and are not kept in
/// sync automatically: `set_voxel` touches only the grid, while
/// `add_block` / `rem_block` touch only the octree.
pub struct Chunk<const SIZE: usize> {
    /// The position of the chunk in the world.
    pos: Point3D,
    /// The octree of the chunk.
    tree: Tree,
    /// The voxels of the chunk, row-major: `x + y * SIZE + z * SIZE^2`.
    voxels: Vec<u16>,
}

impl<const CHUNK_SIZE: usize> Chunk<CHUNK_SIZE> {
    /// The chunk's world position.
    pub closed spec fn pos_spec(&self) -> Point3D {
        self.pos
    }

    /// The chunk's octree.
    pub closed spec fn tree_spec(&self) -> Tree {
        self.tree
    }

    /// The dense voxel grid.
    pub closed spec fn voxels_spec(&self) -> Seq<u16> {
        self.voxels@
    }

    /// Structural invariant: the octree covers the same power-of-two
    /// domain and the grid holds exactly `SIZE^3` values.
    pub open spec fn wf(&self) -> bool {
        &&& self.tree_spec().wf()
        &&& self.tree_spec().size_spec() == CHUNK_SIZE as int
        &&& self.voxels_spec().len() == CHUNK_SIZE * CHUNK_SIZE * CHUNK_SIZE
    }

    /// Create a new chunk at `pos`: a zero-filled dense grid and a fresh
    /// all-zero octree sized for the chunk's domain.
    pub fn new(pos: Point3D) -> (c: Self)
        requires
            is_power_of_two(CHUNK_SIZE as nat),
            CHUNK_SIZE <= 512,
        ensures
            c.wf(),
            c.pos_spec() == pos,
            c.voxels_spec() =~= Seq::new((CHUNK_SIZE * CHUNK_SIZE * CHUNK_SIZE) as nat, |i: int| 0u16),
            c.tree_spec().data_spec() =~= Seq::new(c.tree_spec().data_spec().len(), |i: int| 0u8),
    {
        proof {
            assert(CHUNK_SIZE * CHUNK_SIZE <= 512 * 512 && CHUNK_SIZE * CHUNK_SIZE * CHUNK_SIZE
                <= 512 * 512 * 512) by (nonlinear_arith)
                requires
                    0 <= CHUNK_SIZE <= 512,
            ;
        }
        let n = CHUNK_SIZE * CHUNK_SIZE * CHUNK_SIZE;

        let mut voxels: Vec<u16> = Vec::new();
        while voxels.len() < n
            invariant
                voxels@.len() <= n,
                forall|i: int| 0 <= i < voxels@.len() ==> voxels@[i] == 0u16,
            decreases n - voxels@.len(),
        {
            voxels.push(0u16);
        }

        Self { pos, tree: Tree::new(CHUNK_SIZE as u32), voxels }
    }

    /// Borrow the chunk's octree.
    pub fn get_tree(&self) -> (t: &Tree)
        ensures
            *t == self.tree_spec(),
    {
        &self.tree
    }

    /// Set the value of the voxel at `(x, y, z)` in the dense grid, at
    /// the row-major index `x + y * SIZE + z * SIZE^2`. That index
    /// formula is the wire contract of the GPU-side dense-grid decoder.
    pub fn set_voxel(&mut self, ty: u16, x: usize, y: usize, z: usize)
        requires
            old(self).wf(),
            x < CHUNK_SIZE,
            y < CHUNK_SIZE,
            z < CHUNK_SIZE,
        ensures
            final(self).wf(),
            final(self).pos_spec() == old(self).pos_spec(),
            final(self).tree_spec() == old(self).tree_spec(),
            final(self).voxels_spec() == old(self).voxels_spec().update(
                x + y * CHUNK_SIZE + z * CHUNK_SIZE * CHUNK_SIZE,
                ty,
            ),
    {
        proof {
            assert(y * CHUNK_SIZE <= 512 * 512 && z * CHUNK_SIZE <= 512 * 512 && z * CHUNK_SIZE
                * CHUNK_SIZE <= 512 * 512 * 512 && x + y * CHUNK_SIZE + z * CHUNK_SIZE * CHUNK_SIZE
                < CHUNK_SIZE * CHUNK_SIZE * CHUNK_SIZE <= 512 * 512 * 512) by (nonlinear_arith)
                requires
                    0 <= x < CHUNK_SIZE <= 512,
                    0 <= y < CHUNK_SIZE,
                    0 <= z < CHUNK_SIZE,
            ;
        }
        let index = x + y * CHUNK_SIZE + z * CHUNK_SIZE * CHUNK_SIZE;
        self.voxels[index] = ty;
    }

    /// Mark the block at `at` occupied in the octree, descending from
    /// the root. The dense grid is untouched.
    pub fn add_block(&mut self, at: Point3D)
        requires
            old(self).wf(),
            in_domain(at, CHUNK_SIZE as int),
        ensures
            final(self).wf(),
            final(self).pos_spec() == old(self).pos_spec(),
            final(self).voxels_spec() == old(self).voxels_spec(),
            final(self).tree_spec().size_spec() == old(self).tree_spec().size_spec(),
            final(self).tree_spec().data_spec() == set_from(
                old(self).tree_spec().data_spec(),
                at,
                true,
                0,
                log2(CHUNK_SIZE as nat),
            ),
    {
        self.tree.set_block_state(at, true, SearchParameter::Root);
    }

    /// Write the block at `at` back to the empty state in the octree,
    /// descending from the root. Only the final occupancy bit can be
    /// cleared; ancestor presence bits stay marked (see
    /// [`Tree::set_block_state`]). The dense grid is untouched.
    pub fn rem_block(&mut self, at: Point3D)
        requires
            old(self).wf(),
            in_domain(at, CHUNK_SIZE as int),
        ensures
            final(self).wf(),
            final(self).pos_spec() == old(self).pos_spec(),
            final(self).voxels_spec() == old(self).voxels_spec(),
            final(self).tree_spec().size_spec() == old(self).tree_spec().size_spec(),
            final(self).tree_spec().data_spec() == set_from(
                old(self).tree_spec().data_spec(),
                at,
                false,
                0,
                log2(CHUNK_SIZE as nat),
            ),
    {
        self.tree.set_block_state(at, false, SearchParameter::Root);
    }

    /// Export the dense grid as raw bytes for upload: each 16-bit voxel
    /// value written explicitly as little-endian, fixing the wire layout
    /// independently of the host's byte order.
    pub fn get_raw_voxels(&self) -> (r: Vec<u8>)
        ensures
            r@ == le_bytes_of(self.voxels_spec()),
    {
        let mut r: Vec<u8> = Vec::new();
        let mut j: usize = 0;
        while j < self.voxels.len()
            invariant
                j <= self.voxels@.len(),
                r@.len() == 2 * j,
                forall|i: int|
                    0 <= i < j ==> r@[2 * i] == ((self.voxels@[i] as int) % 256) as u8 && r@[2 * i
                        + 1] == ((self.voxels@[i] as int) / 256) as u8,
            decreases self.voxels@.len() - j,
        {
            let v = self.voxels[j];
            r.push((v % 256) as u8);
            r.push((v / 256) as u8);
            j = j + 1;
        }
        proof {
            let s = self.voxels@;
            assert forall|i: int| 0 <= i < 2 * s.len() implies r@[i] == le_bytes_of(s)[i] by {
                if i % 2 == 0 {
                    assert(i == 2 * (i / 2));
                } else {
                    assert(i == 2 * (i / 2) + 1);
                }
            }
            assert(r@ =~= le_bytes_of(s));
        }
        r
    }
}

} // verus!
