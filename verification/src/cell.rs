use vstd::prelude::*;

use crate::point::Point3D;

verus! {

/// An axis-aligned cube over integer coordinates.
///
/// `position` is the minimum corner and `extend` the per-axis half-open
/// size: the cell spans `[position, position + extend)` on each axis.
#[derive(Debug, Clone, Copy, PartialEq, Eq, Structural)]
pub struct Cell {
    /// The per-axis size of the cell, counted from `position`.
    pub extend: Point3D,
    /// The minimum corner of the cell.
    pub position: Point3D,
}

/// Membership in the half-open box `[position, position + extend)`.
pub open spec fn cell_contains(c: Cell, p: Point3D) -> bool {
    &&& c.position.x <= p.x < c.position.x + c.extend.x
    &&& c.position.y <= p.y < c.position.y + c.extend.y
    &&& c.position.z <= p.z < c.position.z + c.extend.z
}

/// The `i`-th child of a subdivided cell, `0 <= i < 8`.
///
/// The enumeration is fixed and significant: bit 0 of `i` selects the
/// upper half along z, bit 1 along y, bit 2 along x. The stored bit
/// position inside each octree byte is exactly this child index.
pub open spec fn child_cell(c: Cell, i: int) -> Cell {
    let hx = c.extend.x as int / 2;
    let hy = c.extend.y as int / 2;
    let hz = c.extend.z as int / 2;
    Cell {
        extend: Point3D { x: hx as i32, y: hy as i32, z: hz as i32 },
        position: Point3D {
            x: (c.position.x + if i >= 4 { hx } else { 0 }) as i32,
            y: (c.position.y + if i % 4 >= 2 { hy } else { 0 }) as i32,
            z: (c.position.z + if i % 2 == 1 { hz } else { 0 }) as i32,
        },
    }
}

impl Cell {
    /// Create a new cell; no validation is performed.
    pub fn new(position: Point3D, extend: Point3D) -> (c: Self)
        ensures
            c.position == position,
            c.extend == extend,
    {
        Self { position, extend }
    }

    /// Subdivide the cell into its 8 children of half extent, in the
    /// fixed enumeration order of [`child_cell`]. A unit cell (extent
    /// `(1, 1, 1)`) is terminal and yields `None`.
    pub fn subdivide(&self) -> (r: Option<[Cell; 8]>)
        requires
            self.extend.x >= 1,
            self.extend.y >= 1,
            self.extend.z >= 1,
            self.position.x + self.extend.x <= i32::MAX,
            self.position.y + self.extend.y <= i32::MAX,
            self.position.z + self.extend.z <= i32::MAX,
        ensures
            (r is None) <==> self.extend == (Point3D { x: 1, y: 1, z: 1 }),
            r matches Some(cells) ==> forall|i: int|
                0 <= i < 8 ==> cells[i] == child_cell(*self, i),
    {
        if self.extend.eq_scalar(1) {
            return None;
        }

        let h = self.extend.div_scalar(2);
        let childs = [
            Cell { extend: h, position: self.position },
            Cell { extend: h, position: self.position.add(Point3D::new(0, 0, h.z)) },
            Cell { extend: h, position: self.position.add(Point3D::new(0, h.y, 0)) },
            Cell { extend: h, position: self.position.add(Point3D::new(0, h.y, h.z)) },
            Cell { extend: h, position: self.position.add(Point3D::new(h.x, 0, 0)) },
            Cell { extend: h, position: self.position.add(Point3D::new(h.x, 0, h.z)) },
            Cell { extend: h, position: self.position.add(Point3D::new(h.x, h.y, 0)) },
            Cell { extend: h, position: self.position.add(Point3D::new(h.x, h.y, h.z)) },
        ];
        Some(childs)
    }

    /// Half-open containment test for a point.
    pub fn contains(&self, point: Point3D) -> (r: bool)
        requires
            i32::MIN <= self.position.x + self.extend.x <= i32::MAX,
            i32::MIN <= self.position.y + self.extend.y <= i32::MAX,
            i32::MIN <= self.position.z + self.extend.z <= i32::MAX,
        ensures
            r == cell_contains(*self, point),
    {
        point.x >= self.position.x && point.y >= self.position.y && point.z >= self.position.z
            && point.x < self.position.x + self.extend.x
            && point.y < self.position.y + self.extend.y
            && point.z < self.position.z + self.extend.z
    }
}

impl Default for Cell {
    /// The empty cell at the origin.
    fn default() -> (r: Self)
        ensures
            r.position == (Point3D { x: 0, y: 0, z: 0 }),
            r.extend == (Point3D { x: 0, y: 0, z: 0 }),
    {
        Cell {
            extend: Point3D { x: 0, y: 0, z: 0 },
            position: Point3D { x: 0, y: 0, z: 0 },
        }
    }
}

} // verus!
