use voxel_octree::cell::Cell;
use voxel_octree::point::Point3D;

#[test]
fn point_arithmetic_component_wise() {
    let a = Point3D::new(1, -2, 3);
    let b = Point3D::new(4, 5, -6);
    assert_eq!(a.add(b), Point3D::new(5, 3, -3));
    assert_eq!(a.sub(b), Point3D::new(-3, -7, 9));
    assert_eq!(a.mul(b), Point3D::new(4, -10, -18));
    assert_eq!(Point3D::new(9, -9, 10).div(Point3D::new(2, 2, -3)), Point3D::new(4, -4, -3));
}

#[test]
fn point_scalar_arithmetic_broadcasts() {
    let a = Point3D::new(1, -2, 3);
    assert_eq!(a.add_scalar(2), Point3D::new(3, 0, 5));
    assert_eq!(a.sub_scalar(2), Point3D::new(-1, -4, 1));
    assert_eq!(a.mul_scalar(-2), Point3D::new(-2, 4, -6));
    // Division truncates toward zero, as Rust's `/` does.
    assert_eq!(Point3D::new(-7, 7, -8).div_scalar(2), Point3D::new(-3, 3, -4));
}

#[test]
fn point_conversions_and_scalar_equality() {
    assert_eq!(Point3D::from((1, 2, 3)), Point3D::new(1, 2, 3));
    assert_eq!(Point3D::from(5), Point3D::new(5, 5, 5));
    assert_eq!(Point3D::default(), Point3D::new(0, 0, 0));
    assert!(Point3D::new(1, 1, 1).eq_scalar(1));
    assert!(!Point3D::new(1, 2, 1).eq_scalar(1));
}

#[test]
fn cell_subdivides_in_fixed_order() {
    let cell = Cell::new(Point3D::new(0, 0, 0), Point3D::new(2, 2, 2));
    let childs = cell.subdivide().unwrap();
    // Bit 0 of the child index moves along z, bit 1 along y, bit 2
    // along x; this order is the wire contract of the stored bytes.
    let expected = [
        (0, 0, 0),
        (0, 0, 1),
        (0, 1, 0),
        (0, 1, 1),
        (1, 0, 0),
        (1, 0, 1),
        (1, 1, 0),
        (1, 1, 1),
    ];
    for (i, (x, y, z)) in expected.iter().enumerate() {
        assert_eq!(childs[i].position, Point3D::new(*x, *y, *z));
        assert_eq!(childs[i].extend, Point3D::new(1, 1, 1));
    }
}

#[test]
fn unit_cell_does_not_subdivide() {
    let cell = Cell::new(Point3D::new(3, 4, 5), Point3D::new(1, 1, 1));
    assert!(cell.subdivide().is_none());
}

#[test]
fn cell_containment_is_half_open() {
    let cell = Cell::new(Point3D::new(2, 2, 2), Point3D::new(4, 4, 4));
    assert!(cell.contains(Point3D::new(2, 2, 2)));
    assert!(cell.contains(Point3D::new(5, 5, 5)));
    assert!(!cell.contains(Point3D::new(6, 2, 2)));
    assert!(!cell.contains(Point3D::new(1, 3, 3)));
    assert!(!cell.contains(Point3D::new(2, 2, 6)));
}

#[test]
fn cell_default_is_empty_at_origin() {
    let cell = Cell::default();
    assert_eq!(cell.position, Point3D::new(0, 0, 0));
    assert_eq!(cell.extend, Point3D::new(0, 0, 0));
    assert!(!cell.contains(Point3D::new(0, 0, 0)));
}
