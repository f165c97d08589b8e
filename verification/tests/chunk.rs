use voxel_octree::chunk::{Chunk, Voxel};
use voxel_octree::point::Point3D;
use voxel_octree::tree::SearchParameter;

#[test]
fn voxel_color_packs_5_6_5() {
    assert_eq!(Voxel::new_color(0, 0, 0), 0);
    assert_eq!(Voxel::new_color(255, 255, 255), 0xFFFF);
    // 1 | 2 << 5 | 3 << 11
    assert_eq!(Voxel::new_color(1, 2, 3), 1 + 64 + 6144);
    // Only the low 5 (red), 6 (green), 5 (blue) bits survive.
    assert_eq!(Voxel::new_color(0x20, 0x40, 0x20), 0);
}

#[test]
fn set_voxel_lands_at_row_major_index() {
    let mut chunk = Chunk::<4>::new(Point3D::new(0, 0, 0));
    let v: u16 = 0xABCD;
    chunk.set_voxel(v, 1, 2, 3);

    let raw = chunk.get_raw_voxels();
    assert_eq!(raw.len(), 2 * 4 * 4 * 4);

    // Reinterpret the little-endian byte pairs back as u16 values.
    let back: Vec<u16> = raw
        .chunks(2)
        .map(|p| (p[0] as u16) | ((p[1] as u16) << 8))
        .collect();

    let index = 1 + 2 * 4 + 3 * 16;
    assert_eq!(index, 57);
    assert_eq!(back[index], v);
    for (i, value) in back.iter().enumerate() {
        if i != index {
            assert_eq!(*value, 0);
        }
    }
}

#[test]
fn add_and_rem_block_drive_the_octree() {
    let mut chunk = Chunk::<64>::new(Point3D::new(0, 0, 0));
    assert_eq!(chunk.get_tree().get_size(), 64);

    // add_block writes the same encoding a bare tree descent writes.
    chunk.add_block(Point3D::new(63, 63, 63));
    let mut tree = voxel_octree::tree::Tree::new(64);
    tree.set_block_state(Point3D::new(63, 63, 63), true, SearchParameter::Root);
    assert_eq!(chunk.get_tree().raw_data(), tree.raw_data());

    // rem_block writes a cleared state the same way.
    chunk.rem_block(Point3D::new(63, 63, 63));
    tree.set_block_state(Point3D::new(63, 63, 63), false, SearchParameter::Root);
    assert_eq!(chunk.get_tree().raw_data(), tree.raw_data());

    // (63, 63, 63) descends through child 7 at every level; its final
    // path byte's child offset is past the buffer, so the clear took
    // effect, while the root keeps the presence bit for child 7.
    assert!(!tree.get_block_state(Point3D::new(63, 63, 63), SearchParameter::Root));
    assert_eq!(chunk.get_tree().raw_data()[0] & 0x80, 0x80);
}

#[test]
fn new_chunk_is_all_zero() {
    let chunk = Chunk::<8>::new(Point3D::new(1, 2, 3));
    assert!(chunk.get_raw_voxels().iter().all(|b| *b == 0));
    assert!(chunk.get_tree().raw_data().iter().all(|b| *b == 0));
}

#[test]
fn chunk_octree_set_then_get() {
    let mut chunk = Chunk::<8>::new(Point3D::new(0, 0, 0));
    chunk.add_block(Point3D::new(2, 5, 7));
    let raw = chunk.get_tree().raw_data().to_vec();

    // The same point set directly on a bare tree of the same domain
    // produces the same buffer.
    let mut tree = voxel_octree::tree::Tree::new(8);
    tree.set_block_state(Point3D::new(2, 5, 7), true, SearchParameter::Root);
    assert_eq!(raw.as_slice(), tree.raw_data());
    assert!(tree.get_block_state(Point3D::new(2, 5, 7), SearchParameter::Root));
}
