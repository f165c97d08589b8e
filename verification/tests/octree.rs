use voxel_octree::cell::Cell;
use voxel_octree::point::Point3D;
use voxel_octree::tree::{SearchParameter, Tree};

#[test]
fn test_octree() {
    let mut tree = Tree::new(8);
    tree.set_block_state(Point3D::new(0, 0, 0), true, Default::default());
    tree.set_block_state(Point3D::new(0, 6, 0), true, Default::default());

    let raw_data = tree.raw_data();
    println!("{:?}", raw_data);

    let data: &[u32] = bytemuck::cast_slice(tree.raw_data());

    let mut raw = Vec::<u8>::new();

    for i in 0..(data.len() * 4) {
        let value = (data[i / 4] >> ((i % 4) * 8)) & 0xFF;
        raw.push(value as u8);
    }

    assert_eq!(raw_data, raw);
    println!("Len is : {}", raw_data.len());

    let mut offset = 0;

    for _ in 0..3 {
        println!("Offset: {:?}", offset);

        // Retrieve the value of the current cell.
        // This value contains 8 bits that represent
        // the 8 subdivision of the current cell. If
        // a bit is equal to 1 it mean that he have
        // childs otherwise it dosen't have child.
        let value = (data[offset / 4] >> ((offset % 4) * 8)) & 0xFF;

        let index = 2;

        // Check if the current cell have child for the
        // index 0...
        if ((value >> index) & 0x1) != 1 {
            println!("Don't have childs !");
            break;
        }

        // Go to the next octree child...
        offset = offset * 8 + (index + 1);
    }
}

#[test]
fn estimated_sizes_exact() {
    // (8^d - 1) / 7 interior nodes for depth d = log2(size).
    assert_eq!(Tree::estimated_size(1), 0);
    assert_eq!(Tree::estimated_size(2), 1);
    assert_eq!(Tree::estimated_size(4), 9);
    assert_eq!(Tree::estimated_size(8), 73);
    assert_eq!(Tree::estimated_size(64), 37449);
    assert_eq!(Tree::estimated_size(512), 19173961);
}

#[test]
fn estimated_size_aligned_is_aligned_multiple() {
    for size in [1u32, 2, 4, 8, 16, 32, 64, 128, 256, 512] {
        for align in [1usize, 4, 64, 256, 4096] {
            let est = Tree::estimated_size(size);
            let aligned = Tree::estimated_size_aligned(size, align);
            assert_eq!(aligned % align, 0);
            assert!(aligned >= est);
            assert!(aligned < est + align);
        }
    }
    assert_eq!(Tree::estimated_size_aligned(8, 256), 256);
    assert_eq!(Tree::estimated_size_aligned(64, 256), 37632);
    assert_eq!(Tree::estimated_size_aligned(512, 256), 19174144);
}

#[test]
fn fresh_tree_reads_empty() {
    let mut tree = Tree::new(8);
    for x in 0..8 {
        for y in 0..8 {
            for z in 0..8 {
                assert!(!tree.get_block_state(Point3D::new(x, y, z), SearchParameter::Root));
            }
        }
    }
    assert!(tree.raw_data().iter().all(|b| *b == 0));
}

#[test]
fn set_then_get_reads_occupied() {
    let mut tree = Tree::new(16);
    let points = [
        (0, 0, 0),
        (15, 15, 15),
        (1, 2, 3),
        (8, 0, 7),
        (0, 15, 0),
    ];
    for (x, y, z) in points {
        tree.set_block_state(Point3D::new(x, y, z), true, SearchParameter::Root);
        assert!(tree.get_block_state(Point3D::new(x, y, z), SearchParameter::Root));
    }
    // A point never set, whose top-level octant was never touched.
    assert!(!tree.get_block_state(Point3D::new(15, 0, 0), SearchParameter::Root));
}

#[test]
fn set_twice_is_idempotent() {
    let mut once = Tree::new(8);
    once.set_block_state(Point3D::new(3, 5, 1), true, SearchParameter::Root);
    let mut twice = Tree::new(8);
    twice.set_block_state(Point3D::new(3, 5, 1), true, SearchParameter::Root);
    twice.set_block_state(Point3D::new(3, 5, 1), true, SearchParameter::Root);
    assert_eq!(once.raw_data(), twice.raw_data());

    let mut once_false = Tree::new(8);
    once_false.set_block_state(Point3D::new(7, 7, 7), false, SearchParameter::Root);
    let mut twice_false = Tree::new(8);
    twice_false.set_block_state(Point3D::new(7, 7, 7), false, SearchParameter::Root);
    twice_false.set_block_state(Point3D::new(7, 7, 7), false, SearchParameter::Root);
    assert_eq!(once_false.raw_data(), twice_false.raw_data());
}

#[test]
fn two_octants_fixed_bytes() {
    // Domain of side 8, depth 3. (0, 0, 0) descends through child 0 at
    // every level; (0, 6, 0) through child 2 (the y bit), child 2, then
    // child 0. Offsets follow offset * 8 + child + 1.
    let mut tree = Tree::new(8);
    tree.set_block_state(Point3D::new(0, 0, 0), true, SearchParameter::Root);
    tree.set_block_state(Point3D::new(0, 6, 0), true, SearchParameter::Root);

    let raw = tree.raw_data();
    assert_eq!(raw.len(), 256);
    let mut expected = vec![0u8; 256];
    expected[0] = 0b101; // root: bit 0 for (0,0,0), bit 2 for (0,6,0)
    expected[1] = 0b001; // level 1 on (0,0,0)'s path
    expected[9] = 0b001; // level 2 on (0,0,0)'s path
    expected[3] = 0b100; // level 1 on (0,6,0)'s path
    expected[27] = 0b001; // level 2 on (0,6,0)'s path
    assert_eq!(raw, expected.as_slice());

    assert!(tree.get_block_state(Point3D::new(0, 0, 0), SearchParameter::Root));
    assert!(tree.get_block_state(Point3D::new(0, 6, 0), SearchParameter::Root));
    assert!(!tree.get_block_state(Point3D::new(7, 7, 7), SearchParameter::Root));
}

#[test]
fn path_marking_keeps_ancestors() {
    // After marking one point, every strict ancestor's presence bit on
    // the root-to-leaf path is 1.
    let mut tree = Tree::new(8);
    tree.set_block_state(Point3D::new(0, 6, 0), true, SearchParameter::Root);
    let raw = tree.raw_data();
    assert_eq!(raw[0] & 0b100, 0b100); // root, child 2
    assert_eq!(raw[3] & 0b100, 0b100); // level 1, child 2
    assert_eq!(raw[27] & 0b001, 0b001); // level 2, child 0
}

#[test]
fn clearing_keeps_ancestors_marked() {
    // Clearing a block never reclaims interior presence bits; and where
    // the level above the leaves still falls inside the alignment
    // padding, even the final bit stays set once marked.
    let mut tree = Tree::new(8);

    // (7, 7, 7): its last path byte's child offset lands beyond the
    // 256-byte buffer, so the final bit carries the real state and can
    // be cleared again.
    tree.set_block_state(Point3D::new(7, 7, 7), true, SearchParameter::Root);
    assert!(tree.get_block_state(Point3D::new(7, 7, 7), SearchParameter::Root));
    tree.set_block_state(Point3D::new(7, 7, 7), false, SearchParameter::Root);
    assert!(!tree.get_block_state(Point3D::new(7, 7, 7), SearchParameter::Root));
    // The ancestors stay marked.
    let raw = tree.raw_data();
    assert_eq!(raw[0] & 0x80, 0x80);
    assert_eq!(raw[8] & 0x80, 0x80);

    // (0, 0, 0): its last path byte's child offset (73) still lies in
    // the aligned buffer, so the descent only ORs the bit and clearing
    // has no effect.
    tree.set_block_state(Point3D::new(0, 0, 0), true, SearchParameter::Root);
    tree.set_block_state(Point3D::new(0, 0, 0), false, SearchParameter::Root);
    assert!(tree.get_block_state(Point3D::new(0, 0, 0), SearchParameter::Root));
}

#[test]
fn custom_search_resumes_mid_descent() {
    // Resume the descent for (0, 0, 0) in a domain of side 8 one level
    // down: at its ancestor cell of extent 4 and that level's offset 1.
    let mut via_custom = Tree::new(8);
    let cell = Cell::new(Point3D::new(0, 0, 0), Point3D::new(4, 4, 4));
    via_custom.set_block_state(
        Point3D::new(0, 0, 0),
        true,
        SearchParameter::Custom { cell, offset: 1 },
    );
    // Only the two lower path bytes are written; the root byte is not.
    let raw = via_custom.raw_data();
    assert_eq!(raw[0], 0);
    assert_eq!(raw[1], 1);
    assert_eq!(raw[9], 1);
    // Queried with the same resumed search, the block reads occupied.
    assert!(via_custom.get_block_state(
        Point3D::new(0, 0, 0),
        SearchParameter::Custom { cell, offset: 1 },
    ));
    // Queried from the root it does not: the root bit was never marked.
    assert!(!via_custom.get_block_state(Point3D::new(0, 0, 0), SearchParameter::Root));
}

#[test]
fn get_size_reports_side() {
    let tree = Tree::new(64);
    assert_eq!(tree.get_size(), 64);
    assert_eq!(tree.raw_data().len(), Tree::estimated_size_aligned(64, 256));
}

#[test]
fn unit_domain_reads_occupied_by_convention() {
    // A domain of side 1 has depth 0: no interior byte is allocated and
    // the descent terminates immediately, so the single block reads
    // occupied on a freshly built tree. This is the terminal convention
    // of the traversal, not a stored bit.
    let mut tree = Tree::new(1);
    assert_eq!(tree.raw_data().len(), 0);
    assert!(tree.get_block_state(Point3D::new(0, 0, 0), SearchParameter::Root));
}
