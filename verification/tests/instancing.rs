use ez_core::instancing::{
    array_copies, grid_cells, jitter_seed, jitter_shake_seed, mirror_copies, radial_count,
    random_count, random_seed, symmetry_count, RandomPlacement,
};

#[test]
fn grid_cells_run_along_x_then_z_then_y() {
    assert_eq!(
        grid_cells((2, 1, 3)),
        vec![(0, 0, 0), (1, 0, 0), (0, 0, 1), (1, 0, 1), (0, 0, 2), (1, 0, 2)]
    );
    assert_eq!(grid_cells((0, 100, 1)).len(), 64);
    assert_eq!(grid_cells((2, 2, 1))[3], (1, 1, 0));
}

#[test]
fn copy_counts_are_clamped() {
    assert_eq!(radial_count(0), 1);
    assert_eq!(radial_count(5000), 1024);
    assert_eq!(radial_count(12), 12);
    assert_eq!(symmetry_count(0), 1);
    assert_eq!(symmetry_count(65), 64);
    assert_eq!(random_count(50_000), 20_000);
    assert_eq!(random_count(7), 7);
}

#[test]
fn random_placements_have_their_own_seeds() {
    assert_eq!(random_seed(RandomPlacement::Scatter, 3), 3 * 7919 + 17);
    assert_eq!(random_seed(RandomPlacement::Orbit, 3), 3 * 104_729 + 3);
    assert_eq!(random_seed(RandomPlacement::Surface, 3), 3 * 48_271 + 11);
    assert_eq!(random_seed(RandomPlacement::Terrain, u32::MAX), u32::MAX as u64 * 15_485_863 + 5);
}

#[test]
fn modifier_copies_and_seeds() {
    assert_eq!(array_copies(2, 3), vec![(0, 0), (0, 1), (0, 2), (1, 0), (1, 1), (1, 2)]);
    assert_eq!(array_copies(0, 2), vec![(0, 0), (0, 1)]);
    assert_eq!(array_copies(100, 1).len(), 64);
    assert_eq!(mirror_copies(2), vec![(false, 0), (false, 1), (true, 0), (true, 1)]);
    assert_eq!(jitter_shake_seed(5, 2), 5 * 31 + 2 * 7919 + 1);
    assert_eq!(jitter_shake_seed(u32::MAX, 0), u32::MAX.wrapping_mul(31).wrapping_add(1));
    assert_eq!(jitter_seed(1, 0), (1u64 << 20) ^ 17);
}
