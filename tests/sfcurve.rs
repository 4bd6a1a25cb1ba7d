use scoc::sfcurve::{
    hilbert_to_xy, hilbert_to_zxy, spiral_to_xy, xy_to_hilbert, xy_to_spiral, xy_to_zorder,
    zorder_to_xy, zxy_to_hilbert,
};

#[test]
fn roundtrip_xy() {
    assert_eq!(xy_to_hilbert(0, 0, 0), 0);
    assert_eq!(xy_to_hilbert(1, 0, 0), 0);
    assert_eq!(xy_to_hilbert(1, 0, 1), 1);
    assert_eq!(xy_to_hilbert(1, 1, 1), 2);
    assert_eq!(xy_to_hilbert(1, 1, 0), 3);
    assert_eq!(xy_to_hilbert(2, 0, 2), 4);

    assert_eq!(hilbert_to_xy(1, xy_to_hilbert(1, 0, 0)), (0, 0));
    assert_eq!(hilbert_to_xy(1, xy_to_hilbert(1, 0, 1)), (0, 1));
    assert_eq!(hilbert_to_xy(1, xy_to_hilbert(1, 1, 0)), (1, 0));
    assert_eq!(hilbert_to_xy(2, xy_to_hilbert(2, 0, 2)), (0, 2));
}

#[test]
fn roundtrip_xyz() {
    let fixture = vec![
        // ((x, y, z), expected_tile_id)
        //
        // z = 0
        ((0, 0, 0), 0),
        // z = 1
        ((1, 0, 0), 1),
        ((1, 0, 1), 2),
        ((1, 1, 1), 3),
        ((1, 1, 0), 4),
        // z = 2
        ((2, 0, 1), 8),
        ((2, 1, 1), 7),
        ((2, 2, 0), 19),
        ((2, 3, 3), 15),
        ((2, 3, 2), 16),
        // z= 3
        ((3, 0, 0), 21),
        ((3, 7, 0), 84),
        // z = 4
        ((4, 0, 0), 85),
        ((4, 15, 0), 340),
        // z = 18 (tileId exceeds u32)
        ((18, 1, 1), 22906492247),
        // z = 31
        ((31, 100, 100), 1537228672809139573),
    ];

    for ((z, x, y), expected_tile_id) in fixture {
        let tile_id = zxy_to_hilbert(z, x, y);
        assert_eq!(tile_id, expected_tile_id);
        assert_eq!(hilbert_to_zxy(tile_id), (z, x, y));
    }
}

#[test]
fn hilbert_level_round_trip_small_grids() {
    for level in 0u8..=4 {
        let side = 1u32 << level;
        let mut seen = vec![false; (side * side) as usize];
        for x in 0..side {
            for y in 0..side {
                let d = xy_to_hilbert(level, x, y);
                assert!(d < (side as u64) * (side as u64));
                assert!(!seen[d as usize]);
                seen[d as usize] = true;
                assert_eq!(hilbert_to_xy(level, d), (x, y));
            }
        }
    }
}

#[test]
fn hilbert_level_round_trip_large_levels() {
    for &(level, x, y) in &[(31u8, 0x7FFF_FFFFu32, 0u32), (31, 12345, 0x7000_0001), (20, 999_999, 3)] {
        assert_eq!(hilbert_to_xy(level, xy_to_hilbert(level, x, y)), (x, y));
    }
}

#[test]
fn hilbert_level_boundaries() {
    // The first id of every level, and the last id of the level below it.
    for z in 1u8..=31 {
        let first = ((1u64 << (2 * z as u32)) - 1) / 3;
        assert_eq!(zxy_to_hilbert(z, 0, 0), first);
        assert_eq!(hilbert_to_zxy(first).0, z);
        assert_eq!(hilbert_to_zxy(first - 1).0, z - 1);
        let (lz, lx, ly) = hilbert_to_zxy(first - 1);
        assert_eq!(zxy_to_hilbert(lz, lx, ly), first - 1);
    }
}

#[test]
fn spiral_roundtrip() {
    assert_eq!(xy_to_spiral(0, 0), 0);
    assert_eq!(xy_to_spiral(1, 0), 1);
    assert_eq!(xy_to_spiral(0, 1), 2);
    assert_eq!(xy_to_spiral(-1, 0), 3);
    assert_eq!(xy_to_spiral(0, -1), 4);
    assert_eq!(xy_to_spiral(2, 0), 5);
    assert_eq!(xy_to_spiral(1, 1), 6);
    assert_eq!(xy_to_spiral(0, 2), 7);
    assert_eq!(xy_to_spiral(-1, 1), 8);
    assert_eq!(xy_to_spiral(-2, 0), 9);
    assert_eq!(xy_to_spiral(-1, -1), 10);
    assert_eq!(xy_to_spiral(0, -2), 11);
    assert_eq!(xy_to_spiral(1, -1), 12);
    assert_eq!(xy_to_spiral(3, 0), 13);
    assert_eq!(xy_to_spiral(2, 1), 14);

    assert_eq!(spiral_to_xy(xy_to_spiral(0, 0)), (0, 0));
    assert_eq!(spiral_to_xy(xy_to_spiral(1, 0)), (1, 0));
    assert_eq!(spiral_to_xy(xy_to_spiral(0, 1)), (0, 1));
    assert_eq!(spiral_to_xy(xy_to_spiral(-1, 0)), (-1, 0));
    assert_eq!(spiral_to_xy(xy_to_spiral(0, -1)), (0, -1));
    assert_eq!(spiral_to_xy(xy_to_spiral(2, 0)), (2, 0));
    assert_eq!(spiral_to_xy(xy_to_spiral(1, 1)), (1, 1));
    assert_eq!(spiral_to_xy(xy_to_spiral(0, 2)), (0, 2));
    assert_eq!(spiral_to_xy(xy_to_spiral(-1, 1)), (-1, 1));
    assert_eq!(spiral_to_xy(xy_to_spiral(-2, 0)), (-2, 0));
    assert_eq!(spiral_to_xy(xy_to_spiral(-1, -1)), (-1, -1));
    assert_eq!(spiral_to_xy(xy_to_spiral(0, -2)), (0, -2));
    assert_eq!(spiral_to_xy(xy_to_spiral(1, -1)), (1, -1));
    assert_eq!(spiral_to_xy(xy_to_spiral(3, 0)), (3, 0));
    assert_eq!(spiral_to_xy(xy_to_spiral(2, 1)), (2, 1));
}

#[test]
fn spiral_round_trip_grid_and_edges() {
    for x in -20i16..=20 {
        for y in -20i16..=20 {
            assert_eq!(spiral_to_xy(xy_to_spiral(x, y)), (x, y));
        }
    }
    for &(x, y) in &[(32767i16, 0i16), (0, -32767), (-16384, 16383), (100, -32667)] {
        assert_eq!(spiral_to_xy(xy_to_spiral(x, y)), (x, y));
    }
    // The last id of the largest ring.
    assert_eq!(xy_to_spiral(32766, -1), 2147418112);
    assert_eq!(spiral_to_xy(2147418112), (32766, -1));
}

#[test]
fn zorder_encoding() {
    assert_eq!(xy_to_zorder(7313, 3007), 31116203);
    assert_eq!(zorder_to_xy(31116203), (7313, 3007));

    assert_eq!(xy_to_zorder(0, 0), 0);
    assert_eq!(zorder_to_xy(0), (0, 0));

    assert_eq!(xy_to_zorder(0xFFFFFFFF, 0xFFFFFFFF), 0xFFFFFFFFFFFFFFFF);
    assert_eq!(zorder_to_xy(0xFFFFFFFFFFFFFFFF), (0xFFFFFFFF, 0xFFFFFFFF));
}

#[test]
fn zorder_single_bits() {
    assert_eq!(xy_to_zorder(1, 0), 1);
    assert_eq!(xy_to_zorder(0, 1), 2);
    assert_eq!(xy_to_zorder(0x8000_0000, 0), 1 << 62);
    assert_eq!(xy_to_zorder(0, 0x8000_0000), 1 << 63);
    for &(x, y) in &[(0xDEAD_BEEFu32, 0x1234_5678u32), (0xFFFF_FFFF, 0), (0, 0xFFFF_FFFF)] {
        assert_eq!(zorder_to_xy(xy_to_zorder(x, y)), (x, y));
    }
}
