use cuda_device::attention::{
    copy_row, item, kv_tiles, load_tile, load_tile_part, naive_launch, query_row, tiled_launch, Lcg,
    BC, BR, D, SCORES, TILE,
};

#[test]
fn tile_sizes() {
    assert_eq!(BR * D, TILE);
    assert_eq!(BC * D, TILE);
    assert_eq!(BR * BC, SCORES);
    assert_eq!(TILE, 2048);
    assert_eq!(SCORES, 1024);
    assert_eq!(4 * (4 * TILE + SCORES), 36 * 1024);
}

#[test]
fn launches() {
    let c = tiled_launch(1024);
    assert_eq!(c.grid_dim, (32, 1, 1));
    assert_eq!(c.block_dim, (32, 1, 1));
    assert_eq!(c.shared_mem_bytes, 0);
    assert_eq!(tiled_launch(0).grid_dim, (0, 1, 1));
    let c = naive_launch(1024);
    assert_eq!(c.grid_dim, (1024, 1, 1));
    assert_eq!(c.block_dim, (64, 1, 1));
}

#[test]
fn every_row_has_one_owner() {
    let n = 96;
    let mut owners = vec![0; n];
    for tile in 0..n / BR {
        for tid in 0..BR {
            owners[query_row(tile, tid, n).unwrap()] += 1;
        }
    }
    assert_eq!(owners, vec![1; n]);
    assert_eq!(query_row(3, 0, n), None);
    assert_eq!(query_row(2, 31, n), Some(95));
    assert_eq!(kv_tiles(n), 3);
    assert_eq!(kv_tiles(31), 0);
}

#[test]
fn copy_row_moves_one_row() {
    let src: Vec<usize> = (0..3 * D).collect();
    let mut dst = vec![1000usize; 2 * D];
    copy_row(&mut dst, 1, &src, 2);
    assert_eq!(dst[..D], vec![1000; D][..]);
    assert_eq!(dst[D..], src[2 * D..]);
    assert_eq!(item(2, 5), 133);
}

#[test]
fn threads_load_a_tile_together() {
    let src: Vec<u32> = (0..3 * TILE as u32).collect();
    let mut tile = vec![u32::MAX; TILE];
    load_tile_part(&mut tile, &src, BC, 5);
    for (i, x) in tile.iter().enumerate() {
        let expected = if i % BR == 5 { (TILE + i) as u32 } else { u32::MAX };
        assert_eq!(*x, expected);
    }
    load_tile(&mut tile, &src, 2);
    assert_eq!(tile[..], src[2 * TILE..]);
}

#[test]
fn tiles_cover_all_items_once() {
    let n = 64;
    let src: Vec<usize> = (0..n * D).collect();
    let mut seen = Vec::new();
    for j in 0..kv_tiles(n) {
        let mut tile = vec![0usize; TILE];
        load_tile(&mut tile, &src, j);
        seen.extend(tile);
    }
    assert_eq!(seen, src);
}

#[test]
fn generator_is_reproducible() {
    let mut lcg = Lcg { seed: 0xdeadbeef };
    let mut seed: u64 = 0xdeadbeef;
    for _ in 0..100 {
        seed = seed.wrapping_mul(6364136223846793005).wrapping_add(1442695040888963407);
        assert_eq!(lcg.next_bits(), (seed >> 33) as i32);
        assert_eq!(lcg.seed, seed);
    }
    let mut zero = Lcg { seed: 0 };
    assert_eq!(zero.next_bits(), 167951807);
    assert_eq!(zero.seed, 1442695040888963407);
}
