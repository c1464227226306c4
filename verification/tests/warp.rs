use cuda_device::warp::{
    ballot, compact_rank, lanemask_lt, lanemask_lt_values, lanemask_lt_values_ok, popcount,
    prefix_counts, warp_compact_rank,
};

#[test]
fn lanemask_lt_is_the_lanes_before() {
    assert_eq!(lanemask_lt(0), 0);
    assert_eq!(lanemask_lt(1), 1);
    assert_eq!(lanemask_lt(5), 0x1f);
    assert_eq!(lanemask_lt(31), 0x7fff_ffff);
}

#[test]
fn lanemask_lt_readout_of_all_lanes() {
    let out = lanemask_lt_values(256);
    assert_eq!(out.len(), 256);
    for (i, v) in out.iter().enumerate() {
        assert_eq!(*v, (1u32 << (i % 32)) - 1);
    }
    assert!(lanemask_lt_values_ok(&out));
    let mut wrong = out.clone();
    wrong[200] = 0;
    assert!(!lanemask_lt_values_ok(&wrong));
    assert!(lanemask_lt_values_ok(&[]));
}

#[test]
fn ballot_sets_the_bits_of_the_predicates() {
    let mut keep = vec![false; 32];
    assert_eq!(ballot(&keep), 0);
    keep[0] = true;
    keep[4] = true;
    keep[31] = true;
    assert_eq!(ballot(&keep), 0x8000_0011);
    assert_eq!(ballot(&[true; 32]), 0xffff_ffff);
}

#[test]
fn popcount_counts_ones() {
    for x in [0u32, 1, 0x8000_0000, 0xdead_beef, 0xffff_ffff] {
        assert_eq!(popcount(x), x.count_ones());
    }
}

#[test]
fn rank_counts_the_kept_lanes_before() {
    assert_eq!(compact_rank(0b10110, 0), 0);
    assert_eq!(compact_rank(0b10110, 2), 1);
    assert_eq!(compact_rank(0b10110, 5), 3);
    assert_eq!(compact_rank(0xffff_ffff, 31), 31);
}

#[test]
fn ranks_match_the_prefix_counts() {
    let n = 256;
    let data: Vec<u32> = (0..n).map(|i| if i % 3 == 0 { 1 } else { 0 }).collect();
    let mut expected = vec![0u32; n];
    for w in 0..n / 32 {
        let mut acc = 0u32;
        for lane in 0..32 {
            let idx = w * 32 + lane;
            expected[idx] = acc;
            if data[idx] != 0 {
                acc += 1;
            }
        }
    }
    let ranks = warp_compact_rank(&data, n);
    assert_eq!(ranks, expected);
    assert_eq!(prefix_counts(&data), expected);
    assert_eq!(&ranks[..8], &[0, 1, 1, 1, 2, 2, 2, 3]);
}

#[test]
fn partial_warp_and_empty_input() {
    let data: Vec<u32> = vec![5; 40];
    let expected: Vec<u32> = (0..40).map(|i| i % 32).collect();
    assert_eq!(warp_compact_rank(&data, 40), expected);
    assert_eq!(warp_compact_rank(&data, 33), expected[..33].to_vec());
    assert_eq!(prefix_counts(&data), expected);
    assert_eq!(warp_compact_rank(&data, 0), Vec::<u32>::new());
    assert_eq!(prefix_counts(&[]), Vec::<u32>::new());
}

#[test]
fn ranks_compact_a_warp() {
    let data: Vec<u32> = (0..32).map(|i| if i % 5 == 2 { i + 100 } else { 0 }).collect();
    let ranks = warp_compact_rank(&data, 32);
    let compacted: Vec<u32> = data.iter().copied().filter(|x| *x != 0).collect();
    for i in 0..32 {
        if data[i] != 0 {
            assert_eq!(compacted[ranks[i] as usize], data[i]);
        }
    }
    assert_eq!(compacted, vec![102, 107, 112, 117, 122, 127]);
}
