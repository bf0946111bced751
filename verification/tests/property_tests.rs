use ecgen::{
    brgc_gen, comb, ehr_gen, emk_comb_gen, factorial, set_bipart_gen, set_partition_gen, sjt_gen,
    stirling2nd, stirling2nd2,
};
use std::collections::HashSet;

#[test]
fn brgc_exact_sequence_three_bits() {
    // The classic reflected construction over 3 bits.
    assert_eq!(brgc_gen(3), vec![0, 1, 0, 2, 0, 1, 0]);
}

#[test]
fn brgc_covers_all_vectors_once() {
    const N: usize = 3;
    let moves = brgc_gen(N);
    assert_eq!(moves.len(), 7);
    let mut bits = [false; N];
    let mut seen: HashSet<Vec<bool>> = HashSet::new();
    assert_eq!(bits, [false; N]);
    seen.insert(bits.to_vec());
    for i in moves {
        assert!(i < N);
        bits[i] = !bits[i];
        // a fresh configuration after every single-bit toggle
        assert!(seen.insert(bits.to_vec()));
    }
    assert_eq!(seen.len(), 8);
}

#[test]
fn brgc_degenerate_empty() {
    assert_eq!(brgc_gen(0).len(), 0);
    assert_eq!(brgc_gen(1).len(), 1);
}

#[test]
fn sjt_visits_all_permutations_and_closes_cycle() {
    let mut perm = [10, 20, 30, 40];
    let start = perm;
    let moves = sjt_gen(4);
    assert_eq!(moves.len(), 24);
    let mut seen: HashSet<Vec<i32>> = HashSet::new();
    let mut cnt = 0;
    for n in &moves {
        seen.insert(perm.to_vec());
        cnt += 1;
        perm.swap(*n, *n + 1);
    }
    assert_eq!(cnt, 24);
    assert_eq!(seen.len(), 24);
    // Hamiltonian cycle: the walk returns to the starting arrangement.
    assert_eq!(perm, start);
}

#[test]
fn sjt_base_case_null_move() {
    // the documented double emission of position 0 for two elements
    assert_eq!(sjt_gen(2), vec![0, 0]);
    assert_eq!(sjt_gen(0).len(), 0);
    assert_eq!(sjt_gen(1).len(), 0);
}

#[test]
fn ehr_visits_all_permutations() {
    let mut perm = [10, 20, 30, 40];
    let moves = ehr_gen(4);
    assert_eq!(moves.len(), factorial(4) - 1);
    let mut seen: HashSet<Vec<i32>> = HashSet::new();
    seen.insert(perm.to_vec());
    for n in moves {
        assert!(1 <= n && n < 4);
        perm.swap(0, n);
        assert!(seen.insert(perm.to_vec()));
    }
    assert_eq!(seen.len(), 24);
}

#[test]
fn ehr_final_arrangement() {
    let mut perm = ["w", "x", "y", "z"];
    for n in ehr_gen(perm.len()) {
        perm.swap(0, n);
    }
    assert_eq!(perm, ["z", "x", "y", "w"]);
}

#[test]
fn emk_covers_all_subsets_once_by_single_swaps() {
    const N: usize = 6;
    const K: usize = 3;
    let moves = emk_comb_gen(N, K);
    assert_eq!(moves.len(), 19);
    let mut v = [0u8; N];
    for e in v.iter_mut().take(K) {
        *e = 1;
    }
    let mut seen: HashSet<Vec<u8>> = HashSet::new();
    seen.insert(v.to_vec());
    for (i, j) in moves {
        assert!(i < N && j < N && i != j);
        // exactly one of the two touched entries holds a one: a single-element
        // change of the subset
        assert_eq!(v[i] + v[j], 1);
        v.swap(i, j);
        assert!(seen.insert(v.to_vec()));
    }
    assert_eq!(seen.len(), comb(N, K));
}

#[test]
fn emk_degenerate_empty() {
    assert_eq!(emk_comb_gen(4, 0).len(), 0);
    assert_eq!(emk_comb_gen(4, 4).len(), 0);
    assert_eq!(emk_comb_gen(4, 5).len(), 0);
}

#[test]
fn emk_single_element_walk() {
    assert_eq!(emk_comb_gen(4, 1), vec![(0, 1), (1, 2), (2, 3)]);
}

#[test]
fn set_partition_covers_all_rg_strings_once() {
    const N: usize = 5;
    const K: usize = 3;
    let moves = set_partition_gen(N, K);
    assert_eq!(moves.len(), 24);
    let mut b = [0usize; N + 1];
    let offset = N - K + 1;
    for i in 1..K {
        b[offset + i] = i;
    }
    let mut seen: HashSet<Vec<usize>> = HashSet::new();
    seen.insert(b[1..].to_vec());
    for (x, y) in moves {
        assert!(1 <= x && x <= N);
        assert!(y < K);
        // a real reassignment: the element leaves its current block
        assert_ne!(b[x], y);
        b[x] = y;
        assert!(seen.insert(b[1..].to_vec()));
    }
    assert_eq!(seen.len(), stirling2nd(N, K));
    // every configuration visited is a restricted growth string using K blocks
    for s in &seen {
        let mut max_so_far = 0;
        for (idx, &blk) in s.iter().enumerate() {
            if idx == 0 {
                assert_eq!(blk, 0);
            } else {
                assert!(blk <= max_so_far + 1);
            }
            if blk > max_so_far {
                max_so_far = blk;
            }
        }
        assert_eq!(max_so_far, K - 1);
    }
}

#[test]
fn set_partition_degenerate_empty() {
    assert_eq!(set_partition_gen(4, 4).len(), 0);
    assert_eq!(set_partition_gen(4, 1).len(), 0);
    assert_eq!(set_partition_gen(4, 0).len(), 0);
    assert_eq!(set_partition_gen(4, 5).len(), 0);
}

#[test]
fn set_bipart_covers_all_bipartitions_once() {
    const N: usize = 5;
    let moves = set_bipart_gen(N);
    assert_eq!(moves.len(), 14);
    let mut b = [0usize; N + 1];
    b[N] = 1;
    let mut seen: HashSet<Vec<usize>> = HashSet::new();
    seen.insert(b[1..].to_vec());
    for x in moves {
        assert!(2 <= x && x <= N);
        b[x] = 1 - b[x];
        assert!(seen.insert(b[1..].to_vec()));
    }
    assert_eq!(seen.len(), stirling2nd2(N));
    // element 1 stays in block 0 and the second block is never empty
    for s in &seen {
        assert_eq!(s[0], 0);
        assert!(s.iter().any(|&blk| blk == 1));
    }
}

#[test]
fn generators_are_deterministic() {
    assert_eq!(brgc_gen(4), brgc_gen(4));
    assert_eq!(sjt_gen(5), sjt_gen(5));
    assert_eq!(ehr_gen(5), ehr_gen(5));
    assert_eq!(emk_comb_gen(7, 3), emk_comb_gen(7, 3));
    assert_eq!(set_partition_gen(6, 3), set_partition_gen(6, 3));
    assert_eq!(set_bipart_gen(6), set_bipart_gen(6));
}

#[test]
fn move_counts_match_oracles() {
    assert_eq!(brgc_gen(4).len(), 15);
    assert_eq!(sjt_gen(5).len(), factorial(5));
    assert_eq!(ehr_gen(5).len(), factorial(5) - 1);
    assert_eq!(emk_comb_gen(8, 4).len(), comb(8, 4) - 1);
    assert_eq!(emk_comb_gen(7, 1).len(), 6);
    assert_eq!(set_partition_gen(7, 4).len(), stirling2nd(7, 4) - 1);
    assert_eq!(set_bipart_gen(7).len(), stirling2nd2(7) - 1);
}
