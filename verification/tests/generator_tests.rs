use ecgen::{
    brgc_gen, comb, ehr_gen, emk_comb_gen, factorial, set_bipart_gen, set_partition_gen, sjt_gen,
    stirling2nd, stirling2nd2,
};

#[test]
fn gray_code_test_brgc() {
    let mut cnt = 1;
    for _n in brgc_gen(3) {
        cnt += 1;
    }
    assert_eq!(cnt, 8);
}

#[test]
fn lib_test_brgc() {
    let mut cnt = 1;
    for _n in brgc_gen(3) {
        cnt += 1;
    }
    assert_eq!(cnt, 8);
}

#[test]
fn lib_test_sjt() {
    let mut cnt = 0;
    for _n in sjt_gen(4) {
        cnt += 1;
    }
    assert_eq!(cnt, factorial(4));
}

#[test]
fn lib_test_ehr() {
    let mut cnt = 1;
    for _n in ehr_gen(4) {
        cnt += 1;
    }
    assert_eq!(cnt, factorial(4));
}

#[test]
fn lib_test_emk_even_odd() {
    let mut cnt = 1;
    for (_x, _y) in emk_comb_gen(16, 5) {
        cnt += 1;
    }
    assert_eq!(cnt, comb(16, 5));
}

#[test]
fn lib_test_emk_odd_odd() {
    let mut cnt = 1;
    for (_x, _y) in emk_comb_gen(15, 5) {
        cnt += 1;
    }
    assert_eq!(cnt, comb(15, 5));
}

#[test]
fn lib_test_emk_even_even() {
    let mut cnt = 1;
    for (_x, _y) in emk_comb_gen(16, 6) {
        cnt += 1;
    }
    assert_eq!(cnt, comb(16, 6));
}

#[test]
fn lib_test_emk_odd_even() {
    let mut cnt = 1;
    for (_x, _y) in emk_comb_gen(15, 6) {
        cnt += 1;
    }
    assert_eq!(cnt, comb(15, 6));
}

#[test]
fn lib_test_set_partition_special() {
    const N: usize = 2;
    const K: usize = 2;

    let mut cnt = 1;
    for (_x, _y) in set_partition_gen(N, K) {
        cnt += 1;
    }
    assert_eq!(cnt, stirling2nd(2, 2));
}

#[test]
fn lib_test_set_bipart_even() {
    const N: usize = 5;

    // 0 0 0 0 0 1
    let mut b = [0; N + 1];
    b[N] = 1; // b[0] is unused
    let mut cnt = 1;
    for x in set_bipart_gen(N) {
        let old = b[x];
        b[x] = 1 - b[x];
        println!("Move {} from Block {} to Block {}", x, old, b[x]);
        cnt += 1;
    }
    assert_eq!(cnt, stirling2nd2(5));
}

#[test]
fn lib_test_set_bipart_special() {
    const N: usize = 2;

    let mut cnt = 1;
    for _x in set_bipart_gen(N) {
        cnt += 1;
    }
    assert_eq!(cnt, stirling2nd2(N));
}

#[test]
fn perm_test_sjt() {
    let mut cnt = 0;
    for _n in sjt_gen(4) {
        cnt += 1;
    }
    assert_eq!(cnt, factorial(4));
}

#[test]
fn perm_test_ehr() {
    let mut cnt = 1;
    for _n in ehr_gen(4) {
        cnt += 1;
    }
    assert_eq!(cnt, factorial(4));
}

#[test]
fn combin_test_emk_even_odd() {
    let mut cnt = 1;
    for (_x, _y) in emk_comb_gen(16, 5) {
        cnt += 1;
    }
    assert_eq!(cnt, comb(16, 5));
}

#[test]
fn combin_test_emk_odd_odd() {
    let mut cnt = 1;
    for (_x, _y) in emk_comb_gen(15, 5) {
        cnt += 1;
    }
    assert_eq!(cnt, comb(15, 5));
}

#[test]
fn combin_test_emk_even_even() {
    let mut cnt = 1;
    for (_x, _y) in emk_comb_gen(16, 6) {
        cnt += 1;
    }
    assert_eq!(cnt, comb(16, 6));
}

#[test]
fn combin_test_emk_odd_even() {
    let mut cnt = 1;
    for (_x, _y) in emk_comb_gen(15, 6) {
        cnt += 1;
    }
    assert_eq!(cnt, comb(15, 6));
}

#[test]
fn test_set_bipart_odd() {
    const N: usize = 11;

    // 0 0 0 0 0 1
    let mut b = [0; N + 1];
    b[N] = 1; // b[0] is unused
    let mut cnt = 1;
    for x in set_bipart_gen(N) {
        let old = b[x];
        b[x] = 1 - b[x];
        println!("Move {} from Block {} to Block {}", x, old, b[x]);
        cnt += 1;
    }
    assert_eq!(cnt, stirling2nd2(N));
}

#[test]
fn set_bipart_test_set_bipart_even() {
    const N: usize = 10;

    // 0 0 0 0 0 1
    let mut b = [0; N + 1];
    b[N] = 1; // b[0] is unused
    let mut cnt = 1;
    for x in set_bipart_gen(N) {
        let old = b[x];
        b[x] = 1 - b[x];
        println!("Move {} from Block {} to Block {}", x, old, b[x]);
        cnt += 1;
    }
    assert_eq!(cnt, stirling2nd2(N));
}

#[test]
fn set_bipart_test_set_bipart_special() {
    const N: usize = 2;

    let mut cnt = 1;
    for _x in set_bipart_gen(N) {
        cnt += 1;
    }
    assert_eq!(cnt, stirling2nd2(N));
}

#[test]
fn test_set_partition_odd_odd() {
    const N: usize = 11;
    const K: usize = 5;

    // 0 0 0 1 2
    let mut b = [0; N + 1];
    let offset = N - K + 1;
    for i in 1..K {
        b[offset + i] = i;
    }
    let mut cnt = 1;
    for (x, y) in set_partition_gen(N, K) {
        let old = b[x];
        b[x] = y;
        println!("Move {x} from Block {old} to Block {y}");
        cnt += 1;
    }
    assert_eq!(cnt, stirling2nd(N, K));
}

#[test]
fn test_set_partition_even_odd() {
    const N: usize = 10;
    const K: usize = 5;

    // 0 0 0 1 2
    let mut b = [0; N + 1];
    let offset = N - K + 1;
    for i in 1..K {
        b[offset + i] = i;
    }
    let mut cnt = 1;
    for (x, y) in set_partition_gen(N, K) {
        let old = b[x];
        b[x] = y;
        println!("Move {x} from Block {old} to Block {y}");
        cnt += 1;
    }
    assert_eq!(cnt, stirling2nd(N, K));
}

#[test]
fn test_set_partition_odd_even() {
    const N: usize = 11;
    const K: usize = 6;

    // 0 0 0 1 2
    let mut b = [0; N + 1];
    let offset = N - K + 1;
    for i in 1..K {
        b[offset + i] = i;
    }
    let mut cnt = 1;
    for (x, y) in set_partition_gen(N, K) {
        let old = b[x];
        b[x] = y;
        println!("Move {x} from Block {old} to Block {y}");
        cnt += 1;
    }
    assert_eq!(cnt, stirling2nd(N, K));
}

#[test]
fn test_set_partition_even_even() {
    const N: usize = 10;
    const K: usize = 6;

    // 0 0 0 1 2
    let mut b = [0; N + 1];
    let offset = N - K + 1;
    for i in 1..K {
        b[offset + i] = i;
    }
    let mut cnt = 1;
    for (x, y) in set_partition_gen(N, K) {
        let old = b[x];
        b[x] = y;
        println!("Move {x} from Block {old} to Block {y}");
        cnt += 1;
    }
    assert_eq!(cnt, stirling2nd(N, K));
}

#[test]
fn set_partition_test_set_partition_special() {
    const N: usize = 6;
    const K: usize = 6;

    let mut cnt = 1;
    for (_x, _y) in set_partition_gen(N, K) {
        cnt += 1;
    }
    assert_eq!(cnt, stirling2nd(N, K));
}
