//! Set partition generator: counting oracle and reversing-sublist move stream.

use vstd::prelude::*;

verus! {

/// The object count used by the set partition generator: the Stirling number
/// of the second kind on `1 < k < n`, with degenerate parameters (`k <= 1` or
/// `k >= n`) standing for a single trivial object.
pub open spec fn stirling(n: nat, k: nat) -> nat
    decreases n,
{
    if k <= 1 || k >= n {
        1
    } else {
        stirling((n - 1) as nat, (k - 1) as nat) + k * stirling((n - 1) as nat, k)
    }
}

/// The number of partitions of an `n`-set into `k` nonempty blocks, with
/// degenerate parameters counted as a single trivial object.
pub fn stirling2nd(n: usize, k: usize) -> (r: usize)
    requires
        stirling(n as nat, k as nat) <= usize::MAX,
    ensures
        r as nat == stirling(n as nat, k as nat),
{
    if k >= n || k <= 1 {
        1
    } else {
        stirling2nd_recur(n, k)
    }
}

fn stirling2nd_recur(n: usize, k: usize) -> (r: usize)
    requires
        1 < k < n,
        stirling(n as nat, k as nat) <= usize::MAX,
    ensures
        r as nat == stirling(n as nat, k as nat),
    decreases n,
{
    proof {
        let s1 = stirling((n - 1) as nat, (k - 1) as nat);
        let s2 = stirling((n - 1) as nat, k as nat);
        assert(stirling(n as nat, k as nat) == s1 + k * s2);
        assert(s2 <= k as nat * s2) by (nonlinear_arith)
            requires
                k >= 1,
        ;
    }
    let n1 = n - 1;
    let a = if k == 2 {
        1
    } else {
        stirling2nd_recur(n1, k - 1)
    };
    let b = if k == n1 {
        1
    } else {
        stirling2nd_recur(n1, k)
    };
    a + k * b
}

proof fn lemma_stirling_pos(n: nat, k: nat)
    ensures
        stirling(n, k) >= 1,
    decreases n,
{
    if !(k <= 1 || k >= n) {
        lemma_stirling_pos((n - 1) as nat, (k - 1) as nat);
        lemma_stirling_pos((n - 1) as nat, k);
    }
}

/// Descending run of paired connector moves without interposed sublists,
/// used when the recursion bottoms out: `(n, 2m-1), (n, 2m-2)` down to
/// `(n, 1), (n, 0)`.
pub open spec fn sp_desc_base(n: usize, m: usize) -> Seq<(usize, usize)>
    decreases m,
{
    if m == 0 {
        Seq::empty()
    } else {
        seq![(n, (2 * m - 1) as usize), (n, (2 * m - 2) as usize)] + sp_desc_base(
            n,
            (m - 1) as usize,
        )
    }
}

/// Ascending run of paired connector moves without interposed sublists:
/// `(n, 1), (n, 2)` up to `(n, 2m-1), (n, 2m)`.
pub open spec fn sp_asc_base(n: usize, m: usize) -> Seq<(usize, usize)>
    decreases m,
{
    if m == 0 {
        Seq::empty()
    } else {
        sp_asc_base(n, (m - 1) as usize) + seq![(n, (2 * m - 1) as usize), (n, (2 * m) as usize)]
    }
}

/// Descending run of `m` connector blocks: each block reassigns the largest
/// element `n` twice and replays the two `S(n-1,k,1)` sublists between the
/// reassignments, the sublist order selected by `neg_first`.
pub open spec fn sp_desc(n: usize, k: usize, m: usize, odd: bool, neg_first: bool) -> Seq<
    (usize, usize),
>
    decreases n, m, 2int,
{
    if m == 0 || n == 0 {
        Seq::empty()
    } else {
        let first = if odd {
            if neg_first {
                sp_neg1_odd((n - 1) as usize, k)
            } else {
                sp_gen1_odd((n - 1) as usize, k)
            }
        } else {
            if neg_first {
                sp_neg1_even((n - 1) as usize, k)
            } else {
                sp_gen1_even((n - 1) as usize, k)
            }
        };
        let second = if odd {
            if neg_first {
                sp_gen1_odd((n - 1) as usize, k)
            } else {
                sp_neg1_odd((n - 1) as usize, k)
            }
        } else {
            if neg_first {
                sp_gen1_even((n - 1) as usize, k)
            } else {
                sp_neg1_even((n - 1) as usize, k)
            }
        };
        seq![(n, (2 * m - 1) as usize)] + first + seq![(n, (2 * m - 2) as usize)] + second
            + sp_desc(n, k, (m - 1) as usize, odd, neg_first)
    }
}

/// Ascending run of `m` connector blocks, the mirror of `sp_desc`.
pub open spec fn sp_asc(n: usize, k: usize, m: usize, odd: bool, neg_first: bool) -> Seq<
    (usize, usize),
>
    decreases n, m, 2int,
{
    if m == 0 || n == 0 {
        Seq::empty()
    } else {
        let first = if odd {
            if neg_first {
                sp_neg1_odd((n - 1) as usize, k)
            } else {
                sp_gen1_odd((n - 1) as usize, k)
            }
        } else {
            if neg_first {
                sp_neg1_even((n - 1) as usize, k)
            } else {
                sp_gen1_even((n - 1) as usize, k)
            }
        };
        let second = if odd {
            if neg_first {
                sp_gen1_odd((n - 1) as usize, k)
            } else {
                sp_neg1_odd((n - 1) as usize, k)
            }
        } else {
            if neg_first {
                sp_gen1_even((n - 1) as usize, k)
            } else {
                sp_neg1_even((n - 1) as usize, k)
            }
        };
        sp_asc(n, k, (m - 1) as usize, odd, neg_first) + first + seq![(n, (2 * m - 1) as usize)]
            + second + seq![(n, (2 * m) as usize)]
    }
}

/// The `S(n,k,0)` list for even `k`: the top-level walk over all restricted
/// growth strings of `n` elements and `k` blocks, starting from
/// `0^(n-k) 0 1 .. k-1`.
pub open spec fn sp_gen0_even(n: usize, k: usize) -> Seq<(usize, usize)>
    decreases n, k, 0int,
{
    if !(2 <= k && k < n && k % 2 == 0) {
        Seq::empty()
    } else {
        (if k > 2 {
            sp_gen0_odd((n - 1) as usize, (k - 1) as usize)
        } else {
            Seq::empty()
        }) + seq![((n - 1) as usize, (k - 1) as usize)] + (if k < n - 1 {
            sp_gen1_even((n - 1) as usize, k) + seq![(n, (k - 2) as usize)] + sp_neg1_even(
                (n - 1) as usize,
                k,
            ) + sp_desc(n, k, ((k - 2) / 2) as usize, false, false)
        } else {
            seq![(n, (k - 2) as usize)] + sp_desc_base(n, ((k - 2) / 2) as usize)
        })
    }
}

/// The mirrored `S'(n,k,0)` list for even `k`.
pub open spec fn sp_neg0_even(n: usize, k: usize) -> Seq<(usize, usize)>
    decreases n, k, 0int,
{
    if !(2 <= k && k < n && k % 2 == 0) {
        Seq::empty()
    } else {
        (if k < n - 1 {
            sp_asc(n, k, ((k - 2) / 2) as usize, false, false) + sp_gen1_even((n - 1) as usize, k)
                + seq![(n, (k - 1) as usize)] + sp_neg1_even((n - 1) as usize, k)
        } else {
            sp_asc_base(n, ((k - 2) / 2) as usize) + seq![(n, (k - 1) as usize)]
        }) + seq![((n - 1) as usize, 0usize)] + (if k > 3 {
            sp_neg0_odd((n - 1) as usize, (k - 1) as usize)
        } else {
            Seq::empty()
        })
    }
}

/// The `S(n,k,1)` list for even `k`.
pub open spec fn sp_gen1_even(n: usize, k: usize) -> Seq<(usize, usize)>
    decreases n, k, 0int,
{
    if !(2 <= k && k < n && k % 2 == 0) {
        Seq::empty()
    } else {
        (if k > 3 {
            sp_gen1_odd((n - 1) as usize, (k - 1) as usize)
        } else {
            Seq::empty()
        }) + seq![(k, (k - 1) as usize)] + (if k < n - 1 {
            sp_neg1_even((n - 1) as usize, k) + seq![(n, (k - 2) as usize)] + sp_gen1_even(
                (n - 1) as usize,
                k,
            ) + sp_desc(n, k, ((k - 2) / 2) as usize, false, true)
        } else {
            seq![(n, (k - 2) as usize)] + sp_desc_base(n, ((k - 2) / 2) as usize)
        })
    }
}

/// The mirrored `S'(n,k,1)` list for even `k`.
pub open spec fn sp_neg1_even(n: usize, k: usize) -> Seq<(usize, usize)>
    decreases n, k, 0int,
{
    if !(2 <= k && k < n && k % 2 == 0) {
        Seq::empty()
    } else {
        (if k < n - 1 {
            sp_asc(n, k, ((k - 2) / 2) as usize, false, true) + sp_neg1_even((n - 1) as usize, k)
                + seq![(n, (k - 1) as usize)] + sp_gen1_even((n - 1) as usize, k)
        } else {
            sp_asc_base(n, ((k - 2) / 2) as usize) + seq![(n, (k - 1) as usize)]
        }) + seq![(k, 0usize)] + (if k > 3 {
            sp_neg1_odd((n - 1) as usize, (k - 1) as usize)
        } else {
            Seq::empty()
        })
    }
}

/// The `S(n,k,0)` list for odd `k`.
pub open spec fn sp_gen0_odd(n: usize, k: usize) -> Seq<(usize, usize)>
    decreases n, k, 0int,
{
    if !(3 <= k && k < n && k % 2 == 1) {
        Seq::empty()
    } else {
        sp_gen1_even((n - 1) as usize, (k - 1) as usize) + seq![(k, (k - 1) as usize)] + (if k < n
            - 1 {
            sp_neg1_odd((n - 1) as usize, k) + sp_desc(n, k, ((k - 1) / 2) as usize, true, false)
        } else {
            sp_desc_base(n, ((k - 1) / 2) as usize)
        })
    }
}

/// The mirrored `S'(n,k,0)` list for odd `k`.
pub open spec fn sp_neg0_odd(n: usize, k: usize) -> Seq<(usize, usize)>
    decreases n, k, 0int,
{
    if !(3 <= k && k < n && k % 2 == 1) {
        Seq::empty()
    } else {
        (if k < n - 1 {
            sp_asc(n, k, ((k - 1) / 2) as usize, true, false) + sp_gen1_odd((n - 1) as usize, k)
        } else {
            sp_asc_base(n, ((k - 1) / 2) as usize)
        }) + seq![(k, 0usize)] + sp_neg1_even((n - 1) as usize, (k - 1) as usize)
    }
}

/// The `S(n,k,1)` list for odd `k`.
pub open spec fn sp_gen1_odd(n: usize, k: usize) -> Seq<(usize, usize)>
    decreases n, k, 0int,
{
    if !(3 <= k && k < n && k % 2 == 1) {
        Seq::empty()
    } else {
        sp_gen0_even((n - 1) as usize, (k - 1) as usize) + seq![((n - 1) as usize, (k - 1) as usize)]
            + (if k < n - 1 {
            sp_gen1_odd((n - 1) as usize, k) + sp_desc(n, k, ((k - 1) / 2) as usize, true, true)
        } else {
            sp_desc_base(n, ((k - 1) / 2) as usize)
        })
    }
}

/// The mirrored `S'(n,k,1)` list for odd `k`.
pub open spec fn sp_neg1_odd(n: usize, k: usize) -> Seq<(usize, usize)>
    decreases n, k, 0int,
{
    if !(3 <= k && k < n && k % 2 == 1) {
        Seq::empty()
    } else {
        (if k < n - 1 {
            sp_asc(n, k, ((k - 1) / 2) as usize, true, true) + sp_neg1_odd((n - 1) as usize, k)
        } else {
            sp_asc_base(n, ((k - 1) / 2) as usize)
        }) + seq![((n - 1) as usize, 0usize)] + sp_neg0_even((n - 1) as usize, (k - 1) as usize)
    }
}

/// Every move `(x, y)` of the list reassigns an element `x` in `[2, n]` to a
/// block `y` below `k`.
pub open spec fn sp_bounded(s: Seq<(usize, usize)>, n: usize, k: usize) -> bool {
    forall|i: int| #![trigger s[i]] 0 <= i < s.len() ==> 2 <= s[i].0 <= n && s[i].1 < k
}

proof fn lemma_sp_bounded_concat(a: Seq<(usize, usize)>, b: Seq<(usize, usize)>, n: usize, k: usize)
    requires
        sp_bounded(a, n, k),
        sp_bounded(b, n, k),
    ensures
        sp_bounded(a + b, n, k),
{
    let s = a + b;
    assert forall|i: int| 0 <= i < s.len() implies 2 <= #[trigger] s[i].0 <= n && s[i].1 < k by {
        if i < a.len() {
            assert(s[i] == a[i]);
        } else {
            assert(s[i] == b[i - a.len()]);
        }
    }
}

proof fn lemma_sp_bounded_widen(s: Seq<(usize, usize)>, n1: usize, k1: usize, n2: usize, k2: usize)
    requires
        sp_bounded(s, n1, k1),
        n1 <= n2,
        k1 <= k2,
    ensures
        sp_bounded(s, n2, k2),
{
}

proof fn lemma_sp_desc_base_props(n: usize, m: usize)
    requires
        2 <= n,
        2 * m <= n,
    ensures
        sp_desc_base(n, m).len() == 2 * m,
        m >= 1 ==> sp_bounded(sp_desc_base(n, m), n, (2 * m) as usize),
    decreases m,
{
    if m >= 1 {
        lemma_sp_desc_base_props(n, (m - 1) as usize);
        let s = sp_desc_base(n, m);
        let a = seq![(n, (2 * m - 1) as usize), (n, (2 * m - 2) as usize)];
        let b = sp_desc_base(n, (m - 1) as usize);
        assert(s == a + b);
        if m >= 2 {
            lemma_sp_bounded_widen(b, n, (2 * (m - 1)) as usize, n, (2 * m) as usize);
        }
        assert(sp_bounded(a, n, (2 * m) as usize));
        lemma_sp_bounded_concat(a, b, n, (2 * m) as usize);
    }
}

proof fn lemma_sp_asc_base_props(n: usize, m: usize)
    requires
        2 <= n,
        2 * m < n,
    ensures
        sp_asc_base(n, m).len() == 2 * m,
        sp_bounded(sp_asc_base(n, m), n, (2 * m + 1) as usize),
    decreases m,
{
    if m >= 1 {
        lemma_sp_asc_base_props(n, (m - 1) as usize);
        let s = sp_asc_base(n, m);
        let a = sp_asc_base(n, (m - 1) as usize);
        let b = seq![(n, (2 * m - 1) as usize), (n, (2 * m) as usize)];
        assert(s == a + b);
        lemma_sp_bounded_widen(a, n, (2 * (m - 1) + 1) as usize, n, (2 * m + 1) as usize);
        assert(sp_bounded(b, n, (2 * m + 1) as usize));
        lemma_sp_bounded_concat(a, b, n, (2 * m + 1) as usize);
    }
}

#[verifier::loop_isolation(false)]
fn push_desc_base(r: &mut Vec<(usize, usize)>, n: usize, m: usize)
    requires
        2 * m <= n,
    ensures
        final(r)@ == old(r)@ + sp_desc_base(n, m),
{
    let ghost r0 = old(r)@;
    let mut t: usize = 0;
    proof {
        assert(r0 + sp_desc_base(n, m) =~= r@ + sp_desc_base(n, m));
    }
    while t < m
        invariant
            t <= m,
            r0 + sp_desc_base(n, m) == r@ + sp_desc_base(n, (m - t) as usize),
        decreases m - t,
    {
        let i: usize = 2 * (m - t) - 1;
        r.push((n, i));
        r.push((n, i - 1));
        proof {
            let rem = (m - t) as usize;
            let blk = seq![(n, (2 * rem - 1) as usize), (n, (2 * rem - 2) as usize)];
            assert(sp_desc_base(n, rem) == blk + sp_desc_base(n, (rem - 1) as usize));
            let rold = r@.subrange(0, r@.len() - 2);
            assert(rold.push((n, i)).push((n, (i - 1) as usize)) =~= r@);
            assert((rold + blk) + sp_desc_base(n, (rem - 1) as usize) =~= rold + (blk
                + sp_desc_base(n, (rem - 1) as usize)));
            assert(rold + blk =~= r@);
        }
        t = t + 1;
    }
    proof {
        assert(r@ + sp_desc_base(n, 0) =~= r@);
    }
}

#[verifier::loop_isolation(false)]
fn push_asc_base(r: &mut Vec<(usize, usize)>, n: usize, m: usize)
    requires
        2 * m < n,
    ensures
        final(r)@ == old(r)@ + sp_asc_base(n, m),
{
    let ghost r0 = old(r)@;
    let mut t: usize = 0;
    proof {
        assert(r@ + sp_asc_base(n, 0) =~= r@);
    }
    while t < m
        invariant
            t <= m,
            r@ == r0 + sp_asc_base(n, t),
        decreases m - t,
    {
        let i: usize = 2 * t + 1;
        r.push((n, i));
        r.push((n, i + 1));
        proof {
            let t1 = (t + 1) as usize;
            let blk = seq![(n, (2 * t1 - 1) as usize), (n, (2 * t1) as usize)];
            assert(sp_asc_base(n, t1) == sp_asc_base(n, t) + blk);
            assert(r0 + (sp_asc_base(n, t) + blk) =~= (r0 + sp_asc_base(n, t)) + blk);
            assert((r0 + sp_asc_base(n, t)).push((n, i)).push((n, (i + 1) as usize)) =~= (r0 + sp_asc_base(
                n,
                t,
            )) + blk);
        }
        t = t + 1;
    }
}

/// The full set-partition move list: empty on degenerate parameters, else the
/// parity-matched `S(n,k,0)` walk.
pub open spec fn sp_partition_seq(n: usize, k: usize) -> Seq<(usize, usize)> {
    if !(1 < k && k < n) {
        Seq::empty()
    } else if k % 2 == 0 {
        sp_gen0_even(n, k)
    } else {
        sp_gen0_odd(n, k)
    }
}

/// The `k < n - 1` tail of `S(n,k,0)` for even `k`: the two `S(n-1,k,1)`
/// sublists around the first reassignment of element `n`, then the descending
/// connector run.
#[verifier::loop_isolation(false)]
#[verifier::rlimit(100)]
fn gen0_even_tail(n: usize, k: usize) -> (r: Vec<(usize, usize)>)
    requires
        2 <= k,
        k < n - 1,
        k % 2 == 0,
    ensures
        r@ == sp_gen1_even((n - 1) as usize, k) + seq![(n, (k - 2) as usize)] + sp_neg1_even(
            (n - 1) as usize,
            k,
        ) + sp_desc(n, k, ((k - 2) / 2) as usize, false, false),
        r@.len() == k * stirling((n - 1) as nat, k as nat) - 1,
        sp_bounded(r@, n, k),
    decreases n, 0int,
{
    let ghost s2 = stirling((n - 1) as nat, k as nat);
    proof {
        lemma_stirling_pos((n - 1) as nat, k as nat);
        assert(s2 <= k * s2) by (nonlinear_arith)
            requires
                k >= 1,
                s2 >= 0,
        ;
    }
    let mut r: Vec<(usize, usize)> = Vec::new();
    let mut sub = gen1_even(n - 1, k);
    r.append(&mut sub);
    r.push((n, k - 2));
    let mut sub = neg1_even(n - 1, k);
    r.append(&mut sub);
    let m: usize = (k - 2) / 2;
    let ghost r0 = r@;
    let mut t: usize = 0;
    proof {
        assert((2 * 0) * s2 == 0) by (nonlinear_arith);
    }
    #[verifier::loop_isolation(true)]
    while t < m
        invariant
            2 <= k < n - 1,
            k % 2 == 0,
            m == (k - 2) / 2,
            s2 == stirling((n - 1) as nat, k as nat),
            t <= m,
            r0 + sp_desc(n, k, m, false, false) == r@ + sp_desc(
                n,
                k,
                (m - t) as usize,
                false,
                false,
            ),
            r@.len() == r0.len() + (2 * t) * s2,
            sp_bounded(r@, n, k),
        decreases m - t,
    {
        let i: usize = k - 3 - 2 * t;
        let ghost rpre = r@;
        r.push((n, i));
        let mut sub1 = gen1_even(n - 1, k);
        r.append(&mut sub1);
        r.push((n, i - 1));
        let mut sub2 = neg1_even(n - 1, k);
        r.append(&mut sub2);
        proof {
            let rem = (m - t) as usize;
            let g1 = sp_gen1_even((n - 1) as usize, k);
            let e1 = sp_neg1_even((n - 1) as usize, k);
            let blk = seq![(n, (2 * rem - 1) as usize)] + g1 + seq![
                (n, (2 * rem - 2) as usize),
            ] + e1;
            assert(sp_desc(n, k, rem, false, false) == blk + sp_desc(
                n,
                k,
                (rem - 1) as usize,
                false,
                false,
            ));
            assert(r@ =~= rpre + blk);
            assert((rpre + blk) + sp_desc(n, k, (rem - 1) as usize, false, false) =~= rpre + (
            blk + sp_desc(n, k, (rem - 1) as usize, false, false)));
            assert((2 * t) * s2 + 2 * s2 == (2 * (t + 1)) * s2) by (nonlinear_arith);
            lemma_sp_bounded_widen(g1, (n - 1) as usize, k, n, k);
            lemma_sp_bounded_widen(e1, (n - 1) as usize, k, n, k);
            lemma_sp_bounded_concat(seq![(n, (2 * rem - 1) as usize)], g1, n, k);
            lemma_sp_bounded_concat(
                seq![(n, (2 * rem - 1) as usize)] + g1,
                seq![(n, (2 * rem - 2) as usize)],
                n,
                k,
            );
            lemma_sp_bounded_concat(
                (seq![(n, (2 * rem - 1) as usize)] + g1) + seq![(n, (2 * rem - 2) as usize)],
                e1,
                n,
                k,
            );
            assert(sp_bounded(blk, n, k));
            lemma_sp_bounded_concat(rpre, blk, n, k);
        }
        t = t + 1;
    }
    proof {
        assert(r@ + sp_desc(n, k, 0, false, false) =~= r@);
        assert(2 * m == k - 2);
        assert(2 * s2 + (2 * m) * s2 == k * s2) by (nonlinear_arith)
            requires
                2 * m == k - 2,
        ;
    }
    r
}

/// `S(n,k,0)`, even `k`.
#[verifier::loop_isolation(false)]
#[verifier::rlimit(100)]
fn gen0_even(n: usize, k: usize) -> (r: Vec<(usize, usize)>)
    requires
        2 <= k < n,
        k % 2 == 0,
    ensures
        r@ == sp_gen0_even(n, k),
        r@.len() == stirling(n as nat, k as nat) - 1,
        sp_bounded(r@, n, k),
    decreases n, 1int,
{
    let ghost s1 = stirling((n - 1) as nat, (k - 1) as nat);
    let ghost s2 = stirling((n - 1) as nat, k as nat);
    proof {
        assert(stirling(n as nat, k as nat) == s1 + k * s2);
        lemma_stirling_pos((n - 1) as nat, k as nat);
        assert(s2 <= k * s2) by (nonlinear_arith)
            requires
                k >= 1,
                s2 >= 0,
        ;
    }
    let mut r: Vec<(usize, usize)> = Vec::new();
    if k > 2 {
        let mut sub = gen0_odd(n - 1, k - 1);
        r.append(&mut sub);
    }
    r.push((n - 1, k - 1));
    let m: usize = (k - 2) / 2;
    if k < n - 1 {
        let mut sub = gen0_even_tail(n, k);
        r.append(&mut sub);
    } else {
        r.push((n, k - 2));
        push_desc_base(&mut r, n, m);
        proof {
            lemma_sp_desc_base_props(n, m);
            assert(stirling((n - 1) as nat, k as nat) == 1);
            assert(2 * m == k - 2);
            assert(k as nat * 1 == k as nat) by (nonlinear_arith);
            if m >= 1 {
                lemma_sp_bounded_widen(sp_desc_base(n, m), n, (2 * m) as usize, n, k);
            }
        }
    }
    proof {
        let p1 = if k > 2 {
            sp_gen0_odd((n - 1) as usize, (k - 1) as usize)
        } else {
            Seq::<(usize, usize)>::empty()
        };
        let head = p1 + seq![((n - 1) as usize, (k - 1) as usize)];
        let tail = if k < n - 1 {
            sp_gen1_even((n - 1) as usize, k) + seq![(n, (k - 2) as usize)] + sp_neg1_even(
                (n - 1) as usize,
                k,
            ) + sp_desc(n, k, ((k - 2) / 2) as usize, false, false)
        } else {
            seq![(n, (k - 2) as usize)] + sp_desc_base(n, ((k - 2) / 2) as usize)
        };
        assert(sp_gen0_even(n, k) == head + tail);
        assert(r@ =~= head + tail);
    }
    r
}

/// `S'(n,k,0)`, even `k`.
#[verifier::loop_isolation(false)]
#[verifier::rlimit(100)]
fn neg0_even(n: usize, k: usize) -> (r: Vec<(usize, usize)>)
    requires
        2 <= k < n,
        k % 2 == 0,
    ensures
        r@ == sp_neg0_even(n, k),
        r@.len() == stirling(n as nat, k as nat) - 1,
        sp_bounded(r@, n, k),
    decreases n, 1int,
{
    let ghost s1 = stirling((n - 1) as nat, (k - 1) as nat);
    let ghost s2 = stirling((n - 1) as nat, k as nat);
    proof {
        assert(stirling(n as nat, k as nat) == s1 + k * s2);
    }
    let mut r: Vec<(usize, usize)> = Vec::new();
    let m: usize = (k - 2) / 2;
    if k < n - 1 {
        let ghost r0 = r@;
        let mut t: usize = 0;
        proof {
            assert(r0 + sp_asc(n, k, 0, false, false) =~= r@);
            assert((2 * 0) * s2 == 0) by (nonlinear_arith);
        }
        #[verifier::loop_isolation(true)]
        while t < m
            invariant
                2 <= k < n - 1,
                k % 2 == 0,
                m == (k - 2) / 2,
                s2 == stirling((n - 1) as nat, k as nat),
                t <= m,
                r@ == r0 + sp_asc(n, k, t, false, false),
                r@.len() == r0.len() + (2 * t) * s2,
                sp_bounded(r@, n, k),
            decreases m - t,
        {
            let i: usize = 2 * t + 1;
            let ghost rpre = r@;
            let mut sub1 = gen1_even(n - 1, k);
            r.append(&mut sub1);
            r.push((n, i));
            let mut sub2 = neg1_even(n - 1, k);
            r.append(&mut sub2);
            r.push((n, i + 1));
            proof {
                let t1 = (t + 1) as usize;
                let g1 = sp_gen1_even((n - 1) as usize, k);
                let e1 = sp_neg1_even((n - 1) as usize, k);
                let blk = g1 + seq![(n, (2 * t1 - 1) as usize)] + e1 + seq![
                    (n, (2 * t1) as usize),
                ];
                assert(sp_asc(n, k, t1, false, false) == sp_asc(n, k, t, false, false) + blk);
                assert(r@ =~= rpre + blk);
                assert(rpre + blk =~= r0 + (sp_asc(n, k, t, false, false) + blk));
                assert((2 * t) * s2 + 2 * s2 == (2 * (t + 1)) * s2) by (nonlinear_arith);
                lemma_sp_bounded_widen(g1, (n - 1) as usize, k, n, k);
                lemma_sp_bounded_widen(e1, (n - 1) as usize, k, n, k);
                lemma_sp_bounded_concat(g1, seq![(n, (2 * t1 - 1) as usize)], n, k);
                lemma_sp_bounded_concat(g1 + seq![(n, (2 * t1 - 1) as usize)], e1, n, k);
                lemma_sp_bounded_concat(
                    (g1 + seq![(n, (2 * t1 - 1) as usize)]) + e1,
                    seq![(n, (2 * t1) as usize)],
                    n,
                    k,
                );
                assert(sp_bounded(blk, n, k));
                lemma_sp_bounded_concat(rpre, blk, n, k);
            }
            t = t + 1;
        }
        let mut sub = gen1_even(n - 1, k);
        r.append(&mut sub);
        r.push((n, k - 1));
        let mut sub = neg1_even(n - 1, k);
        r.append(&mut sub);
        proof {
            assert(2 * m == k - 2);
            assert((2 * m) * s2 + 2 * s2 == k * s2) by (nonlinear_arith)
                requires
                    2 * m == k - 2,
            ;
        }
    } else {
        push_asc_base(&mut r, n, m);
        r.push((n, k - 1));
        proof {
            lemma_sp_asc_base_props(n, m);
            assert(stirling((n - 1) as nat, k as nat) == 1);
            assert(2 * m == k - 2);
            assert(k as nat * 1 == k as nat) by (nonlinear_arith);
            lemma_sp_bounded_widen(sp_asc_base(n, m), n, (2 * m + 1) as usize, n, k);
        }
    }
    r.push((n - 1, 0));
    if k > 3 {
        let mut sub = neg0_odd(n - 1, k - 1);
        r.append(&mut sub);
    }
    proof {
        assert(r@ =~= sp_neg0_even(n, k));
    }
    r
}

/// `S(n,k,1)`, even `k`.
#[verifier::loop_isolation(false)]
#[verifier::rlimit(100)]
fn gen1_even(n: usize, k: usize) -> (r: Vec<(usize, usize)>)
    requires
        2 <= k < n,
        k % 2 == 0,
    ensures
        r@ == sp_gen1_even(n, k),
        r@.len() == stirling(n as nat, k as nat) - 1,
        sp_bounded(r@, n, k),
    decreases n, 1int,
{
    let ghost s1 = stirling((n - 1) as nat, (k - 1) as nat);
    let ghost s2 = stirling((n - 1) as nat, k as nat);
    proof {
        assert(stirling(n as nat, k as nat) == s1 + k * s2);
    }
    let mut r: Vec<(usize, usize)> = Vec::new();
    if k > 3 {
        let mut sub = gen1_odd(n - 1, k - 1);
        r.append(&mut sub);
    }
    r.push((k, k - 1));
    let m: usize = (k - 2) / 2;
    if k < n - 1 {
        let mut sub = neg1_even(n - 1, k);
        r.append(&mut sub);
        r.push((n, k - 2));
        let mut sub = gen1_even(n - 1, k);
        r.append(&mut sub);
        let ghost r0 = r@;
        let mut t: usize = 0;
        proof {
            assert((2 * 0) * s2 == 0) by (nonlinear_arith);
        }
        #[verifier::loop_isolation(true)]
        while t < m
            invariant
                2 <= k < n - 1,
                k % 2 == 0,
                m == (k - 2) / 2,
                s2 == stirling((n - 1) as nat, k as nat),
                t <= m,
                r0 + sp_desc(n, k, m, false, true) == r@ + sp_desc(
                    n,
                    k,
                    (m - t) as usize,
                    false,
                    true,
                ),
                r@.len() == r0.len() + (2 * t) * s2,
                sp_bounded(r@, n, k),
            decreases m - t,
        {
            let i: usize = k - 3 - 2 * t;
            let ghost rpre = r@;
            r.push((n, i));
            let mut sub1 = neg1_even(n - 1, k);
            r.append(&mut sub1);
            r.push((n, i - 1));
            let mut sub2 = gen1_even(n - 1, k);
            r.append(&mut sub2);
            proof {
                let rem = (m - t) as usize;
                let g1 = sp_gen1_even((n - 1) as usize, k);
                let e1 = sp_neg1_even((n - 1) as usize, k);
                let blk = seq![(n, (2 * rem - 1) as usize)] + e1 + seq![
                    (n, (2 * rem - 2) as usize),
                ] + g1;
                assert(sp_desc(n, k, rem, false, true) == blk + sp_desc(
                    n,
                    k,
                    (rem - 1) as usize,
                    false,
                    true,
                ));
                assert(r@ =~= rpre + blk);
                assert((rpre + blk) + sp_desc(n, k, (rem - 1) as usize, false, true) =~= rpre + (blk
                    + sp_desc(n, k, (rem - 1) as usize, false, true)));
                assert((2 * t) * s2 + 2 * s2 == (2 * (t + 1)) * s2) by (nonlinear_arith);
                lemma_sp_bounded_widen(g1, (n - 1) as usize, k, n, k);
                lemma_sp_bounded_widen(e1, (n - 1) as usize, k, n, k);
                lemma_sp_bounded_concat(seq![(n, (2 * rem - 1) as usize)], e1, n, k);
                lemma_sp_bounded_concat(
                    seq![(n, (2 * rem - 1) as usize)] + e1,
                    seq![(n, (2 * rem - 2) as usize)],
                    n,
                    k,
                );
                lemma_sp_bounded_concat(
                    (seq![(n, (2 * rem - 1) as usize)] + e1) + seq![(n, (2 * rem - 2) as usize)],
                    g1,
                    n,
                    k,
                );
                assert(sp_bounded(blk, n, k));
                lemma_sp_bounded_concat(rpre, blk, n, k);
            }
            t = t + 1;
        }
        proof {
            assert(r@ + sp_desc(n, k, 0, false, true) =~= r@);
            assert(2 * m == k - 2);
            assert(2 * s2 + (2 * m) * s2 == k * s2) by (nonlinear_arith)
                requires
                    2 * m == k - 2,
            ;
        }
    } else {
        r.push((n, k - 2));
        push_desc_base(&mut r, n, m);
        proof {
            lemma_sp_desc_base_props(n, m);
            assert(stirling((n - 1) as nat, k as nat) == 1);
            assert(2 * m == k - 2);
            assert(k as nat * 1 == k as nat) by (nonlinear_arith);
            if m >= 1 {
                lemma_sp_bounded_widen(sp_desc_base(n, m), n, (2 * m) as usize, n, k);
            }
        }
    }
    proof {
        assert(r@ =~= sp_gen1_even(n, k));
    }
    r
}

/// `S'(n,k,1)`, even `k`.
#[verifier::loop_isolation(false)]
#[verifier::rlimit(100)]
fn neg1_even(n: usize, k: usize) -> (r: Vec<(usize, usize)>)
    requires
        2 <= k < n,
        k % 2 == 0,
    ensures
        r@ == sp_neg1_even(n, k),
        r@.len() == stirling(n as nat, k as nat) - 1,
        sp_bounded(r@, n, k),
    decreases n, 1int,
{
    let ghost s1 = stirling((n - 1) as nat, (k - 1) as nat);
    let ghost s2 = stirling((n - 1) as nat, k as nat);
    proof {
        assert(stirling(n as nat, k as nat) == s1 + k * s2);
    }
    let mut r: Vec<(usize, usize)> = Vec::new();
    let m: usize = (k - 2) / 2;
    if k < n - 1 {
        let ghost r0 = r@;
        let mut t: usize = 0;
        proof {
            assert(r0 + sp_asc(n, k, 0, false, true) =~= r@);
            assert((2 * 0) * s2 == 0) by (nonlinear_arith);
        }
        #[verifier::loop_isolation(true)]
        while t < m
            invariant
                2 <= k < n - 1,
                k % 2 == 0,
                m == (k - 2) / 2,
                s2 == stirling((n - 1) as nat, k as nat),
                t <= m,
                r@ == r0 + sp_asc(n, k, t, false, true),
                r@.len() == r0.len() + (2 * t) * s2,
                sp_bounded(r@, n, k),
            decreases m - t,
        {
            let i: usize = 2 * t + 1;
            let ghost rpre = r@;
            let mut sub1 = neg1_even(n - 1, k);
            r.append(&mut sub1);
            r.push((n, i));
            let mut sub2 = gen1_even(n - 1, k);
            r.append(&mut sub2);
            r.push((n, i + 1));
            proof {
                let t1 = (t + 1) as usize;
                let g1 = sp_gen1_even((n - 1) as usize, k);
                let e1 = sp_neg1_even((n - 1) as usize, k);
                let blk = e1 + seq![(n, (2 * t1 - 1) as usize)] + g1 + seq![
                    (n, (2 * t1) as usize),
                ];
                assert(sp_asc(n, k, t1, false, true) == sp_asc(n, k, t, false, true) + blk);
                assert(r@ =~= rpre + blk);
                assert(rpre + blk =~= r0 + (sp_asc(n, k, t, false, true) + blk));
                assert((2 * t) * s2 + 2 * s2 == (2 * (t + 1)) * s2) by (nonlinear_arith);
                lemma_sp_bounded_widen(g1, (n - 1) as usize, k, n, k);
                lemma_sp_bounded_widen(e1, (n - 1) as usize, k, n, k);
                lemma_sp_bounded_concat(e1, seq![(n, (2 * t1 - 1) as usize)], n, k);
                lemma_sp_bounded_concat(e1 + seq![(n, (2 * t1 - 1) as usize)], g1, n, k);
                lemma_sp_bounded_concat(
                    (e1 + seq![(n, (2 * t1 - 1) as usize)]) + g1,
                    seq![(n, (2 * t1) as usize)],
                    n,
                    k,
                );
                assert(sp_bounded(blk, n, k));
                lemma_sp_bounded_concat(rpre, blk, n, k);
            }
            t = t + 1;
        }
        let mut sub = neg1_even(n - 1, k);
        r.append(&mut sub);
        r.push((n, k - 1));
        let mut sub = gen1_even(n - 1, k);
        r.append(&mut sub);
        proof {
            assert(2 * m == k - 2);
            assert((2 * m) * s2 + 2 * s2 == k * s2) by (nonlinear_arith)
                requires
                    2 * m == k - 2,
            ;
        }
    } else {
        push_asc_base(&mut r, n, m);
        r.push((n, k - 1));
        proof {
            lemma_sp_asc_base_props(n, m);
            assert(stirling((n - 1) as nat, k as nat) == 1);
            assert(2 * m == k - 2);
            assert(k as nat * 1 == k as nat) by (nonlinear_arith);
            lemma_sp_bounded_widen(sp_asc_base(n, m), n, (2 * m + 1) as usize, n, k);
        }
    }
    r.push((k, 0));
    if k > 3 {
        let mut sub = neg1_odd(n - 1, k - 1);
        r.append(&mut sub);
    }
    proof {
        assert(r@ =~= sp_neg1_even(n, k));
    }
    r
}

/// `S(n,k,0)`, odd `k`.
#[verifier::loop_isolation(false)]
#[verifier::rlimit(100)]
fn gen0_odd(n: usize, k: usize) -> (r: Vec<(usize, usize)>)
    requires
        3 <= k < n,
        k % 2 == 1,
    ensures
        r@ == sp_gen0_odd(n, k),
        r@.len() == stirling(n as nat, k as nat) - 1,
        sp_bounded(r@, n, k),
    decreases n, 1int,
{
    let ghost s1 = stirling((n - 1) as nat, (k - 1) as nat);
    let ghost s2 = stirling((n - 1) as nat, k as nat);
    proof {
        assert(stirling(n as nat, k as nat) == s1 + k * s2);
    }
    let mut r: Vec<(usize, usize)> = Vec::new();
    let mut sub = gen1_even(n - 1, k - 1);
    r.append(&mut sub);
    r.push((k, k - 1));
    let m: usize = (k - 1) / 2;
    if k < n - 1 {
        let mut sub = neg1_odd(n - 1, k);
        r.append(&mut sub);
        let ghost r0 = r@;
        let mut t: usize = 0;
        proof {
            assert((2 * 0) * s2 == 0) by (nonlinear_arith);
        }
        #[verifier::loop_isolation(true)]
        while t < m
            invariant
                3 <= k < n - 1,
                k % 2 == 1,
                m == (k - 1) / 2,
                s2 == stirling((n - 1) as nat, k as nat),
                t <= m,
                r0 + sp_desc(n, k, m, true, false) == r@ + sp_desc(
                    n,
                    k,
                    (m - t) as usize,
                    true,
                    false,
                ),
                r@.len() == r0.len() + (2 * t) * s2,
                sp_bounded(r@, n, k),
            decreases m - t,
        {
            let i: usize = k - 2 - 2 * t;
            let ghost rpre = r@;
            r.push((n, i));
            let mut sub1 = gen1_odd(n - 1, k);
            r.append(&mut sub1);
            r.push((n, i - 1));
            let mut sub2 = neg1_odd(n - 1, k);
            r.append(&mut sub2);
            proof {
                let rem = (m - t) as usize;
                let g1 = sp_gen1_odd((n - 1) as usize, k);
                let e1 = sp_neg1_odd((n - 1) as usize, k);
                let blk = seq![(n, (2 * rem - 1) as usize)] + g1 + seq![
                    (n, (2 * rem - 2) as usize),
                ] + e1;
                assert(sp_desc(n, k, rem, true, false) == blk + sp_desc(
                    n,
                    k,
                    (rem - 1) as usize,
                    true,
                    false,
                ));
                assert(r@ =~= rpre + blk);
                assert((rpre + blk) + sp_desc(n, k, (rem - 1) as usize, true, false) =~= rpre + (blk
                    + sp_desc(n, k, (rem - 1) as usize, true, false)));
                assert((2 * t) * s2 + 2 * s2 == (2 * (t + 1)) * s2) by (nonlinear_arith);
                lemma_sp_bounded_widen(g1, (n - 1) as usize, k, n, k);
                lemma_sp_bounded_widen(e1, (n - 1) as usize, k, n, k);
                lemma_sp_bounded_concat(seq![(n, (2 * rem - 1) as usize)], g1, n, k);
                lemma_sp_bounded_concat(
                    seq![(n, (2 * rem - 1) as usize)] + g1,
                    seq![(n, (2 * rem - 2) as usize)],
                    n,
                    k,
                );
                lemma_sp_bounded_concat(
                    (seq![(n, (2 * rem - 1) as usize)] + g1) + seq![(n, (2 * rem - 2) as usize)],
                    e1,
                    n,
                    k,
                );
                assert(sp_bounded(blk, n, k));
                lemma_sp_bounded_concat(rpre, blk, n, k);
            }
            t = t + 1;
        }
        proof {
            assert(r@ + sp_desc(n, k, 0, true, false) =~= r@);
            assert(2 * m == k - 1);
            assert(s2 + (2 * m) * s2 == k * s2) by (nonlinear_arith)
                requires
                    2 * m == k - 1,
            ;
        }
    } else {
        push_desc_base(&mut r, n, m);
        proof {
            lemma_sp_desc_base_props(n, m);
            assert(stirling((n - 1) as nat, k as nat) == 1);
            assert(2 * m == k - 1);
            assert(k as nat * 1 == k as nat) by (nonlinear_arith);
            if m >= 1 {
                lemma_sp_bounded_widen(sp_desc_base(n, m), n, (2 * m) as usize, n, k);
            }
        }
    }
    proof {
        assert(r@ =~= sp_gen0_odd(n, k));
    }
    r
}

/// `S'(n,k,0)`, odd `k`.
#[verifier::loop_isolation(false)]
#[verifier::rlimit(100)]
fn neg0_odd(n: usize, k: usize) -> (r: Vec<(usize, usize)>)
    requires
        3 <= k < n,
        k % 2 == 1,
    ensures
        r@ == sp_neg0_odd(n, k),
        r@.len() == stirling(n as nat, k as nat) - 1,
        sp_bounded(r@, n, k),
    decreases n, 1int,
{
    let ghost s1 = stirling((n - 1) as nat, (k - 1) as nat);
    let ghost s2 = stirling((n - 1) as nat, k as nat);
    proof {
        assert(stirling(n as nat, k as nat) == s1 + k * s2);
    }
    let mut r: Vec<(usize, usize)> = Vec::new();
    let m: usize = (k - 1) / 2;
    if k < n - 1 {
        let ghost r0 = r@;
        let mut t: usize = 0;
        proof {
            assert(r0 + sp_asc(n, k, 0, true, false) =~= r@);
            assert((2 * 0) * s2 == 0) by (nonlinear_arith);
        }
        #[verifier::loop_isolation(true)]
        while t < m
            invariant
                3 <= k < n - 1,
                k % 2 == 1,
                m == (k - 1) / 2,
                s2 == stirling((n - 1) as nat, k as nat),
                t <= m,
                r@ == r0 + sp_asc(n, k, t, true, false),
                r@.len() == r0.len() + (2 * t) * s2,
                sp_bounded(r@, n, k),
            decreases m - t,
        {
            let i: usize = 2 * t + 1;
            let ghost rpre = r@;
            let mut sub1 = gen1_odd(n - 1, k);
            r.append(&mut sub1);
            r.push((n, i));
            let mut sub2 = neg1_odd(n - 1, k);
            r.append(&mut sub2);
            r.push((n, i + 1));
            proof {
                let t1 = (t + 1) as usize;
                let g1 = sp_gen1_odd((n - 1) as usize, k);
                let e1 = sp_neg1_odd((n - 1) as usize, k);
                let blk = g1 + seq![(n, (2 * t1 - 1) as usize)] + e1 + seq![
                    (n, (2 * t1) as usize),
                ];
                assert(sp_asc(n, k, t1, true, false) == sp_asc(n, k, t, true, false) + blk);
                assert(r@ =~= rpre + blk);
                assert(rpre + blk =~= r0 + (sp_asc(n, k, t, true, false) + blk));
                assert((2 * t) * s2 + 2 * s2 == (2 * (t + 1)) * s2) by (nonlinear_arith);
                lemma_sp_bounded_widen(g1, (n - 1) as usize, k, n, k);
                lemma_sp_bounded_widen(e1, (n - 1) as usize, k, n, k);
                lemma_sp_bounded_concat(g1, seq![(n, (2 * t1 - 1) as usize)], n, k);
                lemma_sp_bounded_concat(g1 + seq![(n, (2 * t1 - 1) as usize)], e1, n, k);
                lemma_sp_bounded_concat(
                    (g1 + seq![(n, (2 * t1 - 1) as usize)]) + e1,
                    seq![(n, (2 * t1) as usize)],
                    n,
                    k,
                );
                assert(sp_bounded(blk, n, k));
                lemma_sp_bounded_concat(rpre, blk, n, k);
            }
            t = t + 1;
        }
        let mut sub = gen1_odd(n - 1, k);
        r.append(&mut sub);
        proof {
            assert(2 * m == k - 1);
            assert((2 * m) * s2 + s2 == k * s2) by (nonlinear_arith)
                requires
                    2 * m == k - 1,
            ;
        }
    } else {
        push_asc_base(&mut r, n, m);
        proof {
            lemma_sp_asc_base_props(n, m);
            assert(stirling((n - 1) as nat, k as nat) == 1);
            assert(2 * m == k - 1);
            assert(k as nat * 1 == k as nat) by (nonlinear_arith);
            lemma_sp_bounded_widen(sp_asc_base(n, m), n, (2 * m + 1) as usize, n, k);
        }
    }
    r.push((k, 0));
    let mut sub = neg1_even(n - 1, k - 1);
    r.append(&mut sub);
    proof {
        assert(r@ =~= sp_neg0_odd(n, k));
    }
    r
}

/// `S(n,k,1)`, odd `k`.
#[verifier::loop_isolation(false)]
#[verifier::rlimit(100)]
fn gen1_odd(n: usize, k: usize) -> (r: Vec<(usize, usize)>)
    requires
        3 <= k < n,
        k % 2 == 1,
    ensures
        r@ == sp_gen1_odd(n, k),
        r@.len() == stirling(n as nat, k as nat) - 1,
        sp_bounded(r@, n, k),
    decreases n, 1int,
{
    let ghost s1 = stirling((n - 1) as nat, (k - 1) as nat);
    let ghost s2 = stirling((n - 1) as nat, k as nat);
    proof {
        assert(stirling(n as nat, k as nat) == s1 + k * s2);
    }
    let mut r: Vec<(usize, usize)> = Vec::new();
    let mut sub = gen0_even(n - 1, k - 1);
    r.append(&mut sub);
    r.push((n - 1, k - 1));
    let m: usize = (k - 1) / 2;
    if k < n - 1 {
        let mut sub = gen1_odd(n - 1, k);
        r.append(&mut sub);
        let ghost r0 = r@;
        let mut t: usize = 0;
        proof {
            assert((2 * 0) * s2 == 0) by (nonlinear_arith);
        }
        #[verifier::loop_isolation(true)]
        while t < m
            invariant
                3 <= k < n - 1,
                k % 2 == 1,
                m == (k - 1) / 2,
                s2 == stirling((n - 1) as nat, k as nat),
                t <= m,
                r0 + sp_desc(n, k, m, true, true) == r@ + sp_desc(
                    n,
                    k,
                    (m - t) as usize,
                    true,
                    true,
                ),
                r@.len() == r0.len() + (2 * t) * s2,
                sp_bounded(r@, n, k),
            decreases m - t,
        {
            let i: usize = k - 2 - 2 * t;
            let ghost rpre = r@;
            r.push((n, i));
            let mut sub1 = neg1_odd(n - 1, k);
            r.append(&mut sub1);
            r.push((n, i - 1));
            let mut sub2 = gen1_odd(n - 1, k);
            r.append(&mut sub2);
            proof {
                let rem = (m - t) as usize;
                let g1 = sp_gen1_odd((n - 1) as usize, k);
                let e1 = sp_neg1_odd((n - 1) as usize, k);
                let blk = seq![(n, (2 * rem - 1) as usize)] + e1 + seq![
                    (n, (2 * rem - 2) as usize),
                ] + g1;
                assert(sp_desc(n, k, rem, true, true) == blk + sp_desc(
                    n,
                    k,
                    (rem - 1) as usize,
                    true,
                    true,
                ));
                assert(r@ =~= rpre + blk);
                assert((rpre + blk) + sp_desc(n, k, (rem - 1) as usize, true, true) =~= rpre + (blk
                    + sp_desc(n, k, (rem - 1) as usize, true, true)));
                assert((2 * t) * s2 + 2 * s2 == (2 * (t + 1)) * s2) by (nonlinear_arith);
                lemma_sp_bounded_widen(g1, (n - 1) as usize, k, n, k);
                lemma_sp_bounded_widen(e1, (n - 1) as usize, k, n, k);
                lemma_sp_bounded_concat(seq![(n, (2 * rem - 1) as usize)], e1, n, k);
                lemma_sp_bounded_concat(
                    seq![(n, (2 * rem - 1) as usize)] + e1,
                    seq![(n, (2 * rem - 2) as usize)],
                    n,
                    k,
                );
                lemma_sp_bounded_concat(
                    (seq![(n, (2 * rem - 1) as usize)] + e1) + seq![(n, (2 * rem - 2) as usize)],
                    g1,
                    n,
                    k,
                );
                assert(sp_bounded(blk, n, k));
                lemma_sp_bounded_concat(rpre, blk, n, k);
            }
            t = t + 1;
        }
        proof {
            assert(r@ + sp_desc(n, k, 0, true, true) =~= r@);
            assert(2 * m == k - 1);
            assert(s2 + (2 * m) * s2 == k * s2) by (nonlinear_arith)
                requires
                    2 * m == k - 1,
            ;
        }
    } else {
        push_desc_base(&mut r, n, m);
        proof {
            lemma_sp_desc_base_props(n, m);
            assert(stirling((n - 1) as nat, k as nat) == 1);
            assert(2 * m == k - 1);
            assert(k as nat * 1 == k as nat) by (nonlinear_arith);
            if m >= 1 {
                lemma_sp_bounded_widen(sp_desc_base(n, m), n, (2 * m) as usize, n, k);
            }
        }
    }
    proof {
        assert(r@ =~= sp_gen1_odd(n, k));
    }
    r
}

/// `S'(n,k,1)`, odd `k`.
#[verifier::loop_isolation(false)]
#[verifier::rlimit(100)]
fn neg1_odd(n: usize, k: usize) -> (r: Vec<(usize, usize)>)
    requires
        3 <= k < n,
        k % 2 == 1,
    ensures
        r@ == sp_neg1_odd(n, k),
        r@.len() == stirling(n as nat, k as nat) - 1,
        sp_bounded(r@, n, k),
    decreases n, 1int,
{
    let ghost s1 = stirling((n - 1) as nat, (k - 1) as nat);
    let ghost s2 = stirling((n - 1) as nat, k as nat);
    proof {
        assert(stirling(n as nat, k as nat) == s1 + k * s2);
    }
    let mut r: Vec<(usize, usize)> = Vec::new();
    let m: usize = (k - 1) / 2;
    if k < n - 1 {
        let ghost r0 = r@;
        let mut t: usize = 0;
        proof {
            assert(r0 + sp_asc(n, k, 0, true, true) =~= r@);
            assert((2 * 0) * s2 == 0) by (nonlinear_arith);
        }
        #[verifier::loop_isolation(true)]
        while t < m
            invariant
                3 <= k < n - 1,
                k % 2 == 1,
                m == (k - 1) / 2,
                s2 == stirling((n - 1) as nat, k as nat),
                t <= m,
                r@ == r0 + sp_asc(n, k, t, true, true),
                r@.len() == r0.len() + (2 * t) * s2,
                sp_bounded(r@, n, k),
            decreases m - t,
        {
            let i: usize = 2 * t + 1;
            let ghost rpre = r@;
            let mut sub1 = neg1_odd(n - 1, k);
            r.append(&mut sub1);
            r.push((n, i));
            let mut sub2 = gen1_odd(n - 1, k);
            r.append(&mut sub2);
            r.push((n, i + 1));
            proof {
                let t1 = (t + 1) as usize;
                let g1 = sp_gen1_odd((n - 1) as usize, k);
                let e1 = sp_neg1_odd((n - 1) as usize, k);
                let blk = e1 + seq![(n, (2 * t1 - 1) as usize)] + g1 + seq![
                    (n, (2 * t1) as usize),
                ];
                assert(sp_asc(n, k, t1, true, true) == sp_asc(n, k, t, true, true) + blk);
                assert(r@ =~= rpre + blk);
                assert(rpre + blk =~= r0 + (sp_asc(n, k, t, true, true) + blk));
                assert((2 * t) * s2 + 2 * s2 == (2 * (t + 1)) * s2) by (nonlinear_arith);
                lemma_sp_bounded_widen(g1, (n - 1) as usize, k, n, k);
                lemma_sp_bounded_widen(e1, (n - 1) as usize, k, n, k);
                lemma_sp_bounded_concat(e1, seq![(n, (2 * t1 - 1) as usize)], n, k);
                lemma_sp_bounded_concat(e1 + seq![(n, (2 * t1 - 1) as usize)], g1, n, k);
                lemma_sp_bounded_concat(
                    (e1 + seq![(n, (2 * t1 - 1) as usize)]) + g1,
                    seq![(n, (2 * t1) as usize)],
                    n,
                    k,
                );
                assert(sp_bounded(blk, n, k));
                lemma_sp_bounded_concat(rpre, blk, n, k);
            }
            t = t + 1;
        }
        let mut sub = neg1_odd(n - 1, k);
        r.append(&mut sub);
        proof {
            assert(2 * m == k - 1);
            assert((2 * m) * s2 + s2 == k * s2) by (nonlinear_arith)
                requires
                    2 * m == k - 1,
            ;
        }
    } else {
        push_asc_base(&mut r, n, m);
        proof {
            lemma_sp_asc_base_props(n, m);
            assert(stirling((n - 1) as nat, k as nat) == 1);
            assert(2 * m == k - 1);
            assert(k as nat * 1 == k as nat) by (nonlinear_arith);
            lemma_sp_bounded_widen(sp_asc_base(n, m), n, (2 * m + 1) as usize, n, k);
        }
    }
    r.push((n - 1, 0));
    let mut sub = neg0_even(n - 1, k - 1);
    r.append(&mut sub);
    proof {
        assert(r@ =~= sp_neg1_odd(n, k));
    }
    r
}

/// All partitions of `n` labeled elements into `k` nonempty blocks, by single
/// block-reassignment moves over a restricted growth string.  Entry `r[i]`
/// is a pair `(x, y)`: element `x` (1-indexed) moves to block `y`.  Starting
/// from the string `0^(n-k) 0 1 .. k-1`, the stream visits all
/// `stirling(n, k)` restricted growth strings, each exactly once.  Degenerate
/// parameters (`k <= 1` or `k >= n`) describe a single trivial object, so the
/// stream is empty.
pub fn set_partition_gen(n: usize, k: usize) -> (r: Vec<(usize, usize)>)
    ensures
        r@ == sp_partition_seq(n, k),
        r@.len() == stirling(n as nat, k as nat) - 1,
        sp_bounded(r@, n, k),
{
    if !(k > 1 && k < n) {
        let r: Vec<(usize, usize)> = Vec::new();
        proof {
            assert(r@ =~= sp_partition_seq(n, k));
        }
        return r;
    }
    if k % 2 == 0 {
        gen0_even(n, k)
    } else {
        gen0_odd(n, k)
    }
}

} // verus!
