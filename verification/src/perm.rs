//! Permutation generators: counting oracle and minimal-change move streams.

use vstd::prelude::*;

verus! {

/// Mathematical factorial, the object count for permutations of `n` elements.
pub open spec fn fact(n: nat) -> nat
    decreases n,
{
    if n < 2 {
        1
    } else {
        n * fact((n - 1) as nat)
    }
}

/// The factorial of `n`, the number of permutations of `n` elements.
pub fn factorial(n: usize) -> (r: usize)
    requires
        fact(n as nat) <= usize::MAX,
    ensures
        r as nat == fact(n as nat),
    decreases n,
{
    if n < 2 {
        1
    } else {
        proof {
            let f1 = fact((n - 1) as nat);
            assert(fact(n as nat) == n * f1);
            assert(f1 <= n as nat * f1) by (nonlinear_arith)
                requires
                    n >= 2,
            ;
        }
        let f = factorial(n - 1);
        n * f
    }
}

/// Downward scan of the `m` adjacent-swap positions: `m - 1`, ..., `1`, `0`.
pub open spec fn desc_scan(m: usize) -> Seq<usize> {
    Seq::new(m as nat, |i: int| (m - 1 - i) as usize)
}

/// Upward scan of the `m` adjacent-swap positions: `0`, `1`, ..., `m - 1`.
pub open spec fn asc_scan(m: usize) -> Seq<usize> {
    Seq::new(m as nat, |i: int| i as usize)
}

/// One pass of the Steinhaus-Johnson-Trotter interleaving: before each move of
/// the length-`n - 1` child stream, a full scan of the `n - 1` adjacent swap
/// positions is emitted (downward or upward, alternating), and the child move
/// itself is lifted by one position after a downward scan.
pub open spec fn sjt_weave(child: Seq<usize>, n: usize, down: bool) -> Seq<usize>
    decreases child.len(),
{
    if child.len() == 0 {
        Seq::empty()
    } else {
        (if down {
            desc_scan((n - 1) as usize) + seq![(1 + child[0]) as usize]
        } else {
            asc_scan((n - 1) as usize) + seq![child[0]]
        }) + sjt_weave(child.drop_first(), n, !down)
    }
}

/// The Steinhaus-Johnson-Trotter move sequence for `n` elements.  The base
/// case `n == 2` emits position `0` twice: the second emission returns the
/// pair to its original order, so the stream closes a Hamiltonian cycle and
/// has exactly `n!` entries rather than `n! - 1`.
pub open spec fn sjt_seq(n: usize) -> Seq<usize>
    decreases n,
{
    if n < 2 {
        Seq::empty()
    } else if n == 2 {
        seq![0usize, 0usize]
    } else {
        sjt_weave(sjt_seq((n - 1) as usize), n, true)
    }
}

proof fn lemma_sjt_weave_len(child: Seq<usize>, n: usize, down: bool)
    requires
        n >= 3,
    ensures
        sjt_weave(child, n, down).len() == child.len() * n,
    decreases child.len(),
{
    if child.len() == 0 {
        assert(0nat * n as nat == 0) by (nonlinear_arith);
    } else {
        lemma_sjt_weave_len(child.drop_first(), n, !down);
        assert((child.len() - 1) * n + n == child.len() * n) by (nonlinear_arith);
    }
}

proof fn lemma_sjt_weave_bounds(child: Seq<usize>, n: usize, down: bool)
    requires
        n >= 3,
        forall|i: int| 0 <= i < child.len() ==> child[i] + 2 < n,
    ensures
        forall|i: int|
            0 <= i < sjt_weave(child, n, down).len() ==> sjt_weave(child, n, down)[i] + 1 < n,
    decreases child.len(),
{
    if child.len() > 0 {
        lemma_sjt_weave_bounds(child.drop_first(), n, !down);
        let block = if down {
            desc_scan((n - 1) as usize) + seq![(1 + child[0]) as usize]
        } else {
            asc_scan((n - 1) as usize) + seq![child[0]]
        };
        let rest = sjt_weave(child.drop_first(), n, !down);
        let w = sjt_weave(child, n, down);
        assert(w == block + rest);
        assert forall|i: int| 0 <= i < w.len() implies w[i] + 1 < n by {
            if i < block.len() {
                assert(w[i] == block[i]);
                if i < n - 1 {
                    if down {
                        assert(block[i] == desc_scan((n - 1) as usize)[i]);
                    } else {
                        assert(block[i] == asc_scan((n - 1) as usize)[i]);
                    }
                } else {
                    assert(child[0] + 2 < n);
                }
            } else {
                assert(w[i] == rest[i - block.len()]);
            }
        }
    }
}

/// All permutations of `n` elements by adjacent transposition
/// (Steinhaus-Johnson-Trotter).  Swapping positions `r[i]` and `r[i] + 1` of
/// the current arrangement yields the next one; the stream visits all `n!`
/// permutations and returns to the starting arrangement.  For `n >= 2` it has
/// exactly `n!` entries, one of which is the documented null return move of
/// the `n == 2` base case.
#[verifier::loop_isolation(false)]
pub fn sjt_gen(n: usize) -> (r: Vec<usize>)
    ensures
        r@ == sjt_seq(n),
        r@.len() == if n < 2 {
            0nat
        } else {
            fact(n as nat)
        },
        forall|i: int| 0 <= i < r@.len() ==> r@[i] + 1 < n,
    decreases n,
{
    let mut r: Vec<usize> = Vec::new();
    if n < 2 {
        proof {
            assert(r@ =~= sjt_seq(n));
        }
        return r;
    }
    if n == 2 {
        r.push(0);
        r.push(0);
        proof {
            assert(r@ =~= sjt_seq(n));
            assert(fact(2nat) == 2) by {
                reveal_with_fuel(fact, 3);
            }
        }
        return r;
    }
    let child = sjt_gen(n - 1);
    let mut down = true;
    let mut idx: usize = 0;
    proof {
        assert(child@.skip(0) =~= child@);
        assert(r@ + sjt_weave(child@, n, true) =~= sjt_weave(child@, n, true));
    }
    while idx < child.len()
        invariant
            idx <= child@.len(),
            sjt_weave(child@, n, true) == r@ + sjt_weave(child@.skip(idx as int), n, down),
        decreases child@.len() - idx,
    {
        let ghost r0 = r@;
        let ghost down0 = down;
        if down {
            let mut i: usize = n - 1;
            while i > 0
                invariant
                    i <= n - 1,
                    r@ == r0 + desc_scan((n - 1) as usize).subrange(0, n - 1 - i),
                decreases i,
            {
                i = i - 1;
                r.push(i);
                proof {
                    let t = n - 1 - i - 1;
                    let d = desc_scan((n - 1) as usize);
                    assert(d.subrange(0, t + 1) =~= d.subrange(0, t).push(d[t]));
                    assert(r0 + d.subrange(0, t).push(d[t]) =~= (r0 + d.subrange(0, t)).push(
                        d[t],
                    ));
                }
            }
            r.push(1 + child[idx]);
            down = false;
        } else {
            let mut i: usize = 0;
            while i < n - 1
                invariant
                    i <= n - 1,
                    r@ == r0 + asc_scan((n - 1) as usize).subrange(0, i as int),
                decreases n - 1 - i,
            {
                r.push(i);
                proof {
                    let a = asc_scan((n - 1) as usize);
                    assert(a.subrange(0, i + 1) =~= a.subrange(0, i as int).push(a[i as int]));
                    assert(r0 + a.subrange(0, i as int).push(a[i as int]) =~= (r0 + a.subrange(
                        0,
                        i as int,
                    )).push(a[i as int]));
                }
                i = i + 1;
            }
            r.push(child[idx]);
            down = true;
        }
        proof {
            let scan = if down0 {
                desc_scan((n - 1) as usize)
            } else {
                asc_scan((n - 1) as usize)
            };
            let mv: usize = if down0 {
                (1 + child@[idx as int]) as usize
            } else {
                child@[idx as int]
            };
            let block = scan + seq![mv];
            let rest = child@.skip(idx as int);
            assert(rest[0] == child@[idx as int]);
            assert(rest.drop_first() =~= child@.skip(idx + 1));
            assert(sjt_weave(rest, n, down0) == block + sjt_weave(child@.skip(idx + 1), n, down));
            assert(desc_scan((n - 1) as usize).subrange(0, (n - 1) as int) =~= desc_scan(
                (n - 1) as usize,
            ));
            assert(asc_scan((n - 1) as usize).subrange(0, (n - 1) as int) =~= asc_scan(
                (n - 1) as usize,
            ));
            assert(r@ =~= r0 + block);
            assert(r0 + (block + sjt_weave(child@.skip(idx + 1), n, down)) =~= (r0 + block)
                + sjt_weave(child@.skip(idx + 1), n, down));
            assert(sjt_weave(child@, n, true) == r@ + sjt_weave(child@.skip(idx + 1), n, down));
        }
        idx = idx + 1;
    }
    proof {
        assert(child@.skip(child@.len() as int) =~= Seq::<usize>::empty());
        assert(r@ + Seq::<usize>::empty() =~= r@);
        lemma_sjt_weave_len(child@, n, true);
        assert(fact(n as nat) == n * fact((n - 1) as nat));
        assert(fact((n - 1) as nat) * n as nat == n as nat * fact((n - 1) as nat))
            by (nonlinear_arith);
        lemma_sjt_weave_bounds(child@, n, true);
    }
    r
}

/// The value of the factorial-base counter digits `c[1..=j]`: the number of
/// advances the star-transposition machine has made.
pub open spec fn cval(c: Seq<usize>, j: nat) -> nat
    decreases j,
{
    if j == 0 {
        0
    } else {
        cval(c, (j - 1) as nat) + (c[j as int] * fact(j)) as nat
    }
}

/// The smallest digit position at or above `k` whose counter is below its
/// maximum, capped at `n`; position `n` is the machine's halting condition.
pub open spec fn ehr_scan(c: Seq<usize>, k: nat, n: nat) -> nat
    decreases n - k,
{
    if k >= n {
        n
    } else if c[k as int] < k {
        k
    } else {
        ehr_scan(c, k + 1, n)
    }
}

/// The counter after one advance at position `k`: every digit below `k` is
/// reset and digit `k` is incremented.
pub open spec fn ehr_step_c(c: Seq<usize>, k: nat) -> Seq<usize> {
    Seq::new(
        c.len(),
        |j: int|
            if 1 <= j < k {
                0usize
            } else if j == k {
                (c[j] + 1) as usize
            } else {
                c[j]
            },
    )
}

/// The ordering array after one move at position `k`: the segment strictly
/// between positions `0` and `k` is reversed.
pub open spec fn ehr_step_b(b: Seq<usize>, k: nat) -> Seq<usize> {
    Seq::new(
        b.len(),
        |j: int|
            if 1 <= j < k {
                b[k - j]
            } else {
                b[j]
            },
    )
}

/// The move stream of the star-transposition machine started at counter `c`
/// and ordering `b`, running for at most `fuel` advances.
pub open spec fn ehr_seq_rec(c: Seq<usize>, b: Seq<usize>, n: nat, fuel: nat) -> Seq<usize>
    decreases fuel,
{
    if fuel == 0 {
        Seq::empty()
    } else {
        let k = ehr_scan(c, 1, n);
        if k >= n {
            Seq::empty()
        } else {
            seq![b[k as int]] + ehr_seq_rec(ehr_step_c(c, k), ehr_step_b(b, k), n, (fuel - 1) as nat)
        }
    }
}

/// The star-transposition (Eades-Hickey) move sequence for `n` elements:
/// the machine run from the all-zero counter and the identity ordering.
pub open spec fn ehr_seq(n: usize) -> Seq<usize> {
    ehr_seq_rec(
        Seq::new(n as nat + 1, |j: int| 0usize),
        Seq::new(n as nat, |j: int| j as usize),
        n as nat,
        fact(n as nat),
    )
}

proof fn lemma_fact_pos(n: nat)
    ensures
        fact(n) >= 1,
    decreases n,
{
    if n >= 2 {
        lemma_fact_pos((n - 1) as nat);
        assert(n * fact((n - 1) as nat) >= fact((n - 1) as nat)) by (nonlinear_arith)
            requires
                n >= 2,
                fact((n - 1) as nat) >= 1,
        ;
    }
}

proof fn lemma_cval_agree(c1: Seq<usize>, c2: Seq<usize>, m: nat, j: nat)
    requires
        m <= j,
        forall|i: int| m < i <= j ==> c1[i] == c2[i],
    ensures
        cval(c1, j) + cval(c2, m) == cval(c2, j) + cval(c1, m),
    decreases j,
{
    if j > m {
        lemma_cval_agree(c1, c2, m, (j - 1) as nat);
    }
}

proof fn lemma_cval_zero_prefix(c: Seq<usize>, j: nat)
    requires
        forall|i: int| 1 <= i <= j ==> c[i] == 0,
    ensures
        cval(c, j) == 0,
    decreases j,
{
    if j > 0 {
        lemma_cval_zero_prefix(c, (j - 1) as nat);
    }
}

proof fn lemma_cval_max_prefix(c: Seq<usize>, j: nat)
    requires
        forall|i: int| 1 <= i <= j ==> c[i] == i,
    ensures
        cval(c, j) == fact((j + 1) as nat) - 1,
    decreases j,
{
    lemma_fact_pos(j);
    if j > 0 {
        lemma_cval_max_prefix(c, (j - 1) as nat);
        assert(fact((j + 1) as nat) == (j + 1) * fact(j));
        assert(j * fact(j) + fact(j) == (j + 1) * fact(j)) by (nonlinear_arith);
    }
}

proof fn lemma_cval_bound(c: Seq<usize>, j: nat)
    requires
        forall|i: int| 1 <= i <= j ==> c[i] <= i,
    ensures
        cval(c, j) <= fact((j + 1) as nat) - 1,
    decreases j,
{
    lemma_fact_pos(j);
    if j > 0 {
        lemma_cval_bound(c, (j - 1) as nat);
        assert(c[j as int] * fact(j) <= j * fact(j)) by (nonlinear_arith)
            requires
                0 <= c[j as int] <= j,
                fact(j) >= 0,
        ;
        assert(fact((j + 1) as nat) == (j + 1) * fact(j));
        assert(j * fact(j) + fact(j) == (j + 1) * fact(j)) by (nonlinear_arith);
    }
}

proof fn lemma_cval_step(c0: Seq<usize>, k: nat, n: nat)
    requires
        1 <= k < n,
        k <= usize::MAX,
        c0.len() == n + 1,
        forall|i: int| 1 <= i < k ==> c0[i] == i,
        c0[k as int] < k,
    ensures
        cval(ehr_step_c(c0, k), n) == cval(c0, n) + 1,
{
    let c1 = ehr_step_c(c0, k);
    lemma_fact_pos(k);
    lemma_cval_zero_prefix(c1, (k - 1) as nat);
    lemma_cval_max_prefix(c0, (k - 1) as nat);
    assert(cval(c1, k) == cval(c1, (k - 1) as nat) + c1[k as int] * fact(k));
    assert(c1[k as int] == c0[k as int] + 1);
    assert((c0[k as int] + 1) * fact(k) == c0[k as int] * fact(k) + fact(k)) by (nonlinear_arith);
    assert(cval(c1, k) == cval(c0, k) + 1);
    lemma_cval_agree(c1, c0, k, n);
}

/// Advance the counter scan: zero out every maxed digit from position 1
/// upward and return the first position whose digit is below its maximum
/// (position `n` when every digit is maxed, the machine's halting condition).
#[verifier::loop_isolation(false)]
fn scan_counters(c: &mut Vec<usize>, n: usize) -> (k: usize)
    requires
        n >= 1,
        old(c)@.len() == n + 1,
        forall|j: int| 1 <= j <= n ==> old(c)@[j] <= j,
        old(c)@[n as int] == 0,
    ensures
        1 <= k <= n,
        k as nat == ehr_scan(old(c)@, 1, n as nat),
        forall|j: int| 1 <= j < k ==> old(c)@[j] == j,
        k < n ==> old(c)@[k as int] < k,
        final(c)@ == Seq::new(
            old(c)@.len(),
            |j: int|
                if 1 <= j < k {
                    0usize
                } else {
                    old(c)@[j]
                },
        ),
{
    let mut k: usize = 1;
    while c[k] == k
        invariant
            1 <= k <= n,
            c@.len() == n + 1,
            forall|j: int| 1 <= j < k ==> old(c)@[j] == j,
            forall|j: int| 1 <= j < k ==> c@[j] == 0,
            forall|j: int| #![trigger c@[j]] k <= j <= n ==> c@[j] == old(c)@[j],
            c@[0] == old(c)@[0],
            ehr_scan(old(c)@, 1, n as nat) == ehr_scan(old(c)@, k as nat, n as nat),
        decreases n - k,
    {
        c[k] = 0;
        k = k + 1;
    }
    proof {
        assert(c@ =~= Seq::new(
            old(c)@.len(),
            |j: int|
                if 1 <= j < k {
                    0usize
                } else {
                    old(c)@[j]
                },
        ));
    }
    k
}

/// Reverse the ordering array strictly between positions `0` and `k`.
#[verifier::loop_isolation(false)]
fn reverse_prefix(b: &mut Vec<usize>, k: usize)
    requires
        1 <= k <= old(b)@.len(),
    ensures
        final(b)@ == ehr_step_b(old(b)@, k as nat),
{
    let mut lo: usize = 1;
    let mut hi: usize = k - 1;
    while lo < hi
        invariant
            1 <= lo,
            lo + hi == k,
            b@.len() == old(b)@.len(),
            forall|j: int| #![trigger b@[j]] lo <= j <= hi ==> b@[j] == old(b)@[j],
            forall|j: int| #![trigger b@[j]] (1 <= j < lo || hi < j < k) ==> b@[j] == old(b)@[
                k - j
            ],
            forall|j: int| #![trigger b@[j]] (0 <= j < b@.len() && !(1 <= j < k)) ==> b@[j] == old(
                b,
            )@[j],
        decreases hi,
    {
        let t: usize = b[lo];
        let u: usize = b[hi];
        b[lo] = u;
        b[hi] = t;
        lo = lo + 1;
        hi = hi - 1;
    }
    proof {
        assert(b@ =~= ehr_step_b(old(b)@, k as nat));
    }
}

/// All permutations of `n` elements by star transposition (Eades-Hickey):
/// swapping positions `0` and `r[i]` of the current arrangement yields the
/// next one.  The stream has `n! - 1` entries and visits all `n!`
/// permutations, each exactly once.
#[verifier::loop_isolation(false)]
pub fn ehr_gen(n: usize) -> (r: Vec<usize>)
    requires
        1 <= n < usize::MAX,
    ensures
        r@ == ehr_seq(n),
        r@.len() == fact(n as nat) - 1,
        forall|i: int| #![trigger r@[i]] 0 <= i < r@.len() ==> 1 <= r@[i] < n,
{
    let mut r: Vec<usize> = Vec::new();
    let mut c: Vec<usize> = Vec::new();
    let mut b: Vec<usize> = Vec::new();
    let mut i: usize = 0;
    while i < n + 1
        invariant
            i <= n + 1,
            c@ == Seq::new(i as nat, |j: int| 0usize),
        decreases n + 1 - i,
    {
        c.push(0);
        proof {
            assert(c@ =~= Seq::new(i as nat + 1, |j: int| 0usize));
        }
        i = i + 1;
    }
    let mut i: usize = 0;
    while i < n
        invariant
            i <= n,
            b@ == Seq::new(i as nat, |j: int| j as usize),
        decreases n - i,
    {
        b.push(i);
        proof {
            assert(b@ =~= Seq::new(i as nat + 1, |j: int| j as usize));
        }
        i = i + 1;
    }
    proof {
        lemma_fact_pos(n as nat);
        lemma_cval_zero_prefix(c@, n as nat);
        assert(r@ + ehr_seq_rec(c@, b@, n as nat, fact(n as nat)) =~= ehr_seq(n));
    }
    #[verifier::loop_isolation(true)]
    loop
        invariant_except_break
            n >= 1,
            c@.len() == n + 1,
            b@.len() == n,
            forall|j: int| 1 <= j <= n ==> c@[j] <= j,
            c@[n as int] == 0,
            forall|j: int| #![trigger b@[j]] 1 <= j < n ==> 1 <= b@[j] < n,
            cval(c@, n as nat) == r@.len(),
            ehr_seq(n) == r@ + ehr_seq_rec(
                c@,
                b@,
                n as nat,
                (fact(n as nat) - r@.len()) as nat,
            ),
            forall|i: int| #![trigger r@[i]] 0 <= i < r@.len() ==> 1 <= r@[i] < n,
        ensures
            r@ == ehr_seq(n),
            r@.len() == fact(n as nat) - 1,
            forall|i: int| #![trigger r@[i]] 0 <= i < r@.len() ==> 1 <= r@[i] < n,
        decreases fact(n as nat) - r@.len(),
    {
        let ghost cpre = c@;
        let ghost rlen: nat = r@.len();
        proof {
            lemma_cval_bound(cpre, (n - 1) as nat);
            assert(cval(cpre, n as nat) == cval(cpre, (n - 1) as nat));
            assert(rlen <= fact(n as nat) - 1);
        }
        let k = scan_counters(&mut c, n);
        if k == n {
            proof {
                lemma_cval_max_prefix(cpre, (n - 1) as nat);
                assert(rlen == fact(n as nat) - 1);
                let fuel = (fact(n as nat) - rlen) as nat;
                assert(fuel == 1);
                assert(ehr_seq_rec(cpre, b@, n as nat, fuel) =~= Seq::<usize>::empty());
                assert(r@ + Seq::<usize>::empty() =~= r@);
            }
            break ;
        }
        let ghost bpre = b@;
        let ghost rpre = r@;
        let ck: usize = c[k];
        c[k] = ck + 1;
        let mv: usize = b[k];
        r.push(mv);
        reverse_prefix(&mut b, k);
        proof {
            assert(c@ =~= ehr_step_c(cpre, k as nat));
            lemma_cval_step(cpre, k as nat, n as nat);
            let fuel = (fact(n as nat) - rlen) as nat;
            assert(fuel >= 1);
            assert(ehr_seq_rec(cpre, bpre, n as nat, fuel) == seq![bpre[k as int]] + ehr_seq_rec(
                c@,
                b@,
                n as nat,
                (fuel - 1) as nat,
            ));
            let rest = ehr_seq_rec(c@, b@, n as nat, (fuel - 1) as nat);
            assert(rpre + (seq![mv] + rest) =~= (rpre + seq![mv]) + rest);
            assert(rpre.push(mv) =~= rpre + seq![mv]);
            assert(ehr_seq(n) == r@ + rest);
        }
    }
    r
}

} // verus!
