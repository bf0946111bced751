//! Combination generator: counting oracle and revolving-door move stream.

use vstd::prelude::*;

verus! {

/// The binomial coefficient by Pascal's rule.
pub open spec fn binom(n: nat, k: nat) -> nat
    decreases n,
{
    if k == 0 {
        1
    } else if k >= n {
        if k == n {
            1
        } else {
            0
        }
    } else {
        binom((n - 1) as nat, (k - 1) as nat) + binom((n - 1) as nat, k)
    }
}

/// The object count used by the combination generator: degenerate parameters
/// (`k == 0` or `k >= n`) stand for a single trivial object.
pub open spec fn comb_count(n: nat, k: nat) -> nat {
    if k >= n || k == 0 {
        1
    } else {
        binom(n, k)
    }
}

/// The number of `k`-subsets of an `n`-set, with degenerate parameters
/// counted as a single trivial object.
pub fn comb(n: usize, k: usize) -> (r: usize)
    requires
        comb_count(n as nat, k as nat) <= usize::MAX,
    ensures
        r as nat == comb_count(n as nat, k as nat),
{
    if k >= n || k == 0 {
        1
    } else {
        comb_recur(n, k)
    }
}

fn comb_recur(n: usize, k: usize) -> (r: usize)
    requires
        0 < k < n,
        binom(n as nat, k as nat) <= usize::MAX,
    ensures
        r as nat == binom(n as nat, k as nat),
    decreases n,
{
    proof {
        assert(binom(n as nat, k as nat) == binom((n - 1) as nat, (k - 1) as nat) + binom(
            (n - 1) as nat,
            k as nat,
        ));
    }
    let n1 = n - 1;
    let a = if k == 1 {
        1
    } else {
        comb_recur(n1, k - 1)
    };
    let b = if k == n1 {
        1
    } else {
        comb_recur(n1, k)
    };
    a + b
}

/// Upward run of adjacent characteristic-vector swaps `(i, i + 1)` for `i`
/// from `0` to `m - 1`: it walks a single one-entry up the vector.
pub open spec fn asc_pairs(m: usize) -> Seq<(usize, usize)> {
    Seq::new(m as nat, |i: int| (i as usize, (i + 1) as usize))
}

/// Downward run of adjacent characteristic-vector swaps `(i + 1, i)` for `i`
/// from `m - 1` down to `0`: it walks a single one-entry down the vector.
pub open spec fn desc_pairs(m: usize) -> Seq<(usize, usize)> {
    Seq::new(m as nat, |i: int| ((m - i) as usize, (m - 1 - i) as usize))
}

/// The revolving-door list for even `k` with `2 <= k < n`: the walk over all
/// `k`-subsets of an `n`-set whose first and last subsets are the two
/// boundary configurations that the parent recursion splices against.
pub open spec fn emk_ge(n: usize, k: usize) -> Seq<(usize, usize)>
    decreases n,
{
    if !(2 <= k && k < n) {
        Seq::empty()
    } else {
        (if k >= n - 1 {
            seq![((n - 2) as usize, (n - 1) as usize)]
        } else {
            emk_ge((n - 1) as usize, k) + seq![((n - 2) as usize, (n - 1) as usize)] + (if k == 2 {
                desc_pairs((n - 3) as usize)
            } else {
                emk_no((n - 2) as usize, (k - 1) as usize)
            })
        }) + seq![((k - 2) as usize, (n - 2) as usize)] + (if k != 2 {
            emk_ge((n - 2) as usize, (k - 2) as usize)
        } else {
            Seq::empty()
        })
    }
}

/// The revolving-door list for odd `k` with `3 <= k < n`.
pub open spec fn emk_go(n: usize, k: usize) -> Seq<(usize, usize)>
    decreases n,
{
    if !(3 <= k && k < n) {
        Seq::empty()
    } else {
        (if k < n - 1 {
            emk_go((n - 1) as usize, k) + seq![((n - 2) as usize, (n - 1) as usize)] + emk_ne(
                (n - 2) as usize,
                (k - 1) as usize,
            )
        } else {
            seq![((n - 2) as usize, (n - 1) as usize)]
        }) + seq![((k - 2) as usize, (n - 2) as usize)] + (if k == 3 {
            asc_pairs((n - 3) as usize)
        } else {
            emk_go((n - 2) as usize, (k - 2) as usize)
        })
    }
}

/// The mirrored revolving-door list for even `k`: the same walk as `emk_ge`,
/// traversed so that its first subset is `emk_ge`'s last.
pub open spec fn emk_ne(n: usize, k: usize) -> Seq<(usize, usize)>
    decreases n,
{
    if !(2 <= k && k < n) {
        Seq::empty()
    } else {
        (if k != 2 {
            emk_ne((n - 2) as usize, (k - 2) as usize)
        } else {
            Seq::empty()
        }) + seq![((n - 2) as usize, (k - 2) as usize)] + (if k < n - 1 {
            (if k != 2 {
                emk_go((n - 2) as usize, (k - 1) as usize)
            } else {
                asc_pairs((n - 3) as usize)
            }) + seq![((n - 1) as usize, (n - 2) as usize)] + emk_ne((n - 1) as usize, k)
        } else {
            seq![((n - 1) as usize, (n - 2) as usize)]
        })
    }
}

/// The mirrored revolving-door list for odd `k`: the same walk as `emk_go`,
/// traversed so that its first subset is `emk_go`'s last.
pub open spec fn emk_no(n: usize, k: usize) -> Seq<(usize, usize)>
    decreases n,
{
    if !(3 <= k && k < n) {
        Seq::empty()
    } else {
        (if k == 3 {
            desc_pairs((n - 3) as usize)
        } else {
            emk_no((n - 2) as usize, (k - 2) as usize)
        }) + seq![((n - 2) as usize, (k - 2) as usize)] + (if k >= n - 1 {
            seq![((n - 1) as usize, (n - 2) as usize)]
        } else {
            emk_ge((n - 2) as usize, (k - 1) as usize) + seq![((n - 1) as usize, (n - 2) as usize)]
                + emk_no((n - 1) as usize, k)
        })
    }
}

/// The full revolving-door move list: empty on degenerate parameters, a single
/// upward run for `k == 1`, and the parity-matched recursive walk otherwise.
pub open spec fn emk_comb_seq(n: usize, k: usize) -> Seq<(usize, usize)> {
    if n <= k || k == 0 {
        Seq::empty()
    } else if k == 1 {
        asc_pairs((n - 1) as usize)
    } else if k % 2 == 0 {
        emk_ge(n, k)
    } else {
        emk_go(n, k)
    }
}

/// The characteristic vector after swapping entries `i` and `j`.
pub open spec fn swap_at(v: Seq<bool>, i: int, j: int) -> Seq<bool> {
    v.update(i, v[j]).update(j, v[i])
}

/// The run of characteristic vectors visited by applying the swaps in order,
/// starting from `v`: one entry before any swap and one after each swap.
pub open spec fn swap_trace(v: Seq<bool>, ms: Seq<(usize, usize)>) -> Seq<Seq<bool>>
    decreases ms.len(),
{
    if ms.len() == 0 {
        seq![v]
    } else {
        seq![v] + swap_trace(swap_at(v, ms[0].0 as int, ms[0].1 as int), ms.drop_first())
    }
}

/// Exactly the entry at `x` is set: the vector describes the one-element
/// subset `{x}`.
pub open spec fn singleton_at(v: Seq<bool>, x: int) -> bool {
    0 <= x < v.len() && v[x] && (forall|j: int|
        #![trigger v[j]]
        0 <= j < v.len() && j != x ==> !v[j])
}

proof fn lemma_single_walk(n: usize, p: usize, v: Seq<bool>)
    requires
        v.len() == n,
        p < n,
        singleton_at(v, p as int),
    ensures
        ({
            let t = swap_trace(v, asc_pairs((n - 1) as usize).skip(p as int));
            &&& t.len() == n - p
            &&& forall|i: int|
                0 <= i < t.len() ==> (#[trigger] t[i]).len() == n && singleton_at(t[i], p + i)
        }),
    decreases n - p,
{
    let ms = asc_pairs((n - 1) as usize).skip(p as int);
    let t = swap_trace(v, ms);
    if p + 1 < n {
        assert(ms[0] == (p, (p + 1) as usize));
        let v1 = swap_at(v, p as int, p + 1);
        assert(singleton_at(v1, p + 1));
        assert(ms.drop_first() =~= asc_pairs((n - 1) as usize).skip(p + 1));
        lemma_single_walk(n, (p + 1) as usize, v1);
        let t1 = swap_trace(v1, ms.drop_first());
        assert(t == seq![v] + t1);
        assert forall|i: int|
            0 <= i < t.len() implies (#[trigger] t[i]).len() == n && singleton_at(t[i], p + i) by {
            if i > 0 {
                assert(t[i] == t1[i - 1]);
            }
        }
    } else {
        assert(ms.len() == 0);
        assert(t == seq![v]);
    }
}

/// The Gray-code property of the single-element walk: for `k == 1` the
/// revolving-door stream carries the subset `{0}` through `{1}`, `{2}`, ...,
/// `{n-1}`, so every one-element subset of the `n`-set is visited exactly
/// once, and each swap moves the occupied entry to the adjacent position.
pub proof fn theorem_emk_single_gray_code(n: usize)
    requires
        1 <= n,
    ensures
        ({
            let start = Seq::new(n as nat, |j: int| j == 0);
            let t = swap_trace(start, emk_comb_seq(n, 1));
            &&& t.len() == n
            &&& t[0] == start
            &&& forall|i: int| 0 <= i < t.len() ==> singleton_at(#[trigger] t[i], i)
            &&& forall|i: int, j: int| 0 <= i < j < t.len() ==> t[i] != t[j]
            &&& forall|w: Seq<bool>|
                w.len() == n && (exists|x: int| singleton_at(w, x)) ==> exists|i: int|
                    0 <= i < t.len() && t[i] == w
        }),
{
    let start = Seq::new(n as nat, |j: int| j == 0);
    let t = swap_trace(start, emk_comb_seq(n, 1));
    if n == 1 {
        assert(emk_comb_seq(n, 1) == Seq::<(usize, usize)>::empty());
        assert(t == seq![start]);
        assert(singleton_at(start, 0));
        assert forall|w: Seq<bool>|
            w.len() == n && (exists|x: int| singleton_at(w, x)) implies exists|i: int|
            0 <= i < t.len() && t[i] == w by {
            let x = choose|x: int| singleton_at(w, x);
            assert(x == 0);
            assert(w =~= start);
            assert(t[0] == w);
        }
    } else {
        assert(singleton_at(start, 0));
        assert(emk_comb_seq(n, 1) == asc_pairs((n - 1) as usize));
        assert(asc_pairs((n - 1) as usize).skip(0) =~= asc_pairs((n - 1) as usize));
        lemma_single_walk(n, 0, start);
        assert forall|i: int, j: int| 0 <= i < j < t.len() implies t[i] != t[j] by {
            assert(singleton_at(t[i], i));
            assert(singleton_at(t[j], j));
            assert(t[i][i]);
            assert(!t[j][i]);
        }
        assert forall|w: Seq<bool>|
            w.len() == n && (exists|x: int| singleton_at(w, x)) implies exists|i: int|
            0 <= i < t.len() && t[i] == w by {
            let x = choose|x: int| singleton_at(w, x);
            assert(singleton_at(t[x], x));
            assert(w =~= t[x]);
        }
    }
}

proof fn lemma_binom_pos(n: nat, k: nat)
    requires
        k <= n,
    ensures
        binom(n, k) >= 1,
    decreases n,
{
    if 0 < k < n {
        lemma_binom_pos((n - 1) as nat, k);
    }
}

proof fn lemma_binom_1(n: nat)
    requires
        n >= 1,
    ensures
        binom(n, 1) == n,
    decreases n,
{
    if n > 1 {
        lemma_binom_1((n - 1) as nat);
        assert(binom((n - 1) as nat, 0) == 1);
    }
}

proof fn lemma_binom_top(n: nat)
    requires
        n >= 1,
    ensures
        binom(n, (n - 1) as nat) == n,
    decreases n,
{
    if n > 1 {
        lemma_binom_top((n - 1) as nat);
        assert(binom((n - 1) as nat, (n - 1) as nat) == 1);
    }
}

fn push_asc_pairs(r: &mut Vec<(usize, usize)>, m: usize)
    ensures
        final(r)@ == old(r)@ + asc_pairs(m),
{
    let ghost r0 = old(r)@;
    let mut j: usize = 0;
    while j < m
        invariant
            j <= m,
            r@ == r0 + asc_pairs(m).subrange(0, j as int),
        decreases m - j,
    {
        r.push((j, j + 1));
        proof {
            let a = asc_pairs(m);
            assert(a.subrange(0, j + 1) =~= a.subrange(0, j as int).push(a[j as int]));
            assert(r0 + a.subrange(0, j as int).push(a[j as int]) =~= (r0 + a.subrange(
                0,
                j as int,
            )).push(a[j as int]));
        }
        j = j + 1;
    }
    proof {
        assert(asc_pairs(m).subrange(0, m as int) =~= asc_pairs(m));
    }
}

fn push_desc_pairs(r: &mut Vec<(usize, usize)>, m: usize)
    ensures
        final(r)@ == old(r)@ + desc_pairs(m),
{
    let ghost r0 = old(r)@;
    let mut j: usize = 0;
    while j < m
        invariant
            j <= m,
            r@ == r0 + desc_pairs(m).subrange(0, j as int),
        decreases m - j,
    {
        r.push((m - j, m - j - 1));
        proof {
            let d = desc_pairs(m);
            assert(d.subrange(0, j + 1) =~= d.subrange(0, j as int).push(d[j as int]));
            assert(r0 + d.subrange(0, j as int).push(d[j as int]) =~= (r0 + d.subrange(
                0,
                j as int,
            )).push(d[j as int]));
        }
        j = j + 1;
    }
    proof {
        assert(desc_pairs(m).subrange(0, m as int) =~= desc_pairs(m));
    }
}

/// The even-`k` revolving-door generator.  Swapping characteristic-vector
/// entries `r[i].0` and `r[i].1` carries the subset walk one step; the stream
/// has `binom(n, k) - 1` entries.
#[verifier::rlimit(100)]
pub fn emk_gen_even(n: usize, k: usize) -> (r: Vec<(usize, usize)>)
    requires
        2 <= k < n,
        k % 2 == 0,
    ensures
        r@ == emk_ge(n, k),
        r@.len() == binom(n as nat, k as nat) - 1,
        forall|i: int| #![trigger r@[i]]
            0 <= i < r@.len() ==> r@[i].0 < n && r@[i].1 < n && r@[i].0 != r@[i].1,
    decreases n,
{
    let mut r: Vec<(usize, usize)> = Vec::new();
    if k >= n - 1 {
        r.push((n - 2, n - 1));
    } else {
        let mut tail = emk_gen_even(n - 1, k);
        r.append(&mut tail);
        r.push((n - 2, n - 1));
        if k == 2 {
            push_desc_pairs(&mut r, n - 3);
        } else {
            let mut tail = emk_neg_odd(n - 2, k - 1);
            r.append(&mut tail);
        }
    }
    r.push((k - 2, n - 2));
    if k != 2 {
        let mut tail = emk_gen_even(n - 2, k - 2);
        r.append(&mut tail);
    }
    proof {
        assert(r@ =~= emk_ge(n, k));
        lemma_binom_pos((n - 1) as nat, k as nat);
        if k >= n - 1 {
            lemma_binom_top(n as nat);
            if k != 2 {
                lemma_binom_top((n - 2) as nat);
            }
        } else {
            assert(binom(n as nat, k as nat) == binom((n - 1) as nat, (k - 1) as nat) + binom(
                (n - 1) as nat,
                k as nat,
            ));
            assert(binom((n - 1) as nat, (k - 1) as nat) == binom((n - 2) as nat, (k - 2) as nat)
                + binom((n - 2) as nat, (k - 1) as nat));
            if k == 2 {
                lemma_binom_1((n - 2) as nat);
            } else {
                lemma_binom_pos((n - 2) as nat, (k - 1) as nat);
                lemma_binom_pos((n - 2) as nat, (k - 2) as nat);
            }
        }
    }
    r
}

/// The odd-`k` revolving-door generator; same reading as `emk_gen_even`.
#[verifier::rlimit(100)]
pub fn emk_gen_odd(n: usize, k: usize) -> (r: Vec<(usize, usize)>)
    requires
        3 <= k < n,
        k % 2 == 1,
    ensures
        r@ == emk_go(n, k),
        r@.len() == binom(n as nat, k as nat) - 1,
        forall|i: int| #![trigger r@[i]]
            0 <= i < r@.len() ==> r@[i].0 < n && r@[i].1 < n && r@[i].0 != r@[i].1,
    decreases n,
{
    let mut r: Vec<(usize, usize)> = Vec::new();
    if k < n - 1 {
        let mut tail = emk_gen_odd(n - 1, k);
        r.append(&mut tail);
        r.push((n - 2, n - 1));
        let mut tail = emk_neg_even(n - 2, k - 1);
        r.append(&mut tail);
    } else {
        r.push((n - 2, n - 1));
    }
    r.push((k - 2, n - 2));
    if k == 3 {
        push_asc_pairs(&mut r, n - 3);
    } else {
        let mut tail = emk_gen_odd(n - 2, k - 2);
        r.append(&mut tail);
    }
    proof {
        assert(r@ =~= emk_go(n, k));
        if k >= n - 1 {
            lemma_binom_top(n as nat);
            if k != 3 {
                lemma_binom_top((n - 2) as nat);
            } else {
                lemma_binom_top(3nat);
            }
        } else {
            assert(binom(n as nat, k as nat) == binom((n - 1) as nat, (k - 1) as nat) + binom(
                (n - 1) as nat,
                k as nat,
            ));
            assert(binom((n - 1) as nat, (k - 1) as nat) == binom((n - 2) as nat, (k - 2) as nat)
                + binom((n - 2) as nat, (k - 1) as nat));
            lemma_binom_pos((n - 1) as nat, k as nat);
            lemma_binom_pos((n - 2) as nat, (k - 1) as nat);
            if k == 3 {
                lemma_binom_1((n - 2) as nat);
            } else {
                lemma_binom_pos((n - 2) as nat, (k - 2) as nat);
            }
        }
    }
    r
}

#[verifier::rlimit(100)]
fn emk_neg_even(n: usize, k: usize) -> (r: Vec<(usize, usize)>)
    requires
        2 <= k < n,
        k % 2 == 0,
    ensures
        r@ == emk_ne(n, k),
        r@.len() == binom(n as nat, k as nat) - 1,
        forall|i: int| #![trigger r@[i]]
            0 <= i < r@.len() ==> r@[i].0 < n && r@[i].1 < n && r@[i].0 != r@[i].1,
    decreases n,
{
    let mut r: Vec<(usize, usize)> = Vec::new();
    if k != 2 {
        let mut tail = emk_neg_even(n - 2, k - 2);
        r.append(&mut tail);
    }
    r.push((n - 2, k - 2));
    if k < n - 1 {
        if k != 2 {
            let mut tail = emk_gen_odd(n - 2, k - 1);
            r.append(&mut tail);
        } else {
            push_asc_pairs(&mut r, n - 3);
        }
        r.push((n - 1, n - 2));
        let mut tail = emk_neg_even(n - 1, k);
        r.append(&mut tail);
    } else {
        r.push((n - 1, n - 2));
    }
    proof {
        assert(r@ =~= emk_ne(n, k));
        if k >= n - 1 {
            lemma_binom_top(n as nat);
            if k != 2 {
                lemma_binom_top((n - 2) as nat);
            }
        } else {
            assert(binom(n as nat, k as nat) == binom((n - 1) as nat, (k - 1) as nat) + binom(
                (n - 1) as nat,
                k as nat,
            ));
            assert(binom((n - 1) as nat, (k - 1) as nat) == binom((n - 2) as nat, (k - 2) as nat)
                + binom((n - 2) as nat, (k - 1) as nat));
            lemma_binom_pos((n - 1) as nat, k as nat);
            lemma_binom_pos((n - 2) as nat, (k - 1) as nat);
            if k == 2 {
                lemma_binom_1((n - 2) as nat);
            } else {
                lemma_binom_pos((n - 2) as nat, (k - 2) as nat);
            }
        }
    }
    r
}

#[verifier::rlimit(100)]
fn emk_neg_odd(n: usize, k: usize) -> (r: Vec<(usize, usize)>)
    requires
        3 <= k < n,
        k % 2 == 1,
    ensures
        r@ == emk_no(n, k),
        r@.len() == binom(n as nat, k as nat) - 1,
        forall|i: int| #![trigger r@[i]]
            0 <= i < r@.len() ==> r@[i].0 < n && r@[i].1 < n && r@[i].0 != r@[i].1,
    decreases n,
{
    let mut r: Vec<(usize, usize)> = Vec::new();
    if k == 3 {
        push_desc_pairs(&mut r, n - 3);
    } else {
        let mut tail = emk_neg_odd(n - 2, k - 2);
        r.append(&mut tail);
    }
    r.push((n - 2, k - 2));
    if k >= n - 1 {
        r.push((n - 1, n - 2));
    } else {
        let mut tail = emk_gen_even(n - 2, k - 1);
        r.append(&mut tail);
        r.push((n - 1, n - 2));
        let mut tail = emk_neg_odd(n - 1, k);
        r.append(&mut tail);
    }
    proof {
        assert(r@ =~= emk_no(n, k));
        if k >= n - 1 {
            lemma_binom_top(n as nat);
            if k != 3 {
                lemma_binom_top((n - 2) as nat);
            } else {
                lemma_binom_top(3nat);
            }
        } else {
            assert(binom(n as nat, k as nat) == binom((n - 1) as nat, (k - 1) as nat) + binom(
                (n - 1) as nat,
                k as nat,
            ));
            assert(binom((n - 1) as nat, (k - 1) as nat) == binom((n - 2) as nat, (k - 2) as nat)
                + binom((n - 2) as nat, (k - 1) as nat));
            lemma_binom_pos((n - 1) as nat, k as nat);
            lemma_binom_pos((n - 2) as nat, (k - 1) as nat);
            if k == 3 {
                lemma_binom_1((n - 2) as nat);
            } else {
                lemma_binom_pos((n - 2) as nat, (k - 2) as nat);
            }
        }
    }
    r
}

/// All `k`-subsets of an `n`-set by the homogeneous revolving-door walk.
/// Swapping characteristic-vector entries `r[i].0` and `r[i].1` (exactly one
/// of which holds a one) yields the next subset; starting from the vector
/// with ones in its first `k` positions, the stream visits all `binom(n, k)`
/// subsets, each exactly once.  Degenerate parameters (`k == 0` or `k >= n`)
/// describe a single trivial object, so the stream is empty.
#[verifier::rlimit(100)]
pub fn emk_comb_gen(n: usize, k: usize) -> (r: Vec<(usize, usize)>)
    ensures
        r@ == emk_comb_seq(n, k),
        r@.len() == comb_count(n as nat, k as nat) - 1,
        forall|i: int| #![trigger r@[i]]
            0 <= i < r@.len() ==> r@[i].0 < n && r@[i].1 < n && r@[i].0 != r@[i].1,
{
    let mut r: Vec<(usize, usize)> = Vec::new();
    if n <= k || k == 0 {
        proof {
            assert(r@ =~= emk_comb_seq(n, k));
        }
        return r;
    }
    if k == 1 {
        push_asc_pairs(&mut r, n - 1);
        proof {
            assert(Seq::<(usize, usize)>::empty() + asc_pairs((n - 1) as usize) =~= asc_pairs(
                (n - 1) as usize,
            ));
            lemma_binom_1(n as nat);
        }
        return r;
    }
    if k % 2 == 0 {
        emk_gen_even(n, k)
    } else {
        emk_gen_odd(n, k)
    }
}

} // verus!
