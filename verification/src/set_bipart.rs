//! Set bipartition generator: counting oracle and two-block move stream.

use vstd::prelude::*;

use crate::gray_code::bit_trace;
use crate::gray_code::lemma_bit_trace_concat;
use crate::gray_code::lemma_bit_trace_props;
use crate::gray_code::toggle;

verus! {

/// The number of partitions of an `n`-set into exactly two nonempty blocks,
/// with `n <= 2` standing for a single trivial object.
pub open spec fn stirling2(n: nat) -> nat
    decreases n,
{
    if n <= 2 {
        1
    } else {
        1 + 2 * stirling2((n - 1) as nat)
    }
}

/// The Stirling number of the second kind specialized to two blocks.
pub fn stirling2nd2(n: usize) -> (r: usize)
    requires
        stirling2(n as nat) <= usize::MAX,
    ensures
        r as nat == stirling2(n as nat),
    decreases n,
{
    if n <= 2 {
        1
    } else {
        let s = stirling2nd2(n - 1);
        1 + 2 * s
    }
}

/// The `S(n,2,1)` list of toggle moves: it carries a two-block partition from
/// the configuration `0 1 0 .. 0` through every two-block partition of `n`
/// elements in minimal-change order.
pub open spec fn bip_gen1(n: usize) -> Seq<usize>
    decreases n,
{
    if n < 3 {
        Seq::empty()
    } else {
        seq![2usize] + bip_neg1((n - 1) as usize) + seq![n] + bip_gen1((n - 1) as usize)
    }
}

/// The mirrored `S'(n,2,1)` list: the same walk as `bip_gen1`, traversed so
/// that its first configuration is `bip_gen1`'s last.
pub open spec fn bip_neg1(n: usize) -> Seq<usize>
    decreases n,
{
    if n < 3 {
        Seq::empty()
    } else {
        bip_neg1((n - 1) as usize) + seq![n] + bip_gen1((n - 1) as usize) + seq![2usize]
    }
}

/// The `S(n,2,0)` list: the top-level bipartition walk, starting from the
/// canonical configuration that holds only the last element in block 1.
pub open spec fn bip_gen0(n: usize) -> Seq<usize> {
    if n < 3 {
        Seq::empty()
    } else {
        seq![(n - 1) as usize] + bip_gen1((n - 1) as usize) + seq![n] + bip_neg1((n - 1) as usize)
    }
}

proof fn lemma_bip_len(n: usize)
    ensures
        bip_gen1(n).len() == stirling2(n as nat) - 1,
        bip_neg1(n).len() == stirling2(n as nat) - 1,
    decreases n,
{
    if n >= 3 {
        lemma_bip_len((n - 1) as usize);
    }
}

proof fn lemma_bip_bounds(n: usize)
    ensures
        forall|i: int| 0 <= i < bip_gen1(n).len() ==> 2 <= #[trigger] bip_gen1(n)[i] <= n,
        forall|i: int| 0 <= i < bip_neg1(n).len() ==> 2 <= #[trigger] bip_neg1(n)[i] <= n,
    decreases n,
{
    if n >= 3 {
        lemma_bip_bounds((n - 1) as usize);
        let m = (n - 1) as usize;
        let g = bip_gen1(n);
        assert forall|i: int| 0 <= i < g.len() implies 2 <= #[trigger] g[i] <= n by {
            let a = seq![2usize] + bip_neg1(m);
            let b = a + seq![n];
            assert(g == b + bip_gen1(m));
            if i < b.len() {
                if i < a.len() {
                    if i >= 1 {
                        assert(a[i] == bip_neg1(m)[i - 1]);
                    }
                } else {
                    assert(b[i] == n);
                }
            } else {
                assert(g[i] == bip_gen1(m)[i - b.len()]);
            }
        }
        let h = bip_neg1(n);
        assert forall|i: int| 0 <= i < h.len() implies 2 <= #[trigger] h[i] <= n by {
            let a = bip_neg1(m) + seq![n];
            let b = a + bip_gen1(m);
            assert(h == b + seq![2usize]);
            if i < b.len() {
                if i < a.len() {
                    if i < a.len() - 1 {
                        assert(a[i] == bip_neg1(m)[i]);
                    } else {
                        assert(a[i] == n);
                    }
                } else {
                    assert(b[i] == bip_gen1(m)[i - a.len()]);
                }
            } else {
                assert(h[i] == 2);
            }
        }
    }
}

/// `w` differs from `v` nowhere outside positions `lo..=hi`.
pub open spec fn same_outside(w: Seq<bool>, v: Seq<bool>, lo: int, hi: int) -> bool {
    w.len() == v.len() && (forall|j: int|
        #![trigger w[j]]
        0 <= j < v.len() && !(lo <= j <= hi) ==> w[j] == v[j])
}

/// Some element among positions `lo..=hi` sits in block 1, so that block is
/// nonempty.
pub open spec fn occupied(w: Seq<bool>, lo: int, hi: int) -> bool {
    exists|j: int| #![trigger w[j]] lo <= j <= hi && w[j]
}

/// Position `x` is the only one among `lo..=hi` sitting in block 1.
pub open spec fn solo(w: Seq<bool>, x: int, lo: int, hi: int) -> bool {
    lo <= x <= hi && w[x] && (forall|j: int|
        #![trigger w[j]]
        lo <= j <= hi && j != x ==> !w[j])
}

/// The configuration run `t` is a Gray-code walk from `v` over the two-block
/// partitions of elements `2..=n` relative to `v`: it has one entry per
/// partition, touches only positions `2..=n`, keeps block 1 nonempty, never
/// repeats a configuration, and reaches every such configuration.
pub open spec fn bip_trace_ok(t: Seq<Seq<bool>>, v: Seq<bool>, n: usize) -> bool {
    &&& t.len() == stirling2(n as nat)
    &&& t.len() >= 1 && t[0] == v
    &&& forall|i: int|
        #![trigger t[i]]
        0 <= i < t.len() ==> same_outside(t[i], v, 2, n as int) && occupied(t[i], 2, n as int)
    &&& forall|i: int, j: int| 0 <= i < j < t.len() ==> t[i] != t[j]
    &&& forall|w: Seq<bool>|
        same_outside(w, v, 2, n as int) && occupied(w, 2, n as int) ==> exists|i: int|
            0 <= i < t.len() && t[i] == w
}

proof fn lemma_trace_peel(v: Seq<bool>, x: usize, rest: Seq<usize>)
    ensures
        bit_trace(v, seq![x] + rest) == seq![v] + bit_trace(toggle(v, x as int), rest),
{
    let ms = seq![x] + rest;
    assert(ms[0] == x);
    assert(ms.drop_first() =~= rest);
}

proof fn lemma_bip_base_trace(n: usize, v: Seq<bool>, ms: Seq<usize>)
    requires
        n == 2,
        n < v.len(),
        solo(v, 2, 2, n as int),
        ms == Seq::<usize>::empty(),
    ensures
        bip_trace_ok(bit_trace(v, ms), v, n),
{
    let t = bit_trace(v, ms);
    assert(t == seq![v]);
    assert forall|w: Seq<bool>|
        same_outside(w, v, 2, n as int) && occupied(w, 2, n as int) implies exists|i: int|
        0 <= i < t.len() && t[i] == w by {
        assert(w[2]);
        assert(w =~= v);
        assert(t[0] == w);
    }
}

#[verifier::rlimit(100)]
proof fn lemma_bip_split_glue(n: usize, x: usize, v: Seq<bool>, t1: Seq<Seq<bool>>, t2: Seq<
    Seq<bool>,
>)
    requires
        3 <= n,
        n < v.len(),
        2 <= x < n,
        solo(v, n as int, 2, n as int),
        bip_trace_ok(t1, toggle(v, x as int), (n - 1) as usize),
        bip_trace_ok(t2, toggle(t1.last(), n as int), (n - 1) as usize),
    ensures
        bip_trace_ok(seq![v] + t1 + t2, v, n),
        (seq![v] + t1 + t2).last() == t2.last(),
{
    let nn = (n - 1) as usize;
    let v1 = toggle(v, x as int);
    let u = t1.last();
    let u2 = toggle(u, n as int);
    let t = seq![v] + t1 + t2;
    let c1 = 1 + t1.len() as int;
    assert(v1[n as int] == v[n as int]);
    assert(v1[n as int]);
    assert(u[n as int] == v1[n as int]);
    assert(u2[n as int] == !u[n as int]);

    assert forall|i: int| 0 <= i < t.len() implies same_outside(#[trigger] t[i], v, 2, n as int)
        && occupied(t[i], 2, n as int) by {
        if i == 0 {
            assert(t[i] == v);
            assert(v[n as int]);
        } else if i < c1 {
            assert(t[i] == t1[i - 1]);
            assert(same_outside(t1[i - 1], v1, 2, nn as int));
            assert(t1[i - 1][n as int] == v1[n as int]);
            assert(occupied(t[i], 2, n as int));
            assert forall|j2: int|
                0 <= j2 < v.len() && !(2 <= j2 <= n as int) implies t[i][j2] == v[j2] by {
                assert(t[i][j2] == v1[j2]);
            }
        } else {
            assert(t[i] == t2[i - c1]);
            assert(same_outside(t2[i - c1], u2, 2, nn as int));
            assert(occupied(t2[i - c1], 2, nn as int));
            let j = choose|j: int| #![trigger t2[i - c1][j]] 2 <= j <= nn as int && t2[i - c1][j];
            assert(occupied(t[i], 2, n as int));
            assert forall|j2: int|
                0 <= j2 < v.len() && !(2 <= j2 <= n as int) implies t[i][j2] == v[j2] by {
                assert(t[i][j2] == u2[j2]);
                assert(u2[j2] == u[j2]);
                assert(u[j2] == v1[j2]);
            }
        }
    }

    assert forall|i: int, j: int| 0 <= i < j < t.len() implies t[i] != t[j] by {
        if i == 0 {
            if j < c1 {
                assert(t[j] == t1[j - 1]);
                assert(occupied(t1[j - 1], 2, nn as int));
                let w = choose|w: int| #![trigger t1[j - 1][w]] 2 <= w <= nn as int && t1[j - 1][w];
                assert(!v[w]);
            } else {
                assert(t[j] == t2[j - c1]);
                assert(t2[j - c1][n as int] == u2[n as int]);
                assert(v[n as int]);
            }
        } else if j < c1 {
            assert(t[i] == t1[i - 1] && t[j] == t1[j - 1]);
        } else if i >= c1 {
            assert(t[i] == t2[i - c1] && t[j] == t2[j - c1]);
        } else {
            assert(t[i] == t1[i - 1] && t[j] == t2[j - c1]);
            assert(t1[i - 1][n as int] == v1[n as int]);
            assert(t2[j - c1][n as int] == u2[n as int]);
        }
    }

    assert forall|w: Seq<bool>|
        same_outside(w, v, 2, n as int) && occupied(w, 2, n as int) implies exists|i: int|
        0 <= i < t.len() && t[i] == w by {
        if w[n as int] {
            if occupied(w, 2, nn as int) {
                assert(same_outside(w, v1, 2, nn as int));
                let i = choose|i: int| 0 <= i < t1.len() && t1[i] == w;
                assert(t[i + 1] == w);
            } else {
                assert(w =~= v);
                assert(t[0] == w);
            }
        } else {
            let j = choose|j: int| #![trigger w[j]] 2 <= j <= n as int && w[j];
            assert(occupied(w, 2, nn as int));
            assert(same_outside(w, u2, 2, nn as int));
            let i = choose|i: int| 0 <= i < t2.len() && t2[i] == w;
            assert(t[c1 + i] == w);
        }
    }

    assert(t.last() == t2.last());
}

#[verifier::rlimit(100)]
proof fn lemma_bip_neg1_glue(n: usize, v: Seq<bool>, t1: Seq<Seq<bool>>, t2: Seq<Seq<bool>>)
    requires
        3 <= n,
        n < v.len(),
        solo(v, 2, 2, n as int),
        bip_trace_ok(t1, v, (n - 1) as usize),
        solo(t1.last(), (n - 1) as int, 2, (n - 1) as int),
        bip_trace_ok(t2, toggle(t1.last(), n as int), (n - 1) as usize),
        solo(t2.last(), 2, 2, (n - 1) as int),
    ensures
        bip_trace_ok(t1 + t2 + seq![toggle(t2.last(), 2)], v, n),
        solo((t1 + t2 + seq![toggle(t2.last(), 2)]).last(), n as int, 2, n as int),
{
    let nn = (n - 1) as usize;
    let u = t1.last();
    let u2 = toggle(u, n as int);
    let w2 = t2.last();
    let fin = toggle(w2, 2);
    let t = t1 + t2 + seq![fin];
    let c1 = t1.len() as int;
    let c2 = c1 + t2.len() as int;

    assert(u[n as int] == v[n as int]);
    assert(!v[n as int]);
    assert(u2[n as int]);
    assert(w2[n as int] == u2[n as int]);
    assert(fin[n as int] == w2[n as int]);
    assert(solo(w2, 2, 2, nn as int));
    assert forall|j: int| 2 <= j < n as int implies !fin[j] by {
        if j == 2 {
            assert(fin[2] == !w2[2]);
        } else {
            assert(fin[j] == w2[j]);
            assert(!w2[j]);
        }
    }
    assert(solo(fin, n as int, 2, n as int));

    assert forall|i: int| 0 <= i < t.len() implies same_outside(#[trigger] t[i], v, 2, n as int)
        && occupied(t[i], 2, n as int) by {
        if i < c1 {
            assert(t[i] == t1[i]);
            assert(same_outside(t1[i], v, 2, nn as int));
            assert(occupied(t1[i], 2, nn as int));
            let j = choose|j: int| #![trigger t1[i][j]] 2 <= j <= nn as int && t1[i][j];
            assert(occupied(t[i], 2, n as int));
        } else if i < c2 {
            assert(t[i] == t2[i - c1]);
            assert(same_outside(t2[i - c1], u2, 2, nn as int));
            assert(t2[i - c1][n as int] == u2[n as int]);
            assert(occupied(t[i], 2, n as int));
            assert forall|j2: int|
                0 <= j2 < v.len() && !(2 <= j2 <= n as int) implies t[i][j2] == v[j2] by {
                assert(t[i][j2] == u2[j2]);
                assert(u2[j2] == u[j2]);
            }
        } else {
            assert(t[i] == fin);
            assert(fin[n as int]);
            assert(occupied(t[i], 2, n as int));
            assert forall|j2: int|
                0 <= j2 < v.len() && !(2 <= j2 <= n as int) implies t[i][j2] == v[j2] by {
                assert(fin[j2] == w2[j2]);
                assert(w2[j2] == u2[j2]);
                assert(u2[j2] == u[j2]);
            }
        }
    }

    assert forall|i: int, j: int| 0 <= i < j < t.len() implies t[i] != t[j] by {
        if j < c1 {
            assert(t[i] == t1[i] && t[j] == t1[j]);
        } else if i < c1 {
            assert(t[i] == t1[i]);
            assert(t1[i][n as int] == v[n as int]);
            if j < c2 {
                assert(t[j] == t2[j - c1]);
                assert(t2[j - c1][n as int] == u2[n as int]);
            } else {
                assert(t[j] == fin);
            }
        } else if j < c2 {
            assert(t[i] == t2[i - c1] && t[j] == t2[j - c1]);
        } else if i < c2 {
            assert(t[i] == t2[i - c1] && t[j] == fin);
            assert(occupied(t2[i - c1], 2, nn as int));
            let w = choose|w: int| #![trigger t2[i - c1][w]] 2 <= w <= nn as int && t2[i - c1][w];
            assert(!fin[w]);
        }
    }

    assert forall|w: Seq<bool>|
        same_outside(w, v, 2, n as int) && occupied(w, 2, n as int) implies exists|i: int|
        0 <= i < t.len() && t[i] == w by {
        if !w[n as int] {
            let j = choose|j: int| #![trigger w[j]] 2 <= j <= n as int && w[j];
            assert(occupied(w, 2, nn as int));
            assert(same_outside(w, v, 2, nn as int));
            let i = choose|i: int| 0 <= i < t1.len() && t1[i] == w;
            assert(t[i] == w);
        } else if occupied(w, 2, nn as int) {
            assert(same_outside(w, u2, 2, nn as int));
            let i = choose|i: int| 0 <= i < t2.len() && t2[i] == w;
            assert(t[c1 + i] == w);
        } else {
            assert(w =~= fin);
            assert(t[c2] == w);
        }
    }

    assert(t.last() == fin);
}

#[verifier::rlimit(100)]
proof fn lemma_bip_gen1_trace(n: usize, v: Seq<bool>)
    requires
        2 <= n,
        n < v.len(),
        solo(v, n as int, 2, n as int),
    ensures
        bip_trace_ok(bit_trace(v, bip_gen1(n)), v, n),
        solo(bit_trace(v, bip_gen1(n)).last(), 2, 2, n as int),
    decreases n,
{
    let t = bit_trace(v, bip_gen1(n));
    if n == 2 {
        assert(bip_gen1(n) == Seq::<usize>::empty());
        lemma_bip_base_trace(n, v, bip_gen1(n));
    } else {
        let nn = (n - 1) as usize;
        let tail2 = seq![n] + bip_gen1(nn);
        let tail1 = bip_neg1(nn) + tail2;
        assert(bip_gen1(n) =~= seq![2usize] + tail1);
        lemma_trace_peel(v, 2, tail1);
        let v1 = toggle(v, 2);
        assert(solo(v1, 2, 2, nn as int));
        lemma_bip_neg1_trace(nn, v1);
        let t1 = bit_trace(v1, bip_neg1(nn));
        lemma_bit_trace_props(v1, bip_neg1(nn));
        lemma_bit_trace_concat(v1, bip_neg1(nn), tail2);
        let u = t1.last();
        lemma_trace_peel(u, n, bip_gen1(nn));
        let u2 = toggle(u, n as int);
        assert(solo(u2, nn as int, 2, nn as int));
        lemma_bip_gen1_trace(nn, u2);
        let t2 = bit_trace(u2, bip_gen1(nn));
        lemma_bit_trace_props(u2, bip_gen1(nn));
        assert(t == seq![v] + (t1.drop_last() + (seq![u] + t2)));
        assert(t =~= seq![v] + t1 + t2);
        lemma_bip_split_glue(n, 2, v, t1, t2);
        assert(t.last() == t2.last());
        assert(solo(t2.last(), 2, 2, nn as int));
        assert(t2.last()[n as int] == u2[n as int]);
        assert(solo(t.last(), 2, 2, n as int));
    }
}

#[verifier::rlimit(100)]
proof fn lemma_bip_neg1_trace(n: usize, v: Seq<bool>)
    requires
        2 <= n,
        n < v.len(),
        solo(v, 2, 2, n as int),
    ensures
        bip_trace_ok(bit_trace(v, bip_neg1(n)), v, n),
        solo(bit_trace(v, bip_neg1(n)).last(), n as int, 2, n as int),
    decreases n,
{
    let t = bit_trace(v, bip_neg1(n));
    if n == 2 {
        assert(bip_neg1(n) == Seq::<usize>::empty());
        lemma_bip_base_trace(n, v, bip_neg1(n));
    } else {
        let nn = (n - 1) as usize;
        let tail2 = seq![n] + (bip_gen1(nn) + seq![2usize]);
        assert(bip_neg1(n) =~= bip_neg1(nn) + tail2);
        lemma_bip_neg1_trace(nn, v);
        let t1 = bit_trace(v, bip_neg1(nn));
        lemma_bit_trace_props(v, bip_neg1(nn));
        lemma_bit_trace_concat(v, bip_neg1(nn), tail2);
        let u = t1.last();
        lemma_trace_peel(u, n, bip_gen1(nn) + seq![2usize]);
        let u2 = toggle(u, n as int);
        assert(solo(u2, nn as int, 2, nn as int));
        lemma_bit_trace_concat(u2, bip_gen1(nn), seq![2usize]);
        lemma_bip_gen1_trace(nn, u2);
        let t2 = bit_trace(u2, bip_gen1(nn));
        lemma_bit_trace_props(u2, bip_gen1(nn));
        let w2 = t2.last();
        let fin = toggle(w2, 2);
        let single = seq![2usize];
        assert(single[0] == 2);
        assert(single.drop_first() =~= Seq::<usize>::empty());
        assert(bit_trace(fin, Seq::<usize>::empty()) == seq![fin]);
        assert(bit_trace(w2, single) == seq![w2] + seq![fin]);
        assert(t == t1.drop_last() + (seq![u] + (t2.drop_last() + bit_trace(w2, single))));
        assert(t =~= t1 + t2 + seq![fin]);
        lemma_bip_neg1_glue(n, v, t1, t2);
        assert(bip_trace_ok(t1 + t2 + seq![fin], v, n));
        assert(t.last() == (t1 + t2 + seq![fin]).last());
    }
}

#[verifier::rlimit(100)]
proof fn lemma_bip_gen0_trace(n: usize, v: Seq<bool>)
    requires
        2 <= n,
        n < v.len(),
        solo(v, n as int, 2, n as int),
    ensures
        bip_trace_ok(bit_trace(v, bip_gen0(n)), v, n),
{
    let t = bit_trace(v, bip_gen0(n));
    if n == 2 {
        assert(bip_gen0(n) == Seq::<usize>::empty());
        lemma_bip_base_trace(n, v, bip_gen0(n));
    } else {
        let nn = (n - 1) as usize;
        let tail2 = seq![n] + bip_neg1(nn);
        let tail1 = bip_gen1(nn) + tail2;
        assert(bip_gen0(n) =~= seq![(n - 1) as usize] + tail1);
        lemma_trace_peel(v, (n - 1) as usize, tail1);
        let v1 = toggle(v, (n - 1) as int);
        assert(solo(v1, nn as int, 2, nn as int));
        lemma_bip_gen1_trace(nn, v1);
        let t1 = bit_trace(v1, bip_gen1(nn));
        lemma_bit_trace_props(v1, bip_gen1(nn));
        lemma_bit_trace_concat(v1, bip_gen1(nn), tail2);
        let u = t1.last();
        lemma_trace_peel(u, n, bip_neg1(nn));
        let u2 = toggle(u, n as int);
        assert(solo(u2, 2, 2, nn as int));
        lemma_bip_neg1_trace(nn, u2);
        let t2 = bit_trace(u2, bip_neg1(nn));
        lemma_bit_trace_props(u2, bip_neg1(nn));
        assert(t == seq![v] + (t1.drop_last() + (seq![u] + t2)));
        assert(t =~= seq![v] + t1 + t2);
        lemma_bip_split_glue(n, (n - 1) as usize, v, t1, t2);
    }
}

/// The Gray-code theorem for the bipartition walk: starting from the
/// configuration that holds only element `n` in block 1, applying the
/// `stirling2(n) - 1` moves of `bip_gen0(n)` in order visits every two-block
/// partition of elements `1..=n` with element 1 in block 0 exactly once (no
/// repeats, no omissions), and each step toggles exactly the one element the
/// move names.  Configurations are read as vectors of length `n + 1` whose
/// position 0 is an unused slot kept in block 0.
pub proof fn theorem_set_bipart_gray_code(n: usize)
    requires
        2 <= n,
    ensures
        ({
            let start = Seq::new(n as nat + 1, |j: int| j == n as int);
            let t = bit_trace(start, bip_gen0(n));
            &&& t.len() == stirling2(n as nat)
            &&& t[0] == start
            &&& forall|i: int, j: int| 0 <= i < j < t.len() ==> t[i] != t[j]
            &&& forall|i: int|
                #![trigger t[i]]
                0 <= i < t.len() ==> t[i].len() == n + 1 && !t[i][0] && !t[i][1] && occupied(
                    t[i],
                    2,
                    n as int,
                )
            &&& forall|w: Seq<bool>|
                #![trigger w.len()]
                w.len() == n + 1 && !w[0] && !w[1] && occupied(w, 2, n as int) ==> exists|i: int|
                    0 <= i < t.len() && t[i] == w
            &&& forall|i: int|
                0 <= i < bip_gen0(n).len() ==> t[i + 1] == toggle(
                    #[trigger] t[i],
                    bip_gen0(n)[i] as int,
                )
        }),
{
    let start = Seq::new(n as nat + 1, |j: int| j == n as int);
    let t = bit_trace(start, bip_gen0(n));
    assert(solo(start, n as int, 2, n as int));
    lemma_bip_gen0_trace(n, start);
    lemma_bit_trace_props(start, bip_gen0(n));
    assert forall|i: int| 0 <= i < t.len() implies (#[trigger] t[i]).len() == n + 1 && !t[i][0]
        && !t[i][1] && occupied(t[i], 2, n as int) by {
        assert(same_outside(t[i], start, 2, n as int));
        assert(t[i][0] == start[0]);
        assert(t[i][1] == start[1]);
    }
    assert forall|w: Seq<bool>|
        #[trigger] w.len() == n + 1 && !w[0] && !w[1] && occupied(w, 2, n as int) implies exists|
        i: int,
    |
        0 <= i < t.len() && t[i] == w by {
        assert forall|j: int| 0 <= j < start.len() && !(2 <= j <= n as int) implies w[j]
            == start[j] by {
            assert(j == 0 || j == 1);
        }
        assert(same_outside(w, start, 2, n as int));
    }
}

fn gen1_even(n: usize) -> (r: Vec<usize>)
    ensures
        r@ == bip_gen1(n),
    decreases n,
{
    let mut r: Vec<usize> = Vec::new();
    if n < 3 {
        proof {
            assert(r@ =~= bip_gen1(n));
        }
        return r;
    }
    r.push(2);
    let mut tail = neg1_even(n - 1);
    r.append(&mut tail);
    r.push(n);
    let mut tail = gen1_even(n - 1);
    r.append(&mut tail);
    proof {
        assert(r@ =~= bip_gen1(n));
    }
    r
}

fn neg1_even(n: usize) -> (r: Vec<usize>)
    ensures
        r@ == bip_neg1(n),
    decreases n,
{
    let mut r: Vec<usize> = Vec::new();
    if n < 3 {
        proof {
            assert(r@ =~= bip_neg1(n));
        }
        return r;
    }
    let mut tail = neg1_even(n - 1);
    r.append(&mut tail);
    r.push(n);
    let mut tail = gen1_even(n - 1);
    r.append(&mut tail);
    r.push(2);
    proof {
        assert(r@ =~= bip_neg1(n));
    }
    r
}

fn gen0_even(n: usize) -> (r: Vec<usize>)
    ensures
        r@ == bip_gen0(n),
{
    let mut r: Vec<usize> = Vec::new();
    if n < 3 {
        proof {
            assert(r@ =~= bip_gen0(n));
        }
        return r;
    }
    r.push(n - 1);
    let mut tail = gen1_even(n - 1);
    r.append(&mut tail);
    r.push(n);
    let mut tail = neg1_even(n - 1);
    r.append(&mut tail);
    proof {
        assert(r@ =~= bip_gen0(n));
    }
    r
}

/// All partitions of `n` labeled elements into two nonempty blocks, by single
/// element moves.  Entry `r[i]` names the element (1-indexed) that hops to the
/// other block; starting from the partition that holds only element `n` in
/// block 1, the stream visits all `stirling2(n)` bipartitions, each exactly
/// once.  Element 1 never moves, so block 0 always owns it.  For `n < 3`
/// there is a single trivial object and the stream is empty.
pub fn set_bipart_gen(n: usize) -> (r: Vec<usize>)
    ensures
        r@ == bip_gen0(n),
        r@.len() == stirling2(n as nat) - 1,
        forall|i: int| #![trigger r@[i]] 0 <= i < r@.len() ==> 2 <= r@[i] <= n,
{
    let r = gen0_even(n);
    proof {
        lemma_bip_len((n - 1) as usize);
        lemma_bip_bounds((n - 1) as usize);
    }
    r
}

} // verus!
