//! Binary reflected Gray code over `n` bits.

use vstd::prelude::*;

verus! {

/// 2 to the power `n`: the number of `n`-bit vectors.
pub open spec fn pow2(n: nat) -> nat
    decreases n,
{
    if n == 0 {
        1
    } else {
        2 * pow2((n - 1) as nat)
    }
}

/// The binary reflected Gray code move sequence over `n` bits: the code over
/// `n - 1` bits, the connector toggle of bit `n - 1`, then the code over
/// `n - 1` bits again.  Each entry is the index of the single bit to toggle.
pub open spec fn brgc_seq(n: usize) -> Seq<usize>
    decreases n,
{
    if n == 0 {
        Seq::empty()
    } else {
        brgc_seq((n - 1) as usize) + seq![(n - 1) as usize] + brgc_seq((n - 1) as usize)
    }
}

/// The binary reflected Gray code move stream: toggling bit `r[i]` of the
/// current vector yields the next vector; starting from the all-zero vector
/// the stream visits all `pow2(n)` bit vectors, each exactly once.
pub fn brgc_gen(n: usize) -> (r: Vec<usize>)
    ensures
        r@ == brgc_seq(n),
        r@.len() == pow2(n as nat) - 1,
        forall|i: int| 0 <= i < r@.len() ==> r@[i] < n,
    decreases n,
{
    let mut r: Vec<usize> = Vec::new();
    if n < 1 {
        proof {
            assert(r@ =~= brgc_seq(n));
        }
        return r;
    }
    let mut first = brgc_gen(n - 1);
    r.append(&mut first);
    r.push(n - 1);
    let mut second = brgc_gen(n - 1);
    r.append(&mut second);
    proof {
        assert(r@ =~= brgc_seq(n));
    }
    r
}

/// The bit vector after toggling bit `i`.
pub open spec fn toggle(v: Seq<bool>, i: int) -> Seq<bool> {
    v.update(i, !v[i])
}

/// The run of configurations visited by applying the moves in order,
/// starting from `v`: one entry before any move and one after each move.
pub open spec fn bit_trace(v: Seq<bool>, ms: Seq<usize>) -> Seq<Seq<bool>>
    decreases ms.len(),
{
    if ms.len() == 0 {
        seq![v]
    } else {
        seq![v] + bit_trace(toggle(v, ms[0] as int), ms.drop_first())
    }
}

/// `w` matches `v` at every position from `m` upward.
pub open spec fn agrees_above(w: Seq<bool>, v: Seq<bool>, m: int) -> bool {
    w.len() == v.len() && forall|j: int| m <= j < v.len() ==> w[j] == v[j]
}

/// Toggling a bit is a single-change edit: exactly the named position flips
/// and every other position is untouched.
pub proof fn lemma_toggle_single_change(v: Seq<bool>, i: int)
    requires
        0 <= i < v.len(),
    ensures
        toggle(v, i).len() == v.len(),
        toggle(v, i)[i] == !v[i],
        forall|j: int| 0 <= j < v.len() && j != i ==> toggle(v, i)[j] == v[j],
{
}

/// The trace has one entry per move plus the start, begins at the start
/// configuration, and each successive entry is the previous one with exactly
/// the announced bit toggled.
pub proof fn lemma_bit_trace_props(v: Seq<bool>, ms: Seq<usize>)
    ensures
        bit_trace(v, ms).len() == ms.len() + 1,
        bit_trace(v, ms)[0] == v,
        forall|i: int|
            0 <= i < ms.len() ==> bit_trace(v, ms)[i + 1] == toggle(
                #[trigger] bit_trace(v, ms)[i],
                ms[i] as int,
            ),
    decreases ms.len(),
{
    if ms.len() > 0 {
        let v1 = toggle(v, ms[0] as int);
        lemma_bit_trace_props(v1, ms.drop_first());
        let t = bit_trace(v, ms);
        let t1 = bit_trace(v1, ms.drop_first());
        assert forall|i: int| 0 <= i < ms.len() implies t[i + 1] == toggle(
            #[trigger] t[i],
            ms[i] as int,
        ) by {
            if i == 0 {
                assert(t[1] == t1[0]);
            } else {
                assert(t[i] == t1[i - 1]);
                assert(t[i + 1] == t1[i]);
                assert(ms.drop_first()[i - 1] == ms[i]);
            }
        }
    }
}

/// A trace over concatenated move lists is the first trace followed by the
/// second trace run from the first one's final configuration.
pub proof fn lemma_bit_trace_concat(v: Seq<bool>, a: Seq<usize>, b: Seq<usize>)
    ensures
        bit_trace(v, a + b) == bit_trace(v, a).drop_last() + bit_trace(
            bit_trace(v, a).last(),
            b,
        ),
    decreases a.len(),
{
    lemma_bit_trace_props(v, a);
    if a.len() == 0 {
        assert(a + b =~= b);
        assert(bit_trace(v, a).drop_last() =~= Seq::<Seq<bool>>::empty());
        assert(Seq::<Seq<bool>>::empty() + bit_trace(v, b) =~= bit_trace(v, b));
    } else {
        let v1 = toggle(v, a[0] as int);
        lemma_bit_trace_concat(v1, a.drop_first(), b);
        lemma_bit_trace_props(v1, a.drop_first());
        assert((a + b).drop_first() =~= a.drop_first() + b);
        let tfull = bit_trace(v1, a.drop_first() + b);
        let t1 = bit_trace(v1, a.drop_first());
        let t2 = bit_trace(t1.last(), b);
        assert(bit_trace(v, a + b) == seq![v] + tfull);
        assert(tfull == t1.drop_last() + t2);
        assert(bit_trace(v, a) == seq![v] + t1);
        assert((seq![v] + t1).last() == t1.last());
        assert((seq![v] + t1).drop_last() =~= seq![v] + t1.drop_last());
        assert(seq![v] + (t1.drop_last() + t2) =~= (seq![v] + t1.drop_last()) + t2);
    }
}

/// The reflected-code trace lemma: over any start vector `v` with at least
/// `m` bits, the `brgc_seq(m)` moves visit exactly the `pow2(m)` vectors that
/// match `v` from position `m` upward, each exactly once, and leave the walk
/// on `v` with bit `m - 1` toggled.
#[verifier::rlimit(100)]
proof fn lemma_brgc_trace(m: usize, v: Seq<bool>)
    requires
        m <= v.len(),
    ensures
        ({
            let t = bit_trace(v, brgc_seq(m));
            &&& t.len() == pow2(m as nat)
            &&& t[0] == v
            &&& forall|i: int| 0 <= i < t.len() ==> agrees_above(#[trigger] t[i], v, m as int)
            &&& forall|i: int, j: int| 0 <= i < j < t.len() ==> t[i] != t[j]
            &&& forall|w: Seq<bool>|
                agrees_above(w, v, m as int) ==> exists|i: int| 0 <= i < t.len() && t[i] == w
            &&& t.last() == if m == 0 {
                v
            } else {
                toggle(v, m - 1)
            }
        }),
    decreases m,
{
    let t = bit_trace(v, brgc_seq(m));
    if m == 0 {
        assert(t == seq![v]);
        assert(agrees_above(v, v, 0));
        assert forall|w: Seq<bool>| agrees_above(w, v, 0) implies exists|i: int|
            0 <= i < t.len() && t[i] == w by {
            assert(w =~= v);
            assert(t[0] == w);
        }
    } else {
        let mm = (m - 1) as usize;
        let a = brgc_seq(mm);
        let b = seq![mm] + a;
        assert(brgc_seq(m) =~= a + b);
        lemma_brgc_trace(mm, v);
        let t1 = bit_trace(v, a);
        lemma_bit_trace_props(v, a);
        lemma_bit_trace_concat(v, a, b);
        let last1 = t1.last();
        let v2 = toggle(last1, mm as int);
        let t2 = bit_trace(v2, a);
        lemma_brgc_trace(mm, v2);
        lemma_bit_trace_props(v2, a);
        assert(b.drop_first() =~= a);
        assert(b[0] == mm);
        assert(bit_trace(last1, b) == seq![last1] + t2);
        assert(t == t1.drop_last() + (seq![last1] + t2));
        assert(t =~= t1 + t2);
        assert(t.len() == pow2(mm as nat) + pow2(mm as nat));
        assert(pow2(m as nat) == 2 * pow2(mm as nat));

        // last1 is an entry of the first half, so it matches v from mm upward
        assert(agrees_above(last1, v, mm as int));
        assert(v2.len() == v.len());
        assert(v2[mm as int] == !v[mm as int]);
        assert forall|j: int| m <= j < v.len() implies v2[j] == v[j] by {
            assert(v2[j] == last1[j]);
        }

        // every entry of the second half matches v above m and differs at mm
        assert forall|i: int| 0 <= i < t.len() implies agrees_above(#[trigger] t[i], v, m as int)
            by {
            if i < t1.len() {
                assert(t[i] == t1[i]);
                assert(agrees_above(t1[i], v, mm as int));
            } else {
                assert(t[i] == t2[i - t1.len()]);
                assert(agrees_above(t2[i - t1.len()], v2, mm as int));
            }
        }
        assert forall|i: int| 0 <= i < t1.len() implies #[trigger] t1[i][mm as int] == v[
            mm as int
        ] by {
            assert(agrees_above(t1[i], v, mm as int));
        }
        assert forall|i: int| 0 <= i < t2.len() implies #[trigger] t2[i][mm as int] == !v[
            mm as int
        ] by {
            assert(agrees_above(t2[i], v2, mm as int));
        }

        // distinctness: within each half by induction, across halves at bit mm
        assert forall|i: int, j: int| 0 <= i < j < t.len() implies t[i] != t[j] by {
            if j < t1.len() {
                assert(t[i] == t1[i] && t[j] == t1[j]);
            } else if i >= t1.len() {
                assert(t[i] == t2[i - t1.len()] && t[j] == t2[j - t1.len()]);
            } else {
                assert(t[i][mm as int] == v[mm as int]);
                assert(t[j][mm as int] == !v[mm as int]);
            }
        }

        // coverage: route each target through the half that matches its bit mm
        assert forall|w: Seq<bool>| agrees_above(w, v, m as int) implies exists|i: int|
            0 <= i < t.len() && t[i] == w by {
            if w[mm as int] == v[mm as int] {
                assert(agrees_above(w, v, mm as int));
                let i = choose|i: int| 0 <= i < t1.len() && t1[i] == w;
                assert(t[i] == w);
            } else {
                assert(agrees_above(w, v2, mm as int));
                let i = choose|i: int| 0 <= i < t2.len() && t2[i] == w;
                assert(t[t1.len() + i] == w);
            }
        }

        // the closing configuration is v with bit m - 1 toggled
        assert(t.last() == t2.last());
        if mm == 0 {
            assert(t2.last() == v2);
            assert(last1 == v);
            assert(v2 == toggle(v, m - 1));
        } else {
            assert(t2.last() == toggle(v2, mm - 1));
            assert(last1 == toggle(v, mm - 1));
            assert(toggle(v2, mm - 1) =~= toggle(v, m - 1));
        }
    }
}

/// The Gray-code theorem for the binary reflected code: starting from the
/// all-false vector, applying the `pow2(n) - 1` moves of `brgc_seq(n)` in
/// order visits every `n`-bit vector exactly once (no repeats, no
/// omissions), and each step flips exactly the one bit the move names.
pub proof fn theorem_brgc_gray_code(n: usize)
    ensures
        ({
            let start = Seq::new(n as nat, |j: int| false);
            let t = bit_trace(start, brgc_seq(n));
            &&& t.len() == pow2(n as nat)
            &&& t[0] == start
            &&& forall|i: int| 0 <= i < t.len() ==> (#[trigger] t[i]).len() == n
            &&& forall|i: int, j: int| 0 <= i < j < t.len() ==> t[i] != t[j]
            &&& forall|w: Seq<bool>|
                #[trigger] w.len() == n ==> exists|i: int| 0 <= i < t.len() && t[i] == w
            &&& forall|i: int|
                0 <= i < brgc_seq(n).len() ==> t[i + 1] == toggle(
                    #[trigger] t[i],
                    brgc_seq(n)[i] as int,
                )
        }),
{
    let start = Seq::new(n as nat, |j: int| false);
    let t = bit_trace(start, brgc_seq(n));
    lemma_brgc_trace(n, start);
    lemma_bit_trace_props(start, brgc_seq(n));
    assert forall|i: int| 0 <= i < t.len() implies (#[trigger] t[i]).len() == n by {
        assert(agrees_above(t[i], start, n as int));
    }
    assert forall|w: Seq<bool>| #[trigger] w.len() == n implies exists|i: int|
        0 <= i < t.len() && t[i] == w by {
        assert(agrees_above(w, start, n as int));
    }
}

} // verus!
