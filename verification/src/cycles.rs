//! Cycles of a permutation of `0..n`, held as a sequence of length `n`.
//!
//! The cycles are counted by their least elements. Cutting the last element
//! out of its cycle, and exchanging two elements, change that count in ways
//! that the lemmas below state.

use vstd::prelude::*;

verus! {

/// `p` is a permutation of `0..p.len()` whose inverse is `q`.
pub open spec fn is_perm(p: Seq<int>, q: Seq<int>) -> bool {
    &&& q.len() == p.len()
    &&& forall|x: int| 0 <= x < p.len() ==> 0 <= #[trigger] p[x] < p.len() && q[p[x]] == x
    &&& forall|y: int| 0 <= y < p.len() ==> 0 <= #[trigger] q[y] < p.len() && p[q[y]] == y
}

/// `k` steps of `p` from `x`.
pub open spec fn iterate(p: Seq<int>, x: int, k: nat) -> int
    decreases k,
{
    if k == 0 {
        x
    } else {
        p[iterate(p, x, (k - 1) as nat)]
    }
}

/// Some number of steps of `p` lead from `x` to `y`.
pub open spec fn leads(p: Seq<int>, x: int, y: int) -> bool {
    exists|k: nat| #[trigger] iterate(p, x, k) == y
}

/// `x` is the least element of its cycle: no smaller element leads to it.
pub open spec fn cycle_head(p: Seq<int>, x: int) -> bool {
    forall|y: int| 0 <= y < x ==> !#[trigger] leads(p, y, x)
}

/// Number of cycle heads below `m`.
pub open spec fn heads_below(p: Seq<int>, m: int) -> nat
    decreases m,
{
    if m <= 0 {
        0
    } else {
        heads_below(p, m - 1) + if cycle_head(p, m - 1) {
            1nat
        } else {
            0nat
        }
    }
}

/// Number of cycles of `p`.
pub open spec fn cycle_count(p: Seq<int>) -> nat {
    heads_below(p, p.len() as int)
}

/// `p` on `0..n - 1`, with the last element `n - 1` cut out of its cycle.
pub open spec fn cut_last(p: Seq<int>) -> Seq<int> {
    let m = p.len() - 1;
    Seq::new(m as nat, |x: int| if p[x] == m { p[m] } else { p[x] })
}

/// `p` after the transposition of `a` and `b`: `a` goes where `p` sends `b`,
/// and `b` where `p` sends `a`.
pub open spec fn swap_after(p: Seq<int>, a: int, b: int) -> Seq<int> {
    p.update(a, p[b]).update(b, p[a])
}

/// The inverse of `swap_after(p, a, b)`, for `q` the inverse of `p`.
pub open spec fn swap_before(q: Seq<int>, a: int, b: int) -> Seq<int> {
    Seq::new(
        q.len(),
        |y: int|
            if q[y] == a {
                b
            } else if q[y] == b {
                a
            } else {
                q[y]
            },
    )
}

/// `s` holds of an element exactly when it holds of its image: `s` is a
/// union of cycles of `p`.
pub open spec fn closed_under(p: Seq<int>, s: spec_fn(int) -> bool) -> bool {
    forall|x: int| 0 <= x < p.len() ==> (s(x) <==> s(#[trigger] p[x]))
}

pub proof fn lemma_iterate_range(p: Seq<int>, q: Seq<int>, x: int, k: nat)
    requires
        is_perm(p, q),
        0 <= x < p.len(),
    ensures
        0 <= iterate(p, x, k) < p.len(),
    decreases k,
{
    if k > 0 {
        lemma_iterate_range(p, q, x, (k - 1) as nat);
    }
}

/// Cutting the last element out keeps a permutation.
pub proof fn lemma_cut_perm(p: Seq<int>, q: Seq<int>)
    requires
        is_perm(p, q),
        p.len() >= 1,
    ensures
        is_perm(cut_last(p), cut_last(q)),
{
    let m = p.len() - 1;
    let pc = cut_last(p);
    let qc = cut_last(q);
    assert forall|x: int| 0 <= x < m implies 0 <= #[trigger] pc[x] < m && qc[pc[x]] == x by {
        if p[x] == m {
            assert(q[p[m]] == m);
            assert(p[m] != m);
        } else {
            assert(q[p[x]] == x);
        }
    }
    assert forall|y: int| 0 <= y < m implies 0 <= #[trigger] qc[y] < m && pc[qc[y]] == y by {
        if q[y] == m {
            assert(p[q[m]] == m);
            assert(q[m] != m);
        } else {
            assert(p[q[y]] == y);
        }
    }
}

/// A step of the cut permutation is one or two steps of `p`.
proof fn lemma_cut_iterate(p: Seq<int>, q: Seq<int>, y: int, k: nat) -> (j: nat)
    requires
        is_perm(p, q),
        p.len() >= 1,
        0 <= y < p.len() - 1,
    ensures
        iterate(cut_last(p), y, k) == iterate(p, y, j),
    decreases k,
{
    if k == 0 {
        0
    } else {
        let m = p.len() - 1;
        let j0 = lemma_cut_iterate(p, q, y, (k - 1) as nat);
        lemma_cut_perm(p, q);
        lemma_iterate_range(cut_last(p), cut_last(q), y, (k - 1) as nat);
        let z = iterate(cut_last(p), y, (k - 1) as nat);
        assert(iterate(p, y, j0 + 1) == p[z]);
        if p[z] == m {
            assert(iterate(p, y, j0 + 2) == p[p[z]]);
            j0 + 2
        } else {
            j0 + 1
        }
    }
}

/// Every element that `p` leads to from `y`, other than the last one, the
/// cut permutation leads to as well.
proof fn lemma_iterate_cut(p: Seq<int>, q: Seq<int>, y: int, k: nat) -> (j: nat)
    requires
        is_perm(p, q),
        p.len() >= 1,
        0 <= y < p.len() - 1,
        iterate(p, y, k) != p.len() - 1,
    ensures
        iterate(cut_last(p), y, j) == iterate(p, y, k),
    decreases k,
{
    let m = p.len() - 1;
    if k == 0 {
        0
    } else {
        let z = iterate(p, y, (k - 1) as nat);
        lemma_iterate_range(p, q, y, (k - 1) as nat);
        if z != m {
            let j0 = lemma_iterate_cut(p, q, y, (k - 1) as nat);
            j0 + 1
        } else {
            assert(k >= 2);
            let w = iterate(p, y, (k - 2) as nat);
            lemma_iterate_range(p, q, y, (k - 2) as nat);
            assert(p[w] == m);
            assert(w != m);
            let j0 = lemma_iterate_cut(p, q, y, (k - 2) as nat);
            j0 + 1
        }
    }
}

/// Below the last element, cutting it out keeps the cycle heads.
proof fn lemma_cut_heads(p: Seq<int>, q: Seq<int>, x: int)
    requires
        is_perm(p, q),
        p.len() >= 1,
        0 <= x < p.len() - 1,
    ensures
        cycle_head(cut_last(p), x) == cycle_head(p, x),
{
    assert forall|y: int|
        #![trigger leads(cut_last(p), y, x)]
        #![trigger leads(p, y, x)]
        0 <= y < x implies leads(cut_last(p), y, x) == leads(p, y, x) by {
        if leads(cut_last(p), y, x) {
            let k = choose|k: nat| #[trigger] iterate(cut_last(p), y, k) == x;
            let j = lemma_cut_iterate(p, q, y, k);
            assert(iterate(p, y, j) == x);
        }
        if leads(p, y, x) {
            let k = choose|k: nat| #[trigger] iterate(p, y, k) == x;
            let j = lemma_iterate_cut(p, q, y, k);
            assert(iterate(cut_last(p), y, j) == x);
        }
    }
}

/// Nothing else leads to a fixed element.
proof fn lemma_avoid_fixed(p: Seq<int>, q: Seq<int>, y: int, m: int, k: nat)
    requires
        is_perm(p, q),
        0 <= m < p.len(),
        p[m] == m,
        0 <= y < p.len(),
        y != m,
    ensures
        iterate(p, y, k) != m,
    decreases k,
{
    if k > 0 {
        lemma_avoid_fixed(p, q, y, m, (k - 1) as nat);
        lemma_iterate_range(p, q, y, (k - 1) as nat);
        let z = iterate(p, y, (k - 1) as nat);
        assert(q[p[z]] == z);
        assert(q[p[m]] == m);
    }
}

/// The last element heads its cycle exactly when it is fixed.
proof fn lemma_last_head(p: Seq<int>, q: Seq<int>)
    requires
        is_perm(p, q),
        p.len() >= 1,
    ensures
        cycle_head(p, p.len() - 1) == (p[p.len() - 1] == p.len() - 1),
{
    let m = p.len() - 1;
    if p[m] == m {
        assert forall|y: int| 0 <= y < m implies !#[trigger] leads(p, y, m) by {
            if leads(p, y, m) {
                let k = choose|k: nat| #[trigger] iterate(p, y, k) == m;
                lemma_avoid_fixed(p, q, y, m, k);
            }
        }
    } else {
        let w = q[m];
        assert(p[q[m]] == m);
        assert(iterate(p, w, 0) == w);
        assert(iterate(p, w, 1) == m);
        assert(leads(p, w, m));
    }
}

proof fn lemma_heads_below_cut(p: Seq<int>, q: Seq<int>, k: int)
    requires
        is_perm(p, q),
        p.len() >= 1,
        0 <= k <= p.len() - 1,
    ensures
        heads_below(cut_last(p), k) == heads_below(p, k),
    decreases k,
{
    if k > 0 {
        lemma_heads_below_cut(p, q, k - 1);
        lemma_cut_heads(p, q, k - 1);
    }
}

/// Cutting the last element out removes a cycle exactly when that element
/// was fixed.
pub proof fn lemma_cut_count(p: Seq<int>, q: Seq<int>)
    requires
        is_perm(p, q),
        p.len() >= 1,
    ensures
        cycle_count(p) == cycle_count(cut_last(p)) + if p[p.len() - 1] == p.len() - 1 {
            1nat
        } else {
            0nat
        },
{
    lemma_heads_below_cut(p, q, p.len() - 1);
    lemma_last_head(p, q);
    assert(cut_last(p).len() == p.len() - 1);
}

/// Exchanging two elements keeps a permutation.
pub proof fn lemma_swap_perm(p: Seq<int>, q: Seq<int>, a: int, b: int)
    requires
        is_perm(p, q),
        0 <= a < p.len(),
        0 <= b < p.len(),
        a != b,
    ensures
        is_perm(swap_after(p, a, b), swap_before(q, a, b)),
{
    let ps = swap_after(p, a, b);
    let qs = swap_before(q, a, b);
    assert forall|x: int| 0 <= x < p.len() implies 0 <= #[trigger] ps[x] < p.len() && qs[ps[x]]
        == x by {
        if x == a {
            assert(q[p[b]] == b);
        } else if x == b {
            assert(q[p[a]] == a);
        } else {
            assert(q[p[x]] == x);
        }
    }
    assert forall|y: int| 0 <= y < p.len() implies 0 <= #[trigger] qs[y] < p.len() && ps[qs[y]]
        == y by {
        assert(p[q[y]] == y);
    }
}

/// Cutting the last element out commutes with an exchange below it.
proof fn lemma_cut_swap(p: Seq<int>, a: int, b: int)
    requires
        p.len() >= 1,
        0 <= a < p.len() - 1,
        0 <= b < p.len() - 1,
        a != b,
    ensures
        cut_last(swap_after(p, a, b)) == swap_after(cut_last(p), a, b),
{
    assert(cut_last(swap_after(p, a, b)) =~= swap_after(cut_last(p), a, b));
}

/// A union of cycles stays one once the last element is cut out.
proof fn lemma_cut_closed(p: Seq<int>, q: Seq<int>, s: spec_fn(int) -> bool)
    requires
        is_perm(p, q),
        p.len() >= 1,
        closed_under(p, s),
    ensures
        closed_under(cut_last(p), s),
{
    let m = p.len() - 1;
    assert forall|x: int| 0 <= x < m implies (s(x) <==> s(#[trigger] cut_last(p)[x])) by {
        assert(s(x) <==> s(p[x]));
        if p[x] == m {
            assert(s(m) <==> s(p[m]));
        }
    }
}

/// Exchanging two elements either splits one cycle in two or joins two
/// cycles into one; it joins them when one element lies in a union of cycles
/// and the other outside it.
pub proof fn lemma_swap_count(p: Seq<int>, q: Seq<int>, a: int, b: int, s: spec_fn(int) -> bool)
    requires
        is_perm(p, q),
        0 <= a < p.len(),
        0 <= b < p.len(),
        a != b,
    ensures
        cycle_count(swap_after(p, a, b)) == cycle_count(p) + 1 || cycle_count(swap_after(p, a, b))
            + 1 == cycle_count(p),
        closed_under(p, s) && s(a) && !s(b) ==> cycle_count(swap_after(p, a, b)) + 1
            == cycle_count(p),
    decreases p.len(),
{
    let m = p.len() - 1;
    let ps = swap_after(p, a, b);
    let qs = swap_before(q, a, b);
    lemma_swap_perm(p, q, a, b);
    lemma_cut_perm(p, q);
    lemma_cut_perm(ps, qs);
    lemma_cut_count(p, q);
    lemma_cut_count(ps, qs);
    let c = if a == m { b } else { a };
    let s2: spec_fn(int) -> bool = if a == m { |x: int| !s(x) } else { s };
    assert(ps =~= swap_after(p, c, if a == m { a } else { b }));
    assert(closed_under(p, s) ==> closed_under(p, s2));
    assert(closed_under(p, s) && s(a) && !s(b) ==> s2(c) && !s2(if a == m { a } else { b }));
    if a != m && b != m {
        lemma_cut_swap(p, a, b);
        lemma_swap_count(cut_last(p), cut_last(q), a, b, s);
        if closed_under(p, s) {
            lemma_cut_closed(p, q, s);
        }
    } else if p[m] == m {
        assert(cut_last(ps) =~= cut_last(p)) by {
            assert(q[p[m]] == m);
            assert forall|x: int| 0 <= x < m implies p[x] != m by {
                assert(q[p[x]] == x);
            }
        }
        assert(q[p[c]] == c);
    } else {
        let w = q[m];
        assert(p[q[m]] == m);
        assert(w != m);
        if c == w {
            assert(cut_last(ps) =~= cut_last(p));
            assert(closed_under(p, s2) ==> (s2(c) <==> s2(p[c])));
        } else {
            assert(q[p[c]] == c);
            assert(cut_last(ps) =~= swap_after(cut_last(p), c, w)) by {
                assert forall|x: int| 0 <= x < m && x != w implies p[x] != m by {
                    assert(q[p[x]] == x);
                }
            }
            lemma_swap_count(cut_last(p), cut_last(q), c, w, s2);
            if closed_under(p, s2) {
                lemma_cut_closed(p, q, s2);
                assert(s2(w) <==> s2(p[w]));
            }
        }
    }
}

} // verus!
