//! Turning around a vertex is a permutation of the sides once the edges are
//! sound; these lemmas establish that and the cycle structure it implies.

use vstd::prelude::*;
use vstd::relations::injective_on;
use vstd::set_lib::{lemma_int_range, lemma_len_subset, lemma_map_size, set_int_range};

use crate::topology::{
    directed_uses, edge_fault, edge_key, edge_uses, edges_sound, head, is_reverse,
    lemma_sides_between_counts, lemma_sides_between_unique, lemma_sides_between_witness,
    next_side, num_sides, reaches, reverse_side, side_faulty, tail, turn, turn_iter,
    faces_adjacent, faces_linked, is_face_walk, neighbor, opens_sector, sector_count,
    sectors_upto,
};

verus! {

/// On sound edges, a side is no loop and has exactly one opposite side.
pub proof fn lemma_sound_side(faces: Seq<[u64; 3]>, d: int)
    requires
        edges_sound(faces),
        0 <= d < num_sides(faces),
    ensures
        tail(faces, d) != head(faces, d),
        directed_uses(faces, tail(faces, d), head(faces, d)) == 1,
        directed_uses(faces, head(faces, d), tail(faces, d)) == 1,
{
    let t = tail(faces, d);
    let h = head(faces, d);
    lemma_sides_between_counts(faces, t, h, num_sides(faces), d);
    assert(!side_faulty(faces, d));
    let (lo, hi) = edge_key(faces, d);
    assert(edge_fault(faces, lo, hi) is None);
    assert(edge_uses(faces, lo, hi) == 2);
}

/// The opposite side exists, is unique, and is not the side itself.
pub proof fn lemma_reverse(faces: Seq<[u64; 3]>, d: int)
    requires
        edges_sound(faces),
        0 <= d < num_sides(faces),
    ensures
        0 <= reverse_side(faces, d) < num_sides(faces),
        is_reverse(faces, d, reverse_side(faces, d)),
        reverse_side(faces, d) != d,
        forall|e: int|
            0 <= e < num_sides(faces) && #[trigger] is_reverse(faces, d, e) ==> e
                == reverse_side(faces, d),
{
    lemma_sound_side(faces, d);
    let t = tail(faces, d);
    let h = head(faces, d);
    lemma_sides_between_witness(faces, h, t, num_sides(faces));
    let e0 = choose|e: int| 0 <= e < num_sides(faces) && tail(faces, e) == h && head(faces, e) == t;
    assert(is_reverse(faces, d, e0));
    let r = reverse_side(faces, d);
    assert forall|e: int|
        0 <= e < num_sides(faces) && #[trigger] is_reverse(faces, d, e) implies e == r by {
        lemma_sides_between_unique(faces, h, t, num_sides(faces), e, r);
    }
}

/// The opposite of the opposite side is the side itself.
pub proof fn lemma_reverse_involution(faces: Seq<[u64; 3]>, d: int)
    requires
        edges_sound(faces),
        0 <= d < num_sides(faces),
    ensures
        reverse_side(faces, reverse_side(faces, d)) == d,
{
    lemma_reverse(faces, d);
    let r = reverse_side(faces, d);
    lemma_reverse(faces, r);
    assert(is_reverse(faces, r, d));
}

/// The next side of a face lies in the same face and starts where the side ends.
pub proof fn lemma_next_side(faces: Seq<[u64; 3]>, d: int)
    requires
        0 <= d < num_sides(faces),
    ensures
        0 <= next_side(d) < num_sides(faces),
        next_side(d) / 3 == d / 3,
        tail(faces, next_side(d)) == head(faces, d),
{
}

/// A turn stays among the sides and keeps the start vertex.
pub proof fn lemma_turn(faces: Seq<[u64; 3]>, d: int)
    requires
        edges_sound(faces),
        0 <= d < num_sides(faces),
    ensures
        0 <= turn(faces, d) < num_sides(faces),
        tail(faces, turn(faces, d)) == tail(faces, d),
{
    lemma_reverse(faces, d);
    lemma_next_side(faces, reverse_side(faces, d));
}

/// Turning is injective.
pub proof fn lemma_turn_injective(faces: Seq<[u64; 3]>, d1: int, d2: int)
    requires
        edges_sound(faces),
        0 <= d1 < num_sides(faces),
        0 <= d2 < num_sides(faces),
        turn(faces, d1) == turn(faces, d2),
    ensures
        d1 == d2,
{
    lemma_reverse(faces, d1);
    lemma_reverse(faces, d2);
    let r1 = reverse_side(faces, d1);
    let r2 = reverse_side(faces, d2);
    assert(r1 == r2);
    lemma_reverse_involution(faces, d1);
    lemma_reverse_involution(faces, d2);
}

/// Repeated turns stay among the sides and keep the start vertex.
pub proof fn lemma_turn_iter(faces: Seq<[u64; 3]>, d: int, k: nat)
    requires
        edges_sound(faces),
        0 <= d < num_sides(faces),
    ensures
        0 <= turn_iter(faces, d, k) < num_sides(faces),
        tail(faces, turn_iter(faces, d, k)) == tail(faces, d),
    decreases k,
{
    if k > 0 {
        lemma_turn_iter(faces, d, (k - 1) as nat);
        lemma_turn(faces, turn_iter(faces, d, (k - 1) as nat));
    }
}

/// `a + b` turns are `a` turns followed by `b` turns.
pub proof fn lemma_turn_iter_add(faces: Seq<[u64; 3]>, d: int, a: nat, b: nat)
    ensures
        turn_iter(faces, d, a + b) == turn_iter(faces, turn_iter(faces, d, a), b),
    decreases b,
{
    if b > 0 {
        lemma_turn_iter_add(faces, d, a, (b - 1) as nat);
        assert(turn_iter(faces, d, a + b) == turn(faces, turn_iter(faces, d, (a + b - 1) as nat)));
    }
}

/// Equal iterates at `a <= b` mean that `b - a` turns lead back to the start.
pub proof fn lemma_turn_iter_cancel(faces: Seq<[u64; 3]>, d: int, a: nat, b: nat)
    requires
        edges_sound(faces),
        0 <= d < num_sides(faces),
        a <= b,
        turn_iter(faces, d, a) == turn_iter(faces, d, b),
    ensures
        turn_iter(faces, d, (b - a) as nat) == d,
    decreases a,
{
    if a > 0 {
        lemma_turn_iter(faces, d, (a - 1) as nat);
        lemma_turn_iter(faces, d, (b - 1) as nat);
        lemma_turn_injective(
            faces,
            turn_iter(faces, d, (a - 1) as nat),
            turn_iter(faces, d, (b - 1) as nat),
        );
        lemma_turn_iter_cancel(faces, d, (a - 1) as nat, (b - 1) as nat);
    }
}

/// Among `n + 1` values in `[0, n)` two coincide.
pub proof fn lemma_pigeonhole(f: spec_fn(int) -> int, n: int)
    requires
        n >= 0,
        forall|i: int| 0 <= i <= n ==> 0 <= #[trigger] f(i) < n,
    ensures
        exists|a: int, b: int| 0 <= a < b <= n && #[trigger] f(a) == #[trigger] f(b),
{
    if !(exists|a: int, b: int| 0 <= a < b <= n && #[trigger] f(a) == #[trigger] f(b)) {
        let x = set_int_range(0, n + 1);
        let y = x.map(f);
        lemma_int_range(0, n + 1);
        lemma_int_range(0, n);
        assert(injective_on(f, x)) by {
            assert forall|a: int, b: int|
                x.contains(a) && x.contains(b) && #[trigger] f(a) == #[trigger] f(b) implies a
                == b by {
                if a < b {
                    assert(0 <= a < b <= n && f(a) == f(b));
                } else if b < a {
                    assert(0 <= b < a <= n && f(b) == f(a));
                }
            }
        }
        lemma_map_size(x, y, f);
        assert(y.subset_of(set_int_range(0, n))) by {
            assert forall|v: int| y.contains(v) implies set_int_range(0, n).contains(v) by {
                let a = choose|a: int| x.contains(a) && v == f(a);
                assert(0 <= f(a) < n);
            }
        }
        lemma_len_subset(y, set_int_range(0, n));
    }
}

/// Every side comes back to itself after between one and `num_sides` turns.
pub proof fn lemma_turn_period(faces: Seq<[u64; 3]>, d: int) -> (p: nat)
    requires
        edges_sound(faces),
        0 <= d < num_sides(faces),
    ensures
        1 <= p,
        turn_iter(faces, d, p) == d,
{
    let n = num_sides(faces);
    let f = |i: int| turn_iter(faces, d, i as nat);
    assert forall|i: int| 0 <= i <= n implies 0 <= #[trigger] f(i) < n by {
        lemma_turn_iter(faces, d, i as nat);
    }
    lemma_pigeonhole(f, n);
    let (a, b) = choose|a: int, b: int| 0 <= a < b <= n && #[trigger] f(a) == #[trigger] f(b);
    lemma_turn_iter_cancel(faces, d, a as nat, b as nat);
    (b - a) as nat
}

/// Every iterate of `d` is reached by at most `p - 1` turns, `p` a period of `d`.
proof fn lemma_turn_iter_reduce(faces: Seq<[u64; 3]>, d: int, p: nat, k: nat) -> (j: nat)
    requires
        1 <= p,
        turn_iter(faces, d, p) == d,
    ensures
        j < p,
        turn_iter(faces, d, k) == turn_iter(faces, d, j),
    decreases k,
{
    if k < p {
        k
    } else {
        lemma_turn_iter_add(faces, d, p, (k - p) as nat);
        lemma_turn_iter_reduce(faces, d, p, (k - p) as nat)
    }
}

/// Every side reached from `d` leads back to `d`.
pub proof fn lemma_reaches_back(faces: Seq<[u64; 3]>, d: int, k: nat)
    requires
        edges_sound(faces),
        0 <= d < num_sides(faces),
    ensures
        reaches(faces, turn_iter(faces, d, k), d),
{
    let p = lemma_turn_period(faces, d);
    let j = lemma_turn_iter_reduce(faces, d, p, k);
    lemma_turn_iter_add(faces, d, j, (p - j) as nat);
    assert(turn_iter(faces, turn_iter(faces, d, k), (p - j) as nat) == d);
}

/// Reaching is transitive.
pub proof fn lemma_reaches_trans(faces: Seq<[u64; 3]>, a: int, b: int, c: int)
    requires
        reaches(faces, a, b),
        reaches(faces, b, c),
    ensures
        reaches(faces, a, c),
{
    let k1 = choose|k: nat| turn_iter(faces, a, k) == b;
    let k2 = choose|k: nat| turn_iter(faces, b, k) == c;
    lemma_turn_iter_add(faces, a, k1, k2);
    assert(turn_iter(faces, a, k1 + k2) == c);
}


/// On sound edges, a side on the same undirected edge as `d` is `d` itself or its opposite.
pub proof fn lemma_same_edge(faces: Seq<[u64; 3]>, d: int, e: int)
    requires
        edges_sound(faces),
        0 <= d < num_sides(faces),
        0 <= e < num_sides(faces),
        edge_key(faces, d) == edge_key(faces, e),
    ensures
        e == d || e == reverse_side(faces, d),
{
    lemma_sound_side(faces, d);
    lemma_reverse(faces, d);
    let t = tail(faces, d);
    let h = head(faces, d);
    if tail(faces, e) == t && head(faces, e) == h {
        lemma_sides_between_unique(faces, t, h, num_sides(faces), d, e);
    } else {
        assert(is_reverse(faces, d, e));
    }
}

/// Crossing the edge of side `d` leads into an adjacent face.
pub proof fn lemma_reverse_adjacent(faces: Seq<[u64; 3]>, d: int)
    requires
        edges_sound(faces),
        0 <= d < num_sides(faces),
    ensures
        faces_adjacent(faces, d / 3, reverse_side(faces, d) / 3),
{
    lemma_reverse(faces, d);
    let r = reverse_side(faces, d);
    assert(edge_key(faces, 3 * (d / 3) + d % 3) == edge_key(faces, 3 * (r / 3) + r % 3));
}

/// A walk to `f` extends by one step to an adjacent face `g`.
pub proof fn lemma_linked_step(faces: Seq<[u64; 3]>, a: int, f: int, g: int)
    requires
        faces_linked(faces, a, f),
        faces_adjacent(faces, f, g),
        0 <= g < faces.len(),
    ensures
        faces_linked(faces, a, g),
{
    let p = choose|p: Seq<int>| #[trigger] is_face_walk(faces, p) && p[0] == a && p.last() == f;
    let q = p.push(g);
    assert forall|i: int| 0 <= i < q.len() - 1 implies #[trigger] faces_adjacent(
        faces,
        q[i],
        q[i + 1],
    ) by {
        if i < p.len() - 1 {
            assert(faces_adjacent(faces, p[i], p[i + 1]));
        }
    }
    assert(is_face_walk(faces, q));
}

/// A face is linked to itself.
pub proof fn lemma_linked_refl(faces: Seq<[u64; 3]>, f: int)
    requires
        0 <= f < faces.len(),
    ensures
        faces_linked(faces, f, f),
{
    let p = seq![f];
    assert(is_face_walk(faces, p));
}

/// A set of faces containing the start of a walk and closed under crossing
/// edges contains the whole walk.
pub proof fn lemma_walk_stays(faces: Seq<[u64; 3]>, reached: Seq<bool>, p: Seq<int>, i: int)
    requires
        edges_sound(faces),
        reached.len() == faces.len(),
        is_face_walk(faces, p),
        reached[p[0]],
        forall|x: int, k: int|
            0 <= x < faces.len() && 0 <= k < 3 && reached[x] ==> reached[#[trigger] neighbor(
                faces,
                x,
                k,
            )],
        0 <= i < p.len(),
    ensures
        reached[p[i]],
    decreases i,
{
    if i > 0 {
        lemma_walk_stays(faces, reached, p, i - 1);
        let a = p[i - 1];
        let b = p[i];
        let j = i - 1;
        assert(0 <= j < p.len() - 1);
        assert(faces_adjacent(faces, p[j], p[j + 1]));
        assert(j + 1 == i);
        let (i1, j1) = choose|i1: int, j1: int|
            0 <= i1 < 3 && 0 <= j1 < 3 && #[trigger] edge_key(faces, 3 * a + i1)
                == #[trigger] edge_key(faces, 3 * b + j1);
        assert(0 <= a < faces.len());
        assert(0 <= b < faces.len());
        lemma_same_edge(faces, 3 * a + i1, 3 * b + j1);
        assert(reached[neighbor(faces, a, i1)]);
    }
}


/// Vertex `v` starts some side of the mesh, i.e. some face uses it.
pub open spec fn vertex_used(faces: Seq<[u64; 3]>, v: u64) -> bool {
    exists|d: int| 0 <= d < num_sides(faces) && #[trigger] tail(faces, d) == v
}

proof fn lemma_sectors_upto_unused(faces: Seq<[u64; 3]>, v: u64, n: int)
    requires
        forall|d: int| 0 <= d < n ==> #[trigger] tail(faces, d) != v,
    ensures
        sectors_upto(faces, v, n) == 0,
    decreases n,
{
    if n > 0 {
        lemma_sectors_upto_unused(faces, v, n - 1);
    }
}

proof fn lemma_sectors_upto_used(faces: Seq<[u64; 3]>, v: u64, n: int)
    requires
        edges_sound(faces),
        n <= num_sides(faces),
        exists|d: int| 0 <= d < n && #[trigger] tail(faces, d) == v,
    ensures
        sectors_upto(faces, v, n) >= 1,
    decreases n,
{
    if exists|d: int| 0 <= d < n - 1 && #[trigger] tail(faces, d) == v {
        lemma_sectors_upto_used(faces, v, n - 1);
    } else {
        let last = n - 1;
        assert(tail(faces, last) == v);
        assert forall|j: int| 0 <= j < last implies !#[trigger] reaches(faces, j, last) by {
            if reaches(faces, j, last) {
                let k = choose|k: nat| turn_iter(faces, j, k) == last;
                lemma_turn_iter(faces, j, k);
            }
        }
        assert(opens_sector(faces, last));
    }
}

/// On sound edges, a vertex has no sector exactly when no face uses it; a
/// vertex that some face uses has at least one sector.
pub proof fn lemma_sector_count_zero_iff_unused(faces: Seq<[u64; 3]>, v: u64)
    requires
        edges_sound(faces),
    ensures
        sector_count(faces, v) == 0 <==> !vertex_used(faces, v),
{
    if vertex_used(faces, v) {
        lemma_sectors_upto_used(faces, v, num_sides(faces));
    } else {
        lemma_sectors_upto_unused(faces, v, num_sides(faces));
    }
}

} // verus!
