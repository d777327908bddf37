//! The Euler characteristic of a closed surface.
//!
//! The sides of the mesh are permuted in two ways: stepping to the next side
//! within a face, whose cycles are the faces, and turning around a vertex,
//! whose cycles are the sectors. Crossing the edges one at a time leads from
//! the first permutation to the second, and each crossing splits or joins a
//! cycle. A crossing between faces that are not yet joined always joins two
//! cycles; on a connected mesh that happens once per face but one. Counting
//! the crossings bounds the sectors, and so the Euler characteristic.

use vstd::prelude::*;

use crate::cycles::{
    closed_under, cycle_count, cycle_head, cut_last, heads_below, is_perm, iterate, leads,
    lemma_cut_count, lemma_cut_perm, lemma_swap_count, swap_after,
};
use crate::parse::Mesh;
use crate::surface::{forward_sides, lemma_edge_count, lemma_forward_sides_finite};
use crate::topology::{
    edge_key, edge_set, edges_sound, faces_adjacent, faces_connected, faces_linked, head,
    is_face_walk, next_side, num_sides, opens_sector, reaches, reverse_side, sector_count,
    sectors_upto, tail, turn, turn_iter, vertices_single,
};
use crate::turns::{
    lemma_reverse, lemma_reverse_involution, lemma_same_edge, lemma_sound_side, lemma_turn_iter,
};

verus! {

/// The side before `d` within its face.
pub open spec fn prev_side(d: int) -> int {
    3 * (d / 3) + (d % 3 + 2) % 3
}

/// Stepping to the next side within a face, on `nf` faces.
pub open spec fn face_steps(nf: int) -> Seq<int> {
    Seq::new((3 * nf) as nat, |d: int| next_side(d))
}

/// The inverse of `face_steps(nf)`.
pub open spec fn face_steps_back(nf: int) -> Seq<int> {
    Seq::new((3 * nf) as nat, |d: int| prev_side(d))
}

pub proof fn lemma_side_steps(d: int)
    requires
        0 <= d,
    ensures
        next_side(d) / 3 == d / 3,
        prev_side(d) / 3 == d / 3,
        0 <= next_side(d),
        0 <= prev_side(d),
        prev_side(next_side(d)) == d,
        next_side(prev_side(d)) == d,
{
}

/// The faces are the cycles of stepping within a face.
pub proof fn lemma_face_steps(nf: int)
    requires
        0 <= nf,
    ensures
        is_perm(face_steps(nf), face_steps_back(nf)),
        cycle_count(face_steps(nf)) == nf,
    decreases nf,
{
    let p = face_steps(nf);
    let q = face_steps_back(nf);
    assert forall|x: int| 0 <= x < p.len() implies 0 <= #[trigger] p[x] < p.len() && q[p[x]] == x by {
        lemma_side_steps(x);
    }
    assert forall|y: int| 0 <= y < p.len() implies 0 <= #[trigger] q[y] < p.len() && p[q[y]] == y by {
        lemma_side_steps(y);
    }
    if nf > 0 {
        let n = 3 * nf;
        lemma_face_steps(nf - 1);
        lemma_cut_perm(p, q);
        let p1 = cut_last(p);
        let q1 = cut_last(q);
        lemma_cut_count(p, q);
        lemma_cut_perm(p1, q1);
        let p2 = cut_last(p1);
        let q2 = cut_last(q1);
        lemma_cut_count(p1, q1);
        lemma_cut_count(p2, q2);
        assert(p[n - 1] == n - 3);
        assert(p1[n - 2] == n - 3);
        assert(p1[n - 3] == n - 2);
        assert(p2[n - 3] == n - 3);
        assert(cut_last(p2) =~= face_steps(nf - 1)) by {
            assert forall|x: int| 0 <= x < n - 3 implies #[trigger] cut_last(p2)[x] == next_side(x) by {
                lemma_side_steps(x);
            }
        }
    }
}

// ---------------------------------------------------------------------------
// Crossing the edges one at a time

/// The side of the edge under `d` that runs from the smaller to the larger id.
pub open spec fn lead_side(faces: Seq<[u64; 3]>, d: int) -> int {
    if tail(faces, d) < head(faces, d) {
        d
    } else {
        reverse_side(faces, d)
    }
}

/// The edge under side `d` is among those crossed in the first `k` steps:
/// step `j` crosses the edge of side `j` when that side runs forward.
pub open spec fn crossed(faces: Seq<[u64; 3]>, k: int, d: int) -> bool {
    lead_side(faces, d) < k
}

/// Side `d`, or the side opposite to it once its edge is crossed.
pub open spec fn cross(faces: Seq<[u64; 3]>, k: int, d: int) -> int {
    if crossed(faces, k, d) {
        reverse_side(faces, d)
    } else {
        d
    }
}

/// The walk after `k` steps: cross the edge of a side if it is crossed, then
/// step to the next side of the face reached.
pub open spec fn walk(faces: Seq<[u64; 3]>, k: int) -> Seq<int> {
    Seq::new(num_sides(faces) as nat, |d: int| next_side(cross(faces, k, d)))
}

/// The inverse of `walk(faces, k)`.
pub open spec fn walk_back(faces: Seq<[u64; 3]>, k: int) -> Seq<int> {
    Seq::new(num_sides(faces) as nat, |d: int| cross(faces, k, prev_side(d)))
}

proof fn lemma_lead_side(faces: Seq<[u64; 3]>, d: int)
    requires
        edges_sound(faces),
        0 <= d < num_sides(faces),
    ensures
        0 <= lead_side(faces, d) < num_sides(faces),
        tail(faces, lead_side(faces, d)) < head(faces, lead_side(faces, d)),
        lead_side(faces, reverse_side(faces, d)) == lead_side(faces, d),
        lead_side(faces, d) == d || lead_side(faces, d) == reverse_side(faces, d),
{
    lemma_sound_side(faces, d);
    lemma_reverse(faces, d);
    lemma_reverse_involution(faces, d);
}

proof fn lemma_cross(faces: Seq<[u64; 3]>, k: int, d: int)
    requires
        edges_sound(faces),
        0 <= d < num_sides(faces),
    ensures
        0 <= cross(faces, k, d) < num_sides(faces),
        cross(faces, k, cross(faces, k, d)) == d,
{
    lemma_lead_side(faces, d);
    lemma_reverse(faces, d);
    lemma_reverse_involution(faces, d);
}

/// The walk is a permutation of the sides.
pub proof fn lemma_walk_perm(faces: Seq<[u64; 3]>, k: int)
    requires
        edges_sound(faces),
    ensures
        is_perm(walk(faces, k), walk_back(faces, k)),
{
    let p = walk(faces, k);
    let q = walk_back(faces, k);
    assert forall|x: int| 0 <= x < p.len() implies 0 <= #[trigger] p[x] < p.len() && q[p[x]] == x by {
        lemma_cross(faces, k, x);
        lemma_side_steps(cross(faces, k, x));
    }
    assert forall|y: int| 0 <= y < p.len() implies 0 <= #[trigger] q[y] < p.len() && p[q[y]] == y by {
        lemma_side_steps(y);
        lemma_cross(faces, k, prev_side(y));
    }
}

/// Step `k` exchanges side `k` with its opposite side when `k` runs forward,
/// and changes nothing otherwise.
pub proof fn lemma_walk_step(faces: Seq<[u64; 3]>, k: int)
    requires
        edges_sound(faces),
        0 <= k < num_sides(faces),
    ensures
        walk(faces, k + 1) == if tail(faces, k) < head(faces, k) {
            swap_after(walk(faces, k), k, reverse_side(faces, k))
        } else {
            walk(faces, k)
        },
{
    let r = reverse_side(faces, k);
    lemma_lead_side(faces, k);
    lemma_reverse(faces, k);
    lemma_reverse_involution(faces, k);
    assert forall|d: int| 0 <= d < num_sides(faces) implies (#[trigger] lead_side(faces, d) == k
        <==> (tail(faces, k) < head(faces, k) && (d == k || d == r))) by {
        lemma_lead_side(faces, d);
        lemma_reverse_involution(faces, d);
        lemma_lead_side(faces, r);
    }
    if tail(faces, k) < head(faces, k) {
        assert(walk(faces, k + 1) =~= swap_after(walk(faces, k), k, r));
    } else {
        assert(walk(faces, k + 1) =~= walk(faces, k));
    }
}

// ---------------------------------------------------------------------------
// Joining faces

/// The labels `lab` after the faces labelled `from` take the label `to`.
pub open spec fn relabel(lab: Seq<int>, from: int, to: int) -> Seq<int> {
    Seq::new(lab.len(), |f: int| if lab[f] == from { to } else { lab[f] })
}

/// Each face is labelled by a face of its group, and that face by itself.
pub open spec fn labelling(lab: Seq<int>) -> bool {
    forall|f: int| 0 <= f < lab.len() ==> 0 <= #[trigger] lab[f] < lab.len() && lab[lab[f]] == lab[f]
}

/// Number of faces below `m` that label their own group.
pub open spec fn roots_below(lab: Seq<int>, m: int) -> nat
    decreases m,
{
    if m <= 0 {
        0
    } else {
        roots_below(lab, m - 1) + if lab[m - 1] == m - 1 {
            1nat
        } else {
            0nat
        }
    }
}

/// Number of groups of faces.
pub open spec fn roots(lab: Seq<int>) -> nat {
    roots_below(lab, lab.len() as int)
}

/// The groups of faces after `k` steps: each step that crosses an edge
/// between two groups joins them under the smaller label.
pub open spec fn groups(faces: Seq<[u64; 3]>, k: int) -> Seq<int>
    decreases k,
{
    if k <= 0 {
        Seq::new(faces.len(), |f: int| f)
    } else {
        let lab = groups(faces, k - 1);
        let d = k - 1;
        if tail(faces, d) < head(faces, d) {
            let x = lab[d / 3];
            let y = lab[reverse_side(faces, d) / 3];
            if x < y {
                relabel(lab, y, x)
            } else if y < x {
                relabel(lab, x, y)
            } else {
                lab
            }
        } else {
            lab
        }
    }
}

proof fn lemma_relabel_roots_below(lab: Seq<int>, from: int, to: int, m: int)
    requires
        labelling(lab),
        0 <= from < lab.len(),
        0 <= to < lab.len(),
        lab[from] == from,
        lab[to] == to,
        from != to,
        0 <= m <= lab.len(),
    ensures
        roots_below(relabel(lab, from, to), m) + if from < m {
            1nat
        } else {
            0nat
        } == roots_below(lab, m),
    decreases m,
{
    if m > 0 {
        lemma_relabel_roots_below(lab, from, to, m - 1);
        let f = m - 1;
        assert(0 <= lab[f] < lab.len());
    }
}

/// Joining two groups keeps a labelling with one group less.
proof fn lemma_relabel(lab: Seq<int>, from: int, to: int)
    requires
        labelling(lab),
        0 <= from < lab.len(),
        0 <= to < lab.len(),
        lab[from] == from,
        lab[to] == to,
        from != to,
    ensures
        labelling(relabel(lab, from, to)),
        roots(relabel(lab, from, to)) + 1 == roots(lab),
{
    lemma_relabel_roots_below(lab, from, to, lab.len() as int);
    let nl = relabel(lab, from, to);
    assert forall|f: int| 0 <= f < nl.len() implies 0 <= #[trigger] nl[f] < nl.len() && nl[nl[f]]
        == nl[f] by {
        assert(lab[lab[f]] == lab[f]);
    }
}

/// With every face in one group, there is one group.
proof fn lemma_one_root(lab: Seq<int>, r: int, m: int)
    requires
        labelling(lab),
        0 <= r < lab.len(),
        forall|f: int| 0 <= f < lab.len() ==> #[trigger] lab[f] == r,
        0 <= m <= lab.len(),
    ensures
        roots_below(lab, m) == if r < m {
            1nat
        } else {
            0nat
        },
    decreases m,
{
    if m > 0 {
        lemma_one_root(lab, r, m - 1);
        assert(lab[r] == r);
    }
}

/// Number of sides below `k` that run forward: the steps among the first `k`
/// that cross an edge.
pub open spec fn forward_below(faces: Seq<[u64; 3]>, k: int) -> nat
    decreases k,
{
    if k <= 0 {
        0
    } else {
        forward_below(faces, k - 1) + if tail(faces, k - 1) < head(faces, k - 1) {
            1nat
        } else {
            0nat
        }
    }
}

proof fn lemma_forward_below(faces: Seq<[u64; 3]>, k: int)
    requires
        0 <= k,
    ensures
        forward_below(faces, k) == forward_sides(faces, k).len(),
    decreases k,
{
    lemma_forward_sides_finite(faces, k);
    if k == 0 {
        assert(forward_sides(faces, 0) =~= Set::<int>::empty());
    } else {
        lemma_forward_below(faces, k - 1);
        lemma_forward_sides_finite(faces, k - 1);
        if tail(faces, k - 1) < head(faces, k - 1) {
            assert(forward_sides(faces, k) =~= forward_sides(faces, k - 1).insert(k - 1));
        } else {
            assert(forward_sides(faces, k) =~= forward_sides(faces, k - 1));
        }
    }
}

proof fn lemma_identity_roots(nf: int, m: int)
    requires
        0 <= m <= nf,
    ensures
        roots_below(Seq::new(nf as nat, |f: int| f), m) == m,
    decreases m,
{
    if m > 0 {
        lemma_identity_roots(nf, m - 1);
    }
}

/// What the first `k` steps keep. The groups form a labelling, and the faces
/// on either side of a crossed edge share a group. Each step that crosses an
/// edge either joins two groups, and then two cycles of the walk, or changes
/// the number of cycles by one; so the cycles beyond one per group number at
/// most the crossings that joined no groups, and agree with them in parity.
proof fn lemma_steps(faces: Seq<[u64; 3]>, k: int)
    requires
        edges_sound(faces),
        0 <= k <= num_sides(faces),
    ensures
        groups(faces, k).len() == faces.len(),
        labelling(groups(faces, k)),
        forall|d: int|
            0 <= d < num_sides(faces) && #[trigger] crossed(faces, k, d) ==> groups(faces, k)[d / 3]
                == groups(faces, k)[reverse_side(faces, d) / 3],
        cycle_count(walk(faces, k)) - roots(groups(faces, k)) <= forward_below(faces, k)
            - faces.len() + roots(groups(faces, k)),
        (forward_below(faces, k) - faces.len() + roots(groups(faces, k)) - (cycle_count(
            walk(faces, k),
        ) - roots(groups(faces, k)))) % 2 == 0,
    decreases k,
{
    let n = num_sides(faces);
    let nf = faces.len() as int;
    if k == 0 {
        lemma_identity_roots(nf, nf);
        lemma_face_steps(nf);
        assert forall|d: int| 0 <= d < n implies !#[trigger] crossed(faces, 0, d) by {
            lemma_lead_side(faces, d);
        }
        assert(walk(faces, 0) =~= face_steps(nf));
    } else {
        let j = k - 1;
        lemma_steps(faces, j);
        lemma_walk_step(faces, j);
        lemma_walk_perm(faces, j);
        let lab = groups(faces, j);
        let r = reverse_side(faces, j);
        lemma_reverse(faces, j);
        lemma_reverse_involution(faces, j);
        lemma_lead_side(faces, j);
        assert forall|d: int| 0 <= d < n implies (#[trigger] crossed(faces, k, d) <==> (crossed(
            faces,
            j,
            d,
        ) || (tail(faces, j) < head(faces, j) && (d == j || d == r)))) by {
            lemma_lead_side(faces, d);
            lemma_reverse_involution(faces, d);
            lemma_lead_side(faces, r);
        }
        if tail(faces, j) < head(faces, j) {
            let x = lab[j / 3];
            let y = lab[r / 3];
            let s = |z: int| lab[z / 3] == x;
            if x != y {
                assert(closed_under(walk(faces, j), s)) by {
                    assert forall|z: int| 0 <= z < n implies (s(z) <==> s(
                        #[trigger] walk(faces, j)[z],
                    )) by {
                        lemma_cross(faces, j, z);
                        lemma_side_steps(cross(faces, j, z));
                    }
                }
                lemma_swap_count(walk(faces, j), walk_back(faces, j), j, r, s);
                if x < y {
                    lemma_relabel(lab, y, x);
                } else {
                    lemma_relabel(lab, x, y);
                }
                let nl = groups(faces, k);
                assert forall|d: int|
                    0 <= d < n && #[trigger] crossed(faces, k, d) implies nl[d / 3] == nl[reverse_side(
                        faces,
                        d,
                    ) / 3] by {
                    lemma_reverse(faces, d);
                    if !crossed(faces, j, d) {
                        if d == r {
                            assert(reverse_side(faces, d) == j);
                        }
                    }
                }
            } else {
                lemma_swap_count(walk(faces, j), walk_back(faces, j), j, r, s);
            }
        }
    }
}

// ---------------------------------------------------------------------------
// After the last step

/// Turning around the start vertex, as a sequence over the sides.
pub open spec fn turn_steps(faces: Seq<[u64; 3]>) -> Seq<int> {
    Seq::new(num_sides(faces) as nat, |d: int| turn(faces, d))
}

/// Once every edge is crossed, the walk turns around the vertices.
proof fn lemma_walk_all(faces: Seq<[u64; 3]>)
    requires
        edges_sound(faces),
    ensures
        walk(faces, num_sides(faces)) == turn_steps(faces),
{
    assert forall|d: int| 0 <= d < num_sides(faces) implies #[trigger] crossed(
        faces,
        num_sides(faces),
        d,
    ) by {
        lemma_lead_side(faces, d);
    }
    assert(walk(faces, num_sides(faces)) =~= turn_steps(faces));
}

proof fn lemma_turn_steps_iterate(faces: Seq<[u64; 3]>, y: int, k: nat)
    requires
        edges_sound(faces),
        0 <= y < num_sides(faces),
    ensures
        iterate(turn_steps(faces), y, k) == turn_iter(faces, y, k),
    decreases k,
{
    if k > 0 {
        lemma_turn_steps_iterate(faces, y, (k - 1) as nat);
        lemma_turn_iter(faces, y, (k - 1) as nat);
    }
}

/// The cycles of turning are the sectors.
proof fn lemma_turn_heads(faces: Seq<[u64; 3]>, x: int)
    requires
        edges_sound(faces),
        0 <= x < num_sides(faces),
    ensures
        cycle_head(turn_steps(faces), x) == opens_sector(faces, x),
{
    assert forall|y: int|
        #![trigger leads(turn_steps(faces), y, x)]
        #![trigger reaches(faces, y, x)]
        0 <= y < x implies leads(turn_steps(faces), y, x) == reaches(faces, y, x) by {
        if leads(turn_steps(faces), y, x) {
            let k = choose|k: nat| #[trigger] iterate(turn_steps(faces), y, k) == x;
            lemma_turn_steps_iterate(faces, y, k);
            assert(turn_iter(faces, y, k) == x);
        }
        if reaches(faces, y, x) {
            let k = choose|k: nat| #[trigger] turn_iter(faces, y, k) == x;
            lemma_turn_steps_iterate(faces, y, k);
            assert(iterate(turn_steps(faces), y, k) == x);
        }
    }
}

/// The sectors among the first `m` sides at the vertices `vs`.
pub open spec fn sectors_sum(faces: Seq<[u64; 3]>, vs: Seq<u64>, m: int) -> nat
    decreases vs.len(),
{
    if vs.len() == 0 {
        0
    } else {
        sectors_sum(faces, vs.drop_last(), m) + sectors_upto(faces, vs.last(), m)
    }
}

/// Number of times `t` occurs in `vs`.
pub open spec fn occurrences(vs: Seq<u64>, t: u64) -> nat
    decreases vs.len(),
{
    if vs.len() == 0 {
        0
    } else {
        occurrences(vs.drop_last(), t) + if vs.last() == t {
            1nat
        } else {
            0nat
        }
    }
}

proof fn lemma_occurrences(vs: Seq<u64>, t: u64)
    requires
        vs.no_duplicates(),
    ensures
        occurrences(vs, t) == if vs.contains(t) {
            1nat
        } else {
            0nat
        },
    decreases vs.len(),
{
    if vs.len() > 0 {
        let init = vs.drop_last();
        assert(init.no_duplicates());
        lemma_occurrences(init, t);
        assert(vs =~= init.push(vs.last()));
        if init.contains(t) {
            let i = choose|i: int| 0 <= i < init.len() && init[i] == t;
            assert(vs[i] == t);
            if vs.last() == t {
                assert(vs[vs.len() - 1] == t);
            }
        }
        if vs.contains(t) && vs.last() != t {
            let i = choose|i: int| 0 <= i < vs.len() && vs[i] == t;
            assert(init[i] == t);
        }
    }
}

proof fn lemma_sectors_sum_zero(faces: Seq<[u64; 3]>, vs: Seq<u64>)
    ensures
        sectors_sum(faces, vs, 0) == 0,
    decreases vs.len(),
{
    if vs.len() > 0 {
        lemma_sectors_sum_zero(faces, vs.drop_last());
    }
}

proof fn lemma_sectors_sum_step(faces: Seq<[u64; 3]>, vs: Seq<u64>, m: int)
    requires
        0 <= m,
    ensures
        sectors_sum(faces, vs, m + 1) == sectors_sum(faces, vs, m) + if opens_sector(faces, m) {
            occurrences(vs, tail(faces, m))
        } else {
            0nat
        },
    decreases vs.len(),
{
    if vs.len() > 0 {
        lemma_sectors_sum_step(faces, vs.drop_last(), m);
    }
}

/// Summed over the vertices, the sectors are the cycles of turning.
proof fn lemma_heads_sum(faces: Seq<[u64; 3]>, vs: Seq<u64>, m: int)
    requires
        edges_sound(faces),
        vs.no_duplicates(),
        0 <= m <= num_sides(faces),
        forall|d: int| 0 <= d < num_sides(faces) ==> vs.contains(#[trigger] tail(faces, d)),
    ensures
        heads_below(turn_steps(faces), m) == sectors_sum(faces, vs, m),
    decreases m,
{
    if m == 0 {
        lemma_sectors_sum_zero(faces, vs);
    } else {
        lemma_heads_sum(faces, vs, m - 1);
        lemma_turn_heads(faces, m - 1);
        lemma_sectors_sum_step(faces, vs, m - 1);
        lemma_occurrences(vs, tail(faces, m - 1));
    }
}

/// With one sector at each vertex, the sectors number the vertices.
proof fn lemma_sum_single(faces: Seq<[u64; 3]>, vs: Seq<u64>)
    requires
        vertices_single(vs, faces),
    ensures
        sectors_sum(faces, vs, num_sides(faces)) == vs.len(),
    decreases vs.len(),
{
    if vs.len() > 0 {
        let init = vs.drop_last();
        assert forall|i: int| 0 <= i < init.len() implies #[trigger] sector_count(faces, init[i])
            == 1 by {
            assert(init[i] == vs[i]);
        }
        lemma_sum_single(faces, init);
        assert(sector_count(faces, vs[vs.len() - 1]) == 1);
    }
}

/// Along a walk across shared edges, a labelling that agrees on adjacent
/// faces stays the same.
proof fn lemma_walk_labels(faces: Seq<[u64; 3]>, lab: Seq<int>, p: Seq<int>, i: int)
    requires
        is_face_walk(faces, p),
        0 <= i < p.len(),
        forall|f: int, g: int|
            0 <= f < faces.len() && 0 <= g < faces.len() && #[trigger] faces_adjacent(faces, f, g)
                ==> lab[f] == lab[g],
    ensures
        lab[p[i]] == lab[p[0]],
    decreases i,
{
    if i > 0 {
        let h = i - 1;
        lemma_walk_labels(faces, lab, p, h);
        assert(faces_adjacent(faces, p[h], p[h + 1]));
        assert(0 <= p[h] < faces.len() && 0 <= p[h + 1] < faces.len());
    }
}

/// On a connected mesh, crossing every edge leaves a single group.
proof fn lemma_one_group(faces: Seq<[u64; 3]>)
    requires
        edges_sound(faces),
        faces_connected(faces),
        faces.len() >= 1,
    ensures
        roots(groups(faces, num_sides(faces))) == 1,
{
    let n = num_sides(faces);
    lemma_steps(faces, n);
    let lab = groups(faces, n);
    assert forall|f: int, g: int|
        0 <= f < faces.len() && 0 <= g < faces.len() && #[trigger] faces_adjacent(faces, f, g)
            implies lab[f] == lab[g] by {
        let (i, j) = choose|i: int, j: int|
            0 <= i < 3 && 0 <= j < 3 && #[trigger] edge_key(faces, 3 * f + i) == #[trigger] edge_key(
                faces,
                3 * g + j,
            );
        lemma_same_edge(faces, 3 * f + i, 3 * g + j);
        lemma_lead_side(faces, 3 * f + i);
        assert(crossed(faces, n, 3 * f + i));
        assert((3 * f + i) / 3 == f);
        assert((3 * g + j) / 3 == g);
    }
    assert forall|g: int| 0 <= g < faces.len() implies #[trigger] lab[g] == lab[0] by {
        assert(faces_linked(faces, 0, g));
        let p = choose|p: Seq<int>| #[trigger] is_face_walk(faces, p) && p[0] == 0 && p.last() == g;
        lemma_walk_labels(faces, lab, p, p.len() - 1);
    }
    lemma_one_root(lab, lab[0], faces.len() as int);
}

/// A mesh whose edges are sound, whose vertices have one sector each and
/// whose faces are connected is a closed orientable surface: its Euler
/// characteristic V - E + F is even and at most 2, so that the genus
/// (2 - (V - E + F)) / 2 is a natural number.
pub proof fn lemma_euler_characteristic(mesh: Mesh)
    requires
        mesh.well_formed(),
        edges_sound(mesh.faces@),
        vertices_single(mesh.vertices@, mesh.faces@),
        faces_connected(mesh.faces@),
    ensures
        ({
            let euler = mesh.vertices@.len() - edge_set(mesh.faces@).len() + mesh.faces@.len();
            euler % 2 == 0 && euler <= 2
        }),
{
    let vs = mesh.vertices@;
    let fs = mesh.faces@;
    let n = num_sides(fs);
    let nf = fs.len() as int;
    lemma_edge_count(fs);
    if nf == 0 {
        assert(edge_set(fs) =~= Set::<(u64, u64)>::empty());
        if vs.len() > 0 {
            assert(sector_count(fs, vs[0]) == 1);
        }
    } else {
        lemma_steps(fs, n);
        lemma_forward_below(fs, n);
        lemma_one_group(fs);
        lemma_walk_all(fs);
        assert(vs.no_duplicates());
        assert forall|d: int| 0 <= d < n implies vs.contains(#[trigger] tail(fs, d)) by {
            assert(0 <= d / 3 < nf && 0 <= d % 3 < 3);
        }
        lemma_heads_sum(fs, vs, n);
        lemma_sum_single(fs, vs);
        let v = vs.len() as int;
        let e = edge_set(fs).len() as int;
        assert(v - 1 <= e - nf + 1);
        assert((e - nf + 1 - (v - 1)) % 2 == 0);
    }
}

} // verus!
