//! The mathematical model of an oriented triangle mesh.
//!
//! Face `f` with vertices `[a, b, c]` contributes three sides, numbered
//! `3f`, `3f + 1` and `3f + 2`, running `a -> b`, `b -> c` and `c -> a`.
//! Every notion the audit checks is stated over these sides.

use vstd::prelude::*;

use crate::audit::EdgeKind;

verus! {

/// Number of sides of the mesh: three per face.
pub open spec fn num_sides(faces: Seq<[u64; 3]>) -> int {
    3 * faces.len() as int
}

/// The vertex at which side `d` starts.
pub open spec fn tail(faces: Seq<[u64; 3]>, d: int) -> u64 {
    faces[d / 3][d % 3]
}

/// The vertex at which side `d` ends.
pub open spec fn head(faces: Seq<[u64; 3]>, d: int) -> u64 {
    faces[d / 3][(d % 3 + 1) % 3]
}

/// The undirected edge under side `d`, as `(smaller id, larger id)`.
pub open spec fn edge_key(faces: Seq<[u64; 3]>, d: int) -> (u64, u64) {
    if tail(faces, d) <= head(faces, d) {
        (tail(faces, d), head(faces, d))
    } else {
        (head(faces, d), tail(faces, d))
    }
}

/// Lexicographic order on undirected edges.
pub open spec fn key_lt(a: (u64, u64), b: (u64, u64)) -> bool {
    a.0 < b.0 || (a.0 == b.0 && a.1 < b.1)
}

/// Number of sides among the first `n` that run from `x` to `y`.
pub open spec fn sides_between(faces: Seq<[u64; 3]>, x: u64, y: u64, n: int) -> nat
    decreases n,
{
    if n <= 0 {
        0
    } else {
        sides_between(faces, x, y, n - 1) + if tail(faces, n - 1) == x && head(faces, n - 1) == y {
            1nat
        } else {
            0nat
        }
    }
}

/// Number of sides of the mesh that run from `x` to `y`.
pub open spec fn directed_uses(faces: Seq<[u64; 3]>, x: u64, y: u64) -> nat {
    sides_between(faces, x, y, num_sides(faces))
}

/// Number of sides of the mesh that lie on the undirected edge `{lo, hi}`.
pub open spec fn edge_uses(faces: Seq<[u64; 3]>, lo: u64, hi: u64) -> nat {
    if lo == hi {
        directed_uses(faces, lo, lo)
    } else {
        directed_uses(faces, lo, hi) + directed_uses(faces, hi, lo)
    }
}

/// The defect of the undirected edge `{lo, hi}` (with `lo <= hi`), if any:
/// an edge must be used exactly twice, once in each direction.
pub open spec fn edge_fault(faces: Seq<[u64; 3]>, lo: u64, hi: u64) -> Option<EdgeKind> {
    let uses = edge_uses(faces, lo, hi);
    if uses == 1 {
        Some(EdgeKind::Boundary)
    } else if uses == 2 {
        if directed_uses(faces, lo, hi) == 1 {
            None
        } else {
            Some(EdgeKind::Orientation)
        }
    } else if uses >= 3 {
        Some(EdgeKind::NonManifold)
    } else {
        None
    }
}

/// Side `d` lies on a defective edge.
pub open spec fn side_faulty(faces: Seq<[u64; 3]>, d: int) -> bool {
    edge_fault(faces, edge_key(faces, d).0, edge_key(faces, d).1) is Some
}

/// Every undirected edge is used by exactly two sides running in opposite directions.
pub open spec fn edges_sound(faces: Seq<[u64; 3]>) -> bool {
    forall|d: int| 0 <= d < num_sides(faces) ==> !#[trigger] side_faulty(faces, d)
}


// ---------------------------------------------------------------------------
// Turning around a vertex

/// Side `e` runs along side `d` in the opposite direction.
pub open spec fn is_reverse(faces: Seq<[u64; 3]>, d: int, e: int) -> bool {
    tail(faces, e) == head(faces, d) && head(faces, e) == tail(faces, d)
}

/// The side running opposite to side `d` (unique once the edges are sound).
pub open spec fn reverse_side(faces: Seq<[u64; 3]>, d: int) -> int {
    choose|e: int| 0 <= e < num_sides(faces) && is_reverse(faces, d, e)
}

/// The side that follows side `d` within its face.
pub open spec fn next_side(d: int) -> int {
    3 * (d / 3) + (d % 3 + 1) % 3
}

/// Turning at the start vertex of side `d` into the neighbouring face:
/// cross the edge of `d` to the opposite side, then step to the next side of
/// that face. The result starts at the same vertex as `d`.
pub open spec fn turn(faces: Seq<[u64; 3]>, d: int) -> int {
    next_side(reverse_side(faces, d))
}

/// `k` turns starting from side `d`.
pub open spec fn turn_iter(faces: Seq<[u64; 3]>, d: int, k: nat) -> int
    decreases k,
{
    if k == 0 {
        d
    } else {
        turn(faces, turn_iter(faces, d, (k - 1) as nat))
    }
}

/// Side `e` is reached from side `d` by turning around their common start vertex.
pub open spec fn reaches(faces: Seq<[u64; 3]>, d: int, e: int) -> bool {
    exists|k: nat| #[trigger] turn_iter(faces, d, k) == e
}

/// Side `d` is the lowest-numbered side of the cycle of turns it lies on:
/// no earlier side reaches it.
pub open spec fn opens_sector(faces: Seq<[u64; 3]>, d: int) -> bool {
    forall|j: int| 0 <= j < d ==> !#[trigger] reaches(faces, j, d)
}

/// Number of sectors at vertex `v` among the first `n` sides: each cycle of
/// turns around `v` is one sector, counted at its lowest-numbered side.
pub open spec fn sectors_upto(faces: Seq<[u64; 3]>, v: u64, n: int) -> nat
    decreases n,
{
    if n <= 0 {
        0
    } else {
        sectors_upto(faces, v, n - 1) + if tail(faces, n - 1) == v && opens_sector(
            faces,
            n - 1,
        ) {
            1nat
        } else {
            0nat
        }
    }
}

/// Number of sectors (fans of faces joined through shared edges) at vertex `v`.
pub open spec fn sector_count(faces: Seq<[u64; 3]>, v: u64) -> nat {
    sectors_upto(faces, v, num_sides(faces))
}


// ---------------------------------------------------------------------------
// Connectivity of faces

/// Faces `f` and `g` share an undirected edge.
pub open spec fn faces_adjacent(faces: Seq<[u64; 3]>, f: int, g: int) -> bool {
    exists|i: int, j: int|
        0 <= i < 3 && 0 <= j < 3 && #[trigger] edge_key(faces, 3 * f + i) == #[trigger] edge_key(
            faces,
            3 * g + j,
        )
}

/// The face across the edge of side `k` of face `f`.
pub open spec fn neighbor(faces: Seq<[u64; 3]>, f: int, k: int) -> int {
    reverse_side(faces, 3 * f + k) / 3
}

/// `p` is a walk through the faces, each step crossing a shared edge.
pub open spec fn is_face_walk(faces: Seq<[u64; 3]>, p: Seq<int>) -> bool {
    &&& p.len() >= 1
    &&& forall|i: int| 0 <= i < p.len() ==> 0 <= #[trigger] p[i] < faces.len()
    &&& forall|i: int| 0 <= i < p.len() - 1 ==> #[trigger] faces_adjacent(faces, p[i], p[i + 1])
}

/// Faces `f` and `g` are joined by a walk across shared edges.
pub open spec fn faces_linked(faces: Seq<[u64; 3]>, f: int, g: int) -> bool {
    exists|p: Seq<int>| #[trigger] is_face_walk(faces, p) && p[0] == f && p.last() == g
}

/// Every face is joined to face 0.
pub open spec fn faces_connected(faces: Seq<[u64; 3]>) -> bool {
    forall|g: int| 0 <= g < faces.len() ==> #[trigger] faces_linked(faces, 0, g)
}

/// Every vertex of `vertices` has exactly one sector.
pub open spec fn vertices_single(vertices: Seq<u64>, faces: Seq<[u64; 3]>) -> bool {
    forall|i: int| 0 <= i < vertices.len() ==> #[trigger] sector_count(faces, vertices[i]) == 1
}

// ---------------------------------------------------------------------------
// Invariants of a closed surface

/// The undirected edges of the mesh.
pub open spec fn edge_set(faces: Seq<[u64; 3]>) -> Set<(u64, u64)> {
    Set::new(|k: (u64, u64)| exists|d: int| 0 <= d < num_sides(faces) && #[trigger] edge_key(faces, d) == k)
}

// ---------------------------------------------------------------------------
// Lemmas on side counts

pub proof fn lemma_sides_between_bound(faces: Seq<[u64; 3]>, x: u64, y: u64, n: int)
    requires
        0 <= n,
    ensures
        sides_between(faces, x, y, n) <= n,
    decreases n,
{
    if n > 0 {
        lemma_sides_between_bound(faces, x, y, n - 1);
    }
}

/// A positive count has a witness.
pub proof fn lemma_sides_between_witness(faces: Seq<[u64; 3]>, x: u64, y: u64, n: int)
    requires
        sides_between(faces, x, y, n) > 0,
    ensures
        exists|e: int| 0 <= e < n && tail(faces, e) == x && head(faces, e) == y,
    decreases n,
{
    if n > 0 {
        if !(tail(faces, n - 1) == x && head(faces, n - 1) == y) {
            lemma_sides_between_witness(faces, x, y, n - 1);
        }
    }
}

/// Every matching side is counted.
pub proof fn lemma_sides_between_counts(faces: Seq<[u64; 3]>, x: u64, y: u64, n: int, e: int)
    requires
        0 <= e < n,
        tail(faces, e) == x,
        head(faces, e) == y,
    ensures
        sides_between(faces, x, y, n) >= 1,
    decreases n,
{
    if e < n - 1 {
        lemma_sides_between_counts(faces, x, y, n - 1, e);
    }
}

/// A count of one has a single witness.
pub proof fn lemma_sides_between_unique(
    faces: Seq<[u64; 3]>,
    x: u64,
    y: u64,
    n: int,
    e1: int,
    e2: int,
)
    requires
        sides_between(faces, x, y, n) == 1,
        0 <= e1 < n,
        0 <= e2 < n,
        tail(faces, e1) == x && head(faces, e1) == y,
        tail(faces, e2) == x && head(faces, e2) == y,
    ensures
        e1 == e2,
    decreases n,
{
    if e1 == n - 1 && e2 < n - 1 {
        lemma_sides_between_counts(faces, x, y, n - 1, e2);
    } else if e2 == n - 1 && e1 < n - 1 {
        lemma_sides_between_counts(faces, x, y, n - 1, e1);
    } else if e1 < n - 1 && e2 < n - 1 {
        if tail(faces, n - 1) == x && head(faces, n - 1) == y {
            lemma_sides_between_counts(faces, x, y, n - 1, e1);
        } else {
            lemma_sides_between_unique(faces, x, y, n - 1, e1, e2);
        }
    }
}

} // verus!
