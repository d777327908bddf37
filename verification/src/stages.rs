//! What each stage of the audit decides, stated over sets of sides.
//!
//! An edge is judged by how many sides lie on it and in which directions; a
//! vertex by how many cycles of turns pass around it; and the witness of a
//! stage is the least by the stated order.

use vstd::prelude::*;
use vstd::set_lib::{lemma_int_range, lemma_len_subset, lemma_set_disjoint_lens, set_int_range};

use crate::audit::{audit_outcome, Audit, EdgeKind, Finding};
use crate::renumber::{lemma_opener_exists, lemma_openers_len, openers_below};
use crate::topology::{
    directed_uses, edge_fault, edge_key, edge_uses, head, num_sides, opens_sector, reaches,
    sector_count, sides_between, tail, turn, turn_iter,
};
use crate::turns::{lemma_reaches_back, lemma_reaches_trans};

verus! {

// ---------------------------------------------------------------------------
// Edges

/// The sides that run from `x` to `y`.
pub open spec fn sides_running(fs: Seq<[u64; 3]>, x: u64, y: u64) -> Set<int> {
    Set::new(|d: int| 0 <= d < num_sides(fs) && tail(fs, d) == x && head(fs, d) == y)
}

/// The sides that lie on the undirected edge `{lo, hi}`, in either direction.
pub open spec fn sides_on(fs: Seq<[u64; 3]>, lo: u64, hi: u64) -> Set<int> {
    Set::new(
        |d: int|
            0 <= d < num_sides(fs) && ((tail(fs, d) == lo && head(fs, d) == hi) || (tail(fs, d)
                == hi && head(fs, d) == lo)),
    )
}

proof fn lemma_running_below(fs: Seq<[u64; 3]>, x: u64, y: u64, m: int)
    requires
        0 <= m <= num_sides(fs),
    ensures
        Set::new(|d: int| 0 <= d < m && tail(fs, d) == x && head(fs, d) == y).finite(),
        Set::new(|d: int| 0 <= d < m && tail(fs, d) == x && head(fs, d) == y).len()
            == sides_between(fs, x, y, m),
    decreases m,
{
    let s = Set::new(|d: int| 0 <= d < m && tail(fs, d) == x && head(fs, d) == y);
    lemma_int_range(0, m);
    lemma_len_subset(s, set_int_range(0, m));
    if m == 0 {
        assert(s =~= Set::<int>::empty());
    } else {
        lemma_running_below(fs, x, y, m - 1);
        let p = Set::new(|d: int| 0 <= d < m - 1 && tail(fs, d) == x && head(fs, d) == y);
        if tail(fs, m - 1) == x && head(fs, m - 1) == y {
            assert(s =~= p.insert(m - 1));
        } else {
            assert(s =~= p);
        }
    }
}

/// The count of sides from `x` to `y` is the number of such sides.
pub proof fn lemma_directed_uses(fs: Seq<[u64; 3]>, x: u64, y: u64)
    ensures
        sides_running(fs, x, y).finite(),
        directed_uses(fs, x, y) == sides_running(fs, x, y).len(),
{
    lemma_running_below(fs, x, y, num_sides(fs));
    assert(sides_running(fs, x, y) =~= Set::new(
        |d: int| 0 <= d < num_sides(fs) && tail(fs, d) == x && head(fs, d) == y,
    ));
}

/// The uses of an edge are the sides on it.
pub proof fn lemma_edge_uses(fs: Seq<[u64; 3]>, lo: u64, hi: u64)
    requires
        lo <= hi,
    ensures
        sides_on(fs, lo, hi).finite(),
        edge_uses(fs, lo, hi) == sides_on(fs, lo, hi).len(),
        sides_on(fs, lo, hi) == Set::new(
            |d: int| 0 <= d < num_sides(fs) && #[trigger] edge_key(fs, d) == (lo, hi),
        ),
{
    lemma_directed_uses(fs, lo, hi);
    lemma_directed_uses(fs, hi, lo);
    if lo == hi {
        assert(sides_on(fs, lo, hi) =~= sides_running(fs, lo, lo));
    } else {
        assert(sides_on(fs, lo, hi) =~= sides_running(fs, lo, hi) + sides_running(fs, hi, lo));
        lemma_set_disjoint_lens(sides_running(fs, lo, hi), sides_running(fs, hi, lo));
    }
    assert(sides_on(fs, lo, hi) =~= Set::new(
        |d: int| 0 <= d < num_sides(fs) && #[trigger] edge_key(fs, d) == (lo, hi),
    ));
}

/// How an edge is judged, by the sides on it: one side makes a boundary
/// edge; two sides in the same direction an orientation fault; three or more
/// sides, whatever their directions, a non-manifold edge; and two sides in
/// opposite directions (or none) a sound edge.
pub proof fn lemma_edge_kinds(fs: Seq<[u64; 3]>, lo: u64, hi: u64)
    requires
        lo <= hi,
    ensures
        ({
            let uses = sides_on(fs, lo, hi).len();
            let fwd = sides_running(fs, lo, hi).len();
            let bwd = sides_running(fs, hi, lo).len();
            &&& (edge_fault(fs, lo, hi) == Some(EdgeKind::Boundary) <==> uses == 1)
            &&& (edge_fault(fs, lo, hi) == Some(EdgeKind::Orientation) <==> uses == 2 && (fwd == 2
                || bwd == 2))
            &&& (edge_fault(fs, lo, hi) == Some(EdgeKind::NonManifold) <==> uses >= 3)
            &&& (edge_fault(fs, lo, hi) is None <==> uses == 0 || (uses == 2 && fwd == 1 && bwd
                == 1))
        }),
{
    lemma_edge_uses(fs, lo, hi);
    lemma_directed_uses(fs, lo, hi);
    lemma_directed_uses(fs, hi, lo);
}

/// The witness of a failed edge stage: an edge of the mesh, judged as
/// `lemma_edge_kinds` says, and the least defective edge by its smaller end,
/// then its larger end.
pub proof fn lemma_edge_witness(vs: Seq<u64>, fs: Seq<[u64; 3]>, r: Audit)
    requires
        audit_outcome(vs, fs, r),
        r is Failed,
        r->Failed_0 is Edge,
    ensures
        ({
            let a = r->Failed_0->Edge_0;
            &&& a.lo <= a.hi
            &&& sides_on(fs, a.lo, a.hi).len() >= 1
            &&& edge_fault(fs, a.lo, a.hi) == Some(a.kind)
            &&& forall|d: int|
                0 <= d < num_sides(fs) && (#[trigger] edge_fault(
                    fs,
                    edge_key(fs, d).0,
                    edge_key(fs, d).1,
                )) is Some ==> a.lo < edge_key(fs, d).0 || (a.lo == edge_key(fs, d).0 && a.hi
                    <= edge_key(fs, d).1)
        }),
{
    let a = r->Failed_0->Edge_0;
    lemma_edge_uses(fs, a.lo, a.hi);
    let d0 = choose|d: int| 0 <= d < num_sides(fs) && #[trigger] edge_key(fs, d) == (a.lo, a.hi);
    assert(sides_on(fs, a.lo, a.hi).contains(d0));
    assert forall|d: int|
        0 <= d < num_sides(fs) && (#[trigger] edge_fault(
            fs,
            edge_key(fs, d).0,
            edge_key(fs, d).1,
        )) is Some implies a.lo < edge_key(fs, d).0 || (a.lo == edge_key(fs, d).0 && a.hi
        <= edge_key(fs, d).1) by {
        assert(crate::topology::side_faulty(fs, d));
    }
}

// ---------------------------------------------------------------------------
// Vertices

/// The sides at `v` that open a sector: each is the least side of its cycle
/// of turns.
pub open spec fn sector_openers(fs: Seq<[u64; 3]>, v: u64) -> Set<int> {
    Set::new(|d: int| 0 <= d < num_sides(fs) && tail(fs, d) == v && opens_sector(fs, d))
}

/// The sectors at `v` are the cycles of turns around `v`, however many:
/// every side at `v` lies on the cycle of an opening side, no opening side
/// lies on the cycle of another, and the count of sectors is the number of
/// opening sides.
pub proof fn lemma_sectors_are_cycles(fs: Seq<[u64; 3]>, v: u64)
    requires
        crate::topology::edges_sound(fs),
    ensures
        sector_openers(fs, v).finite(),
        sector_count(fs, v) == sector_openers(fs, v).len(),
        forall|d: int|
            0 <= d < num_sides(fs) && tail(fs, d) == v ==> exists|h: int|
                #[trigger] sector_openers(fs, v).contains(h) && reaches(fs, h, d),
        forall|h1: int, h2: int|
            sector_openers(fs, v).contains(h1) && sector_openers(fs, v).contains(h2)
                && #[trigger] reaches(fs, h1, h2) ==> h1 == h2,
{
    let n = num_sides(fs);
    lemma_openers_len(fs, v, n);
    assert(sector_openers(fs, v) =~= openers_below(fs, v, n));
    assert forall|d: int| 0 <= d < n && tail(fs, d) == v implies exists|h: int|
        #[trigger] sector_openers(fs, v).contains(h) && reaches(fs, h, d) by {
        let h = lemma_opener_exists(fs, d);
        let k = choose|k: nat| #[trigger] turn_iter(fs, h, k) == d;
        crate::turns::lemma_turn_iter(fs, h, k);
        assert(sector_openers(fs, v).contains(h));
    }
    assert forall|h1: int, h2: int|
        sector_openers(fs, v).contains(h1) && sector_openers(fs, v).contains(h2)
            && #[trigger] reaches(fs, h1, h2) implies h1 == h2 by {
        if h2 < h1 {
            let k = choose|k: nat| #[trigger] turn_iter(fs, h1, k) == h2;
            lemma_reaches_back(fs, h1, k);
            assert(reaches(fs, h2, h1));
        } else if h1 < h2 {
            assert(!reaches(fs, h1, h2));
        }
    }
}

/// The witness of a failed vertex stage reports the full number of sectors
/// at the vertex, and every smaller vertex has exactly one.
pub proof fn lemma_vertex_witness(vs: Seq<u64>, fs: Seq<[u64; 3]>, r: Audit)
    requires
        audit_outcome(vs, fs, r),
        r is Failed,
        r->Failed_0 is Vertex,
    ensures
        ({
            let id = r->Failed_0->Vertex_id;
            let sectors = r->Failed_0->Vertex_sectors;
            &&& vs.contains(id)
            &&& sectors == sector_openers(fs, id).len()
            &&& sectors != 1
            &&& forall|i: int|
                0 <= i < vs.len() && vs[i] < id ==> #[trigger] sector_openers(fs, vs[i]).len() == 1
        }),
{
    let id = r->Failed_0->Vertex_id;
    lemma_sectors_are_cycles(fs, id);
    assert forall|i: int| 0 <= i < vs.len() && vs[i] < id implies #[trigger] sector_openers(
        fs,
        vs[i],
    ).len() == 1 by {
        lemma_sectors_are_cycles(fs, vs[i]);
    }
}

// ---------------------------------------------------------------------------
// Turns and adjacency

/// A turn at the start of side `d` crosses into the face that holds the side
/// running opposite to `d`, and takes there the one side that starts where
/// `d` starts.
pub proof fn lemma_turn_meaning(fs: Seq<[u64; 3]>, d: int)
    requires
        crate::topology::edges_sound(fs),
        0 <= d < num_sides(fs),
    ensures
        0 <= turn(fs, d) < num_sides(fs),
        tail(fs, turn(fs, d)) == tail(fs, d),
        exists|e: int|
            0 <= e < num_sides(fs) && e / 3 == turn(fs, d) / 3 && tail(fs, e) == head(fs, d)
                && #[trigger] head(fs, e) == tail(fs, d),
        forall|e: int|
            0 <= e < num_sides(fs) && e / 3 == turn(fs, d) / 3 && #[trigger] tail(fs, e) == tail(
                fs,
                d,
            ) ==> e == turn(fs, d),
{
    crate::turns::lemma_reverse(fs, d);
    let r = crate::topology::reverse_side(fs, d);
    crate::turns::lemma_turn(fs, d);
    let t = turn(fs, d);
    let f = t / 3;
    assert(r / 3 == f);
    assert(head(fs, r) == tail(fs, d));
    crate::turns::lemma_sound_side(fs, 3 * f);
    crate::turns::lemma_sound_side(fs, 3 * f + 1);
    crate::turns::lemma_sound_side(fs, 3 * f + 2);
    assert forall|e: int|
        0 <= e < num_sides(fs) && e / 3 == f && #[trigger] tail(fs, e) == tail(fs, d) implies e == t by {
        assert(tail(fs, 3 * f) == fs[f][0]);
        assert(tail(fs, 3 * f + 1) == fs[f][1]);
        assert(tail(fs, 3 * f + 2) == fs[f][2]);
        assert(head(fs, 3 * f) == fs[f][1]);
        assert(head(fs, 3 * f + 1) == fs[f][2]);
    }
}

/// Two faces are adjacent exactly when a side of one and a side of the
/// other join the same two vertices, in either direction.
pub proof fn lemma_adjacent_meaning(fs: Seq<[u64; 3]>, f: int, g: int)
    requires
        0 <= f < fs.len(),
        0 <= g < fs.len(),
    ensures
        crate::topology::faces_adjacent(fs, f, g) <==> exists|i: int, j: int|
            0 <= i < 3 && 0 <= j < 3 && ((tail(fs, #[trigger] (3 * f + i)) == tail(
                fs,
                #[trigger] (3 * g + j),
            ) && head(fs, 3 * f + i) == head(fs, 3 * g + j)) || (tail(fs, 3 * f + i) == head(
                fs,
                3 * g + j,
            ) && head(fs, 3 * f + i) == tail(fs, 3 * g + j))),
{
    if crate::topology::faces_adjacent(fs, f, g) {
        let (i, j) = choose|i: int, j: int|
            0 <= i < 3 && 0 <= j < 3 && #[trigger] edge_key(fs, 3 * f + i) == #[trigger] edge_key(
                fs,
                3 * g + j,
            );
        assert(0 <= i < 3 && 0 <= j < 3);
    }
    if exists|i: int, j: int|
        0 <= i < 3 && 0 <= j < 3 && ((tail(fs, #[trigger] (3 * f + i)) == tail(
            fs,
            #[trigger] (3 * g + j),
        ) && head(fs, 3 * f + i) == head(fs, 3 * g + j)) || (tail(fs, 3 * f + i) == head(
            fs,
            3 * g + j,
        ) && head(fs, 3 * f + i) == tail(fs, 3 * g + j))) {
        let (i, j) = choose|i: int, j: int|
            0 <= i < 3 && 0 <= j < 3 && ((tail(fs, #[trigger] (3 * f + i)) == tail(
                fs,
                #[trigger] (3 * g + j),
            ) && head(fs, 3 * f + i) == head(fs, 3 * g + j)) || (tail(fs, 3 * f + i) == head(
                fs,
                3 * g + j,
            ) && head(fs, 3 * f + i) == tail(fs, 3 * g + j)));
        assert(edge_key(fs, 3 * f + i) == edge_key(fs, 3 * g + j));
    }
}

} // verus!
