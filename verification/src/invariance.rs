//! What the audit does not depend on: the names of the vertices, as long as
//! their order is kept, and where each face starts its list of corners.

use vstd::prelude::*;
use vstd::relations::injective_on;
use vstd::set_lib::lemma_map_size;

use crate::audit::{audit_outcome, Audit, EdgeAnomaly, Finding};
use crate::euler::{lemma_side_steps, prev_side};
use crate::renumber::{
    lemma_renumbered_outcome, lemma_renumbered_reverse, renumbered, turns_match,
};
use crate::surface::lemma_edge_count;
use crate::topology::{
    edge_fault, edge_key, edge_set, edges_sound, faces_adjacent, faces_linked, head, is_face_walk,
    is_reverse, key_lt, next_side, num_sides, opens_sector, reaches, reverse_side, sector_count,
    sectors_upto, side_faulty, sides_between, tail, turn, turn_iter,
};
use crate::turns::{lemma_reverse, lemma_reverse_involution};

verus! {

/// One mesh has one audit outcome.
pub proof fn lemma_outcome_unique(vs: Seq<u64>, fs: Seq<[u64; 3]>, r1: Audit, r2: Audit)
    requires
        audit_outcome(vs, fs, r1),
        audit_outcome(vs, fs, r2),
    ensures
        r1 == r2,
{
    lemma_outcome_order(vs, fs, r1, r2);
    lemma_outcome_order(vs, fs, r2, r1);
}

/// The variant of an outcome, in the order of the stages.
spec fn stage(r: Audit) -> int {
    match r {
        Audit::Failed(Finding::Edge(_)) => 0,
        Audit::Failed(Finding::Vertex { .. }) => 1,
        Audit::Failed(Finding::Connectivity { .. }) => 2,
        Audit::Passed { .. } => 3,
    }
}

/// Two outcomes of one mesh: the earlier stage cannot come first, and on
/// one stage the witnesses coincide.
proof fn lemma_outcome_order(vs: Seq<u64>, fs: Seq<[u64; 3]>, r1: Audit, r2: Audit)
    requires
        audit_outcome(vs, fs, r1),
        audit_outcome(vs, fs, r2),
    ensures
        stage(r1) <= stage(r2),
        stage(r1) == stage(r2) ==> r1 == r2,
{
    match r1 {
        Audit::Failed(Finding::Edge(a)) => {
            let d1 = choose|d: int|
                0 <= d < num_sides(fs) && #[trigger] edge_key(fs, d) == (a.lo, a.hi);
            assert(side_faulty(fs, d1));
            if let Audit::Failed(Finding::Edge(b)) = r2 {
                let d2 = choose|d: int|
                    0 <= d < num_sides(fs) && #[trigger] edge_key(fs, d) == (b.lo, b.hi);
                assert(side_faulty(fs, d2));
                assert(!key_lt(edge_key(fs, d1), (b.lo, b.hi)));
                assert(!key_lt(edge_key(fs, d2), (a.lo, a.hi)));
            }
        },
        Audit::Failed(Finding::Vertex { id, sectors }) => {
            let i1 = choose|i: int| 0 <= i < vs.len() && vs[i] == id;
            match r2 {
                Audit::Failed(Finding::Edge(b)) => {
                    let d2 = choose|d: int|
                        0 <= d < num_sides(fs) && #[trigger] edge_key(fs, d) == (b.lo, b.hi);
                    assert(side_faulty(fs, d2));
                },
                Audit::Failed(Finding::Vertex { id: id2, sectors: s2 }) => {
                    let i2 = choose|i: int| 0 <= i < vs.len() && vs[i] == id2;
                    assert(sector_count(fs, vs[i1]) != 1);
                    assert(sector_count(fs, vs[i2]) != 1);
                },
                _ => {
                    assert(sector_count(fs, vs[i1]) == 1);
                },
            }
        },
        Audit::Failed(Finding::Connectivity { face_index }) => {
            match r2 {
                Audit::Failed(Finding::Edge(b)) => {
                    let d2 = choose|d: int|
                        0 <= d < num_sides(fs) && #[trigger] edge_key(fs, d) == (b.lo, b.hi);
                    assert(side_faulty(fs, d2));
                },
                Audit::Failed(Finding::Vertex { id: id2, sectors: s2 }) => {
                    let i2 = choose|i: int| 0 <= i < vs.len() && vs[i] == id2;
                    assert(sector_count(fs, vs[i2]) == 1);
                },
                Audit::Failed(Finding::Connectivity { face_index: f2 }) => {
                    if face_index < f2 {
                        assert(faces_linked(fs, 0, face_index as int));
                    } else if f2 < face_index {
                        assert(faces_linked(fs, 0, f2 as int));
                    }
                },
                Audit::Passed { .. } => {
                    assert(faces_linked(fs, 0, face_index as int));
                },
            }
        },
        Audit::Passed { .. } => {
            match r2 {
                Audit::Failed(Finding::Edge(b)) => {
                    let d2 = choose|d: int|
                        0 <= d < num_sides(fs) && #[trigger] edge_key(fs, d) == (b.lo, b.hi);
                    assert(side_faulty(fs, d2));
                },
                Audit::Failed(Finding::Vertex { id: id2, sectors: s2 }) => {
                    let i2 = choose|i: int| 0 <= i < vs.len() && vs[i] == id2;
                    assert(sector_count(fs, vs[i2]) == 1);
                },
                Audit::Failed(Finding::Connectivity { face_index: f2 }) => {
                    assert(faces_linked(fs, 0, f2 as int));
                },
                Audit::Passed { .. } => {},
            }
        },
    }
}

// ---------------------------------------------------------------------------
// Renaming the vertices

/// `g` keeps the order of ids.
pub open spec fn increasing(g: spec_fn(u64) -> u64) -> bool {
    forall|x: u64, y: u64| x < y ==> #[trigger] g(x) < #[trigger] g(y)
}

/// `fs2` is `fs` with every id `x` renamed `g(x)`.
pub open spec fn faces_renamed(fs: Seq<[u64; 3]>, fs2: Seq<[u64; 3]>, g: spec_fn(u64) -> u64) -> bool {
    &&& fs2.len() == fs.len()
    &&& forall|f: int, k: int| 0 <= f < fs.len() && 0 <= k < 3 ==> #[trigger] fs2[f][k] == g(fs[f][k])
}

/// The outcome `r` with every vertex id `x` in it renamed `g(x)`.
pub open spec fn outcome_renamed(r: Audit, g: spec_fn(u64) -> u64) -> Audit {
    match r {
        Audit::Failed(Finding::Edge(a)) => Audit::Failed(
            Finding::Edge(EdgeAnomaly { kind: a.kind, lo: g(a.lo), hi: g(a.hi) }),
        ),
        Audit::Failed(Finding::Vertex { id, sectors }) => Audit::Failed(
            Finding::Vertex { id: g(id), sectors },
        ),
        _ => r,
    }
}

proof fn lemma_renamed_sides(fs: Seq<[u64; 3]>, fs2: Seq<[u64; 3]>, g: spec_fn(u64) -> u64, d: int)
    requires
        increasing(g),
        faces_renamed(fs, fs2, g),
        0 <= d < num_sides(fs),
    ensures
        tail(fs2, d) == g(tail(fs, d)),
        head(fs2, d) == g(head(fs, d)),
        edge_key(fs2, d) == (g(edge_key(fs, d).0), g(edge_key(fs, d).1)),
{
    assert(fs2[d / 3][d % 3] == g(fs[d / 3][d % 3]));
    assert(fs2[d / 3][(d % 3 + 1) % 3] == g(fs[d / 3][(d % 3 + 1) % 3]));
    let t = tail(fs, d);
    let h = head(fs, d);
    if t < h {
        assert(g(t) < g(h));
    } else if h < t {
        assert(g(h) < g(t));
    }
}

proof fn lemma_increasing(g: spec_fn(u64) -> u64, x: u64, y: u64)
    requires
        increasing(g),
    ensures
        (g(x) == g(y)) == (x == y),
        (g(x) < g(y)) == (x < y),
{
    if x < y {
        assert(g(x) < g(y));
    } else if y < x {
        assert(g(y) < g(x));
    }
}

proof fn lemma_renamed_between(
    fs: Seq<[u64; 3]>,
    fs2: Seq<[u64; 3]>,
    g: spec_fn(u64) -> u64,
    x: u64,
    y: u64,
    m: int,
)
    requires
        increasing(g),
        faces_renamed(fs, fs2, g),
        0 <= m <= num_sides(fs),
    ensures
        sides_between(fs2, g(x), g(y), m) == sides_between(fs, x, y, m),
    decreases m,
{
    if m > 0 {
        lemma_renamed_between(fs, fs2, g, x, y, m - 1);
        lemma_renamed_sides(fs, fs2, g, m - 1);
        lemma_increasing(g, tail(fs, m - 1), x);
        lemma_increasing(g, head(fs, m - 1), y);
    }
}

proof fn lemma_renamed_fault(
    fs: Seq<[u64; 3]>,
    fs2: Seq<[u64; 3]>,
    g: spec_fn(u64) -> u64,
    lo: u64,
    hi: u64,
)
    requires
        increasing(g),
        faces_renamed(fs, fs2, g),
    ensures
        edge_fault(fs2, g(lo), g(hi)) == edge_fault(fs, lo, hi),
{
    lemma_renamed_between(fs, fs2, g, lo, hi, num_sides(fs));
    lemma_renamed_between(fs, fs2, g, hi, lo, num_sides(fs));
    lemma_renamed_between(fs, fs2, g, lo, lo, num_sides(fs));
    lemma_increasing(g, lo, hi);
}

proof fn lemma_renamed_faulty(fs: Seq<[u64; 3]>, fs2: Seq<[u64; 3]>, g: spec_fn(u64) -> u64, d: int)
    requires
        increasing(g),
        faces_renamed(fs, fs2, g),
        0 <= d < num_sides(fs),
    ensures
        side_faulty(fs2, d) == side_faulty(fs, d),
{
    lemma_renamed_sides(fs, fs2, g, d);
    lemma_renamed_fault(fs, fs2, g, edge_key(fs, d).0, edge_key(fs, d).1);
}

proof fn lemma_renamed_sound(fs: Seq<[u64; 3]>, fs2: Seq<[u64; 3]>, g: spec_fn(u64) -> u64)
    requires
        increasing(g),
        faces_renamed(fs, fs2, g),
    ensures
        edges_sound(fs2) == edges_sound(fs),
{
    assert forall|d: int| 0 <= d < num_sides(fs) implies #[trigger] side_faulty(fs2, d) == side_faulty(
        fs,
        d,
    ) by {
        lemma_renamed_faulty(fs, fs2, g, d);
    }
    if !edges_sound(fs) {
        let d = choose|d: int| 0 <= d < num_sides(fs) && #[trigger] side_faulty(fs, d);
        assert(side_faulty(fs2, d));
    }
    if !edges_sound(fs2) {
        let d = choose|d: int| 0 <= d < num_sides(fs2) && #[trigger] side_faulty(fs2, d);
        assert(side_faulty(fs, d));
    }
}

/// On sound edges, renaming keeps the turns.
proof fn lemma_renamed_turn(fs: Seq<[u64; 3]>, fs2: Seq<[u64; 3]>, g: spec_fn(u64) -> u64, d: int)
    requires
        increasing(g),
        faces_renamed(fs, fs2, g),
        edges_sound(fs),
        0 <= d < num_sides(fs),
    ensures
        reverse_side(fs2, d) == reverse_side(fs, d),
        turn(fs2, d) == turn(fs, d),
{
    lemma_renamed_sound(fs, fs2, g);
    lemma_reverse(fs, d);
    lemma_reverse(fs2, d);
    let r2 = reverse_side(fs2, d);
    lemma_renamed_sides(fs, fs2, g, d);
    lemma_renamed_sides(fs, fs2, g, r2);
    lemma_increasing(g, tail(fs, r2), head(fs, d));
    lemma_increasing(g, head(fs, r2), tail(fs, d));
    assert(is_reverse(fs, d, r2));
}

proof fn lemma_renamed_turn_iter(
    fs: Seq<[u64; 3]>,
    fs2: Seq<[u64; 3]>,
    g: spec_fn(u64) -> u64,
    d: int,
    k: nat,
)
    requires
        increasing(g),
        faces_renamed(fs, fs2, g),
        edges_sound(fs),
        0 <= d < num_sides(fs),
    ensures
        turn_iter(fs2, d, k) == turn_iter(fs, d, k),
    decreases k,
{
    if k > 0 {
        lemma_renamed_turn_iter(fs, fs2, g, d, (k - 1) as nat);
        crate::turns::lemma_turn_iter(fs, d, (k - 1) as nat);
        lemma_renamed_turn(fs, fs2, g, turn_iter(fs, d, (k - 1) as nat));
    }
}

proof fn lemma_renamed_opens(fs: Seq<[u64; 3]>, fs2: Seq<[u64; 3]>, g: spec_fn(u64) -> u64, d: int)
    requires
        increasing(g),
        faces_renamed(fs, fs2, g),
        edges_sound(fs),
        0 <= d < num_sides(fs),
    ensures
        opens_sector(fs2, d) == opens_sector(fs, d),
{
    assert forall|j: int|
        #![trigger reaches(fs2, j, d)]
        #![trigger reaches(fs, j, d)]
        0 <= j < d implies reaches(fs2, j, d) == reaches(fs, j, d) by {
        if reaches(fs2, j, d) {
            let k = choose|k: nat| #[trigger] turn_iter(fs2, j, k) == d;
            lemma_renamed_turn_iter(fs, fs2, g, j, k);
            assert(turn_iter(fs, j, k) == d);
        }
        if reaches(fs, j, d) {
            let k = choose|k: nat| #[trigger] turn_iter(fs, j, k) == d;
            lemma_renamed_turn_iter(fs, fs2, g, j, k);
            assert(turn_iter(fs2, j, k) == d);
        }
    }
}

proof fn lemma_renamed_sectors(
    fs: Seq<[u64; 3]>,
    fs2: Seq<[u64; 3]>,
    g: spec_fn(u64) -> u64,
    v: u64,
    m: int,
)
    requires
        increasing(g),
        faces_renamed(fs, fs2, g),
        edges_sound(fs),
        0 <= m <= num_sides(fs),
    ensures
        sectors_upto(fs2, g(v), m) == sectors_upto(fs, v, m),
    decreases m,
{
    if m > 0 {
        lemma_renamed_sectors(fs, fs2, g, v, m - 1);
        lemma_renamed_sides(fs, fs2, g, m - 1);
        lemma_increasing(g, tail(fs, m - 1), v);
        lemma_renamed_opens(fs, fs2, g, m - 1);
    }
}

proof fn lemma_renamed_adjacent(
    fs: Seq<[u64; 3]>,
    fs2: Seq<[u64; 3]>,
    g: spec_fn(u64) -> u64,
    f: int,
    h: int,
)
    requires
        increasing(g),
        faces_renamed(fs, fs2, g),
        0 <= f < fs.len(),
        0 <= h < fs.len(),
    ensures
        faces_adjacent(fs2, f, h) == faces_adjacent(fs, f, h),
{
    assert forall|i: int, j: int|
        #![trigger edge_key(fs2, 3 * f + i), edge_key(fs2, 3 * h + j)]
        #![trigger edge_key(fs, 3 * f + i), edge_key(fs, 3 * h + j)]
        0 <= i < 3 && 0 <= j < 3 implies (edge_key(fs2, 3 * f + i) == edge_key(fs2, 3 * h + j))
        == (edge_key(fs, 3 * f + i) == edge_key(fs, 3 * h + j)) by {
        lemma_renamed_sides(fs, fs2, g, 3 * f + i);
        lemma_renamed_sides(fs, fs2, g, 3 * h + j);
        lemma_increasing(g, edge_key(fs, 3 * f + i).0, edge_key(fs, 3 * h + j).0);
        lemma_increasing(g, edge_key(fs, 3 * f + i).1, edge_key(fs, 3 * h + j).1);
    }
}

proof fn lemma_renamed_linked(fs: Seq<[u64; 3]>, fs2: Seq<[u64; 3]>, g: spec_fn(u64) -> u64, h: int)
    requires
        increasing(g),
        faces_renamed(fs, fs2, g),
    ensures
        faces_linked(fs2, 0, h) == faces_linked(fs, 0, h),
{
    assert forall|p: Seq<int>| #[trigger] is_face_walk(fs2, p) == is_face_walk(fs, p) by {
        if p.len() >= 1 && forall|i: int| 0 <= i < p.len() ==> 0 <= #[trigger] p[i] < fs.len() {
            assert forall|i: int|
                #![trigger faces_adjacent(fs2, p[i], p[i + 1])]
                #![trigger faces_adjacent(fs, p[i], p[i + 1])]
                0 <= i < p.len() - 1 implies faces_adjacent(fs2, p[i], p[i + 1]) == faces_adjacent(
                fs,
                p[i],
                p[i + 1],
            ) by {
                lemma_renamed_adjacent(fs, fs2, g, p[i], p[i + 1]);
            }
        }
    }
    if faces_linked(fs, 0, h) {
        let p = choose|p: Seq<int>| #[trigger] is_face_walk(fs, p) && p[0] == 0 && p.last() == h;
        assert(is_face_walk(fs2, p));
    }
    if faces_linked(fs2, 0, h) {
        let p = choose|p: Seq<int>| #[trigger] is_face_walk(fs2, p) && p[0] == 0 && p.last() == h;
        assert(is_face_walk(fs, p));
    }
}

proof fn lemma_renamed_edge_count(fs: Seq<[u64; 3]>, fs2: Seq<[u64; 3]>, g: spec_fn(u64) -> u64)
    requires
        increasing(g),
        faces_renamed(fs, fs2, g),
        edges_sound(fs),
    ensures
        edge_set(fs2).len() == edge_set(fs).len(),
{
    lemma_edge_count(fs);
    let gg = |k: (u64, u64)| (g(k.0), g(k.1));
    assert(injective_on(gg, edge_set(fs))) by {
        assert forall|k1: (u64, u64), k2: (u64, u64)|
            edge_set(fs).contains(k1) && edge_set(fs).contains(k2) && #[trigger] gg(k1)
                == #[trigger] gg(k2) implies k1 == k2 by {
            lemma_increasing(g, k1.0, k2.0);
            lemma_increasing(g, k1.1, k2.1);
        }
    }
    assert(edge_set(fs).map(gg) =~= edge_set(fs2)) by {
        assert forall|k: (u64, u64)| edge_set(fs2).contains(k) implies edge_set(fs).map(gg).contains(
            k,
        ) by {
            let d = choose|d: int| 0 <= d < num_sides(fs2) && #[trigger] edge_key(fs2, d) == k;
            lemma_renamed_sides(fs, fs2, g, d);
            assert(edge_set(fs).contains(edge_key(fs, d)));
        }
        assert forall|k: (u64, u64)| edge_set(fs).map(gg).contains(k) implies edge_set(fs2).contains(
            k,
        ) by {
            let k0 = choose|k0: (u64, u64)| edge_set(fs).contains(k0) && gg(k0) == k;
            let d = choose|d: int| 0 <= d < num_sides(fs) && #[trigger] edge_key(fs, d) == k0;
            lemma_renamed_sides(fs, fs2, g, d);
        }
    }
    lemma_map_size(edge_set(fs), edge_set(fs2), gg);
}

proof fn lemma_renamed_outcome(
    vs: Seq<u64>,
    fs: Seq<[u64; 3]>,
    vs2: Seq<u64>,
    fs2: Seq<[u64; 3]>,
    g: spec_fn(u64) -> u64,
    r: Audit,
)
    requires
        increasing(g),
        faces_renamed(fs, fs2, g),
        vs2.len() == vs.len(),
        forall|i: int| 0 <= i < vs.len() ==> #[trigger] vs2[i] == g(vs[i]),
        audit_outcome(vs, fs, r),
    ensures
        audit_outcome(vs2, fs2, outcome_renamed(r, g)),
{
    lemma_renamed_sound(fs, fs2, g);
    if edges_sound(fs) {
        assert forall|i: int| 0 <= i < vs.len() implies #[trigger] sector_count(fs2, vs2[i])
            == sector_count(fs, vs[i]) by {
            lemma_renamed_sectors(fs, fs2, g, vs[i], num_sides(fs));
        }
    }
    assert forall|h: int| #[trigger] faces_linked(fs2, 0, h) == faces_linked(fs, 0, h) by {
        lemma_renamed_linked(fs, fs2, g, h);
    }
    match r {
        Audit::Failed(Finding::Edge(a)) => {
            let d = choose|d: int| 0 <= d < num_sides(fs) && #[trigger] edge_key(fs, d) == (a.lo, a.hi);
            lemma_renamed_sides(fs, fs2, g, d);
            lemma_renamed_fault(fs, fs2, g, a.lo, a.hi);
            lemma_increasing(g, a.lo, a.hi);
            assert forall|e: int|
                0 <= e < num_sides(fs2) && #[trigger] side_faulty(fs2, e) implies !key_lt(
                edge_key(fs2, e),
                (g(a.lo), g(a.hi)),
            ) by {
                lemma_renamed_faulty(fs, fs2, g, e);
                lemma_renamed_sides(fs, fs2, g, e);
                lemma_increasing(g, edge_key(fs, e).0, a.lo);
                lemma_increasing(g, edge_key(fs, e).1, a.hi);
            }
        },
        Audit::Failed(Finding::Vertex { id, sectors }) => {
            let i0 = choose|i: int| 0 <= i < vs.len() && vs[i] == id;
            assert(vs2[i0] == g(id));
            assert forall|i: int| 0 <= i < vs2.len() && vs2[i] < g(id) implies #[trigger] sector_count(
                fs2,
                vs2[i],
            ) == 1 by {
                lemma_increasing(g, vs[i], id);
                assert(sector_count(fs, vs[i]) == 1);
            }
        },
        Audit::Failed(Finding::Connectivity { face_index }) => {
            assert forall|i: int| 0 <= i < vs2.len() implies #[trigger] sector_count(fs2, vs2[i]) == 1 by {
                assert(sector_count(fs, vs[i]) == 1);
            }
        },
        Audit::Passed { .. } => {
            assert forall|i: int| 0 <= i < vs2.len() implies #[trigger] sector_count(fs2, vs2[i]) == 1 by {
                assert(sector_count(fs, vs[i]) == 1);
            }
            assert forall|h: int| 0 <= h < fs2.len() implies #[trigger] faces_linked(fs2, 0, h) by {
                assert(faces_linked(fs, 0, h));
            }
            lemma_renamed_edge_count(fs, fs2, g);
        },
    }
}

/// Renaming the vertex ids by a map `g` that keeps their order renames the
/// ids in the outcome of the audit, and changes nothing else in it.
pub proof fn lemma_audit_renamed(
    vs: Seq<u64>,
    fs: Seq<[u64; 3]>,
    vs2: Seq<u64>,
    fs2: Seq<[u64; 3]>,
    g: spec_fn(u64) -> u64,
    r: Audit,
    r2: Audit,
)
    requires
        increasing(g),
        faces_renamed(fs, fs2, g),
        vs2.len() == vs.len(),
        forall|i: int| 0 <= i < vs.len() ==> #[trigger] vs2[i] == g(vs[i]),
        audit_outcome(vs, fs, r),
        audit_outcome(vs2, fs2, r2),
    ensures
        r2 == outcome_renamed(r, g),
{
    lemma_renamed_outcome(vs, fs, vs2, fs2, g, r);
    lemma_outcome_unique(vs2, fs2, r2, outcome_renamed(r, g));
}

// ---------------------------------------------------------------------------
// Where a face starts, and its direction

/// Face `f` of `fs2` lists the corners of face `f` of `fs` from the same corner.
pub open spec fn same_start(fs: Seq<[u64; 3]>, fs2: Seq<[u64; 3]>, f: int) -> bool {
    fs2[f][0] == fs[f][0] && fs2[f][1] == fs[f][1] && fs2[f][2] == fs[f][2]
}

/// Face `f` of `fs2` lists the corners of face `f` of `fs` from its second corner.
pub open spec fn next_start(fs: Seq<[u64; 3]>, fs2: Seq<[u64; 3]>, f: int) -> bool {
    fs2[f][0] == fs[f][1] && fs2[f][1] == fs[f][2] && fs2[f][2] == fs[f][0]
}

/// `fs2` is `fs` with some faces `[a, b, c]` written `[b, c, a]`.
pub open spec fn faces_rotated(fs: Seq<[u64; 3]>, fs2: Seq<[u64; 3]>) -> bool {
    &&& fs2.len() == fs.len()
    &&& forall|f: int| 0 <= f < fs.len() ==> same_start(fs, fs2, f) || next_start(fs, fs2, f)
}

/// `fs2` is `fs` with every face `[a, b, c]` written `[a, c, b]`.
pub open spec fn faces_reversed(fs: Seq<[u64; 3]>, fs2: Seq<[u64; 3]>) -> bool {
    &&& fs2.len() == fs.len()
    &&& forall|f: int|
        0 <= f < fs.len() ==> fs2[f][0] == fs[f][0] && #[trigger] fs2[f][1] == fs[f][2] && fs2[f][2]
            == fs[f][1]
}

/// The side of `fs` under side `d` of `fs2`, for rotated faces.
spec fn rotation(fs: Seq<[u64; 3]>, fs2: Seq<[u64; 3]>) -> spec_fn(int) -> int {
    |d: int| if same_start(fs, fs2, d / 3) { d } else { next_side(d) }
}

spec fn rotation_back(fs: Seq<[u64; 3]>, fs2: Seq<[u64; 3]>) -> spec_fn(int) -> int {
    |d: int| if same_start(fs, fs2, d / 3) { d } else { prev_side(d) }
}

/// The side at the same place in a face listed backwards.
spec fn mirror(d: int) -> int {
    3 * (d / 3) + 2 - d % 3
}

proof fn lemma_mirror(d: int)
    requires
        0 <= d,
    ensures
        0 <= mirror(d),
        mirror(d) / 3 == d / 3,
        mirror(mirror(d)) == d,
        mirror(next_side(mirror(d))) == prev_side(d),
{
}

proof fn lemma_rotated(fs: Seq<[u64; 3]>, fs2: Seq<[u64; 3]>)
    requires
        faces_rotated(fs, fs2),
    ensures
        renumbered(fs, fs2, rotation(fs, fs2), rotation_back(fs, fs2), false),
        edges_sound(fs) ==> turns_match(fs, fs2, rotation(fs, fs2), rotation_back(fs, fs2), false),
{
    let rot = rotation(fs, fs2);
    let rotb = rotation_back(fs, fs2);
    let n = num_sides(fs);
    assert forall|d: int| 0 <= d < n implies 0 <= #[trigger] rot(d) < n && rot(d) / 3 == d / 3
        && rotb(rot(d)) == d by {
        lemma_side_steps(d);
    }
    assert forall|d: int| 0 <= d < n implies 0 <= #[trigger] rotb(d) < n && rotb(d) / 3 == d / 3
        && rot(rotb(d)) == d by {
        lemma_side_steps(d);
    }
    assert forall|d: int| 0 <= d < n implies #[trigger] tail(fs2, d) == tail(fs, rot(d)) && head(
        fs2,
        d,
    ) == head(fs, rot(d)) by {
        lemma_side_steps(d);
        assert(same_start(fs, fs2, d / 3) || next_start(fs, fs2, d / 3));
    }
    if edges_sound(fs) {
        assert forall|d: int| 0 <= d < n implies rot(#[trigger] turn(fs2, d)) == turn(fs, rot(d)) by {
            lemma_renumbered_reverse(fs, fs2, rot, rotb, false, d);
            lemma_reverse(fs, rot(d));
            let r = reverse_side(fs, rot(d));
            lemma_side_steps(r);
            lemma_side_steps(rotb(r));
            lemma_side_steps(next_side(rotb(r)));
        }
    }
}

proof fn lemma_reversed(fs: Seq<[u64; 3]>, fs2: Seq<[u64; 3]>)
    requires
        faces_reversed(fs, fs2),
    ensures
        renumbered(fs, fs2, |d: int| mirror(d), |d: int| mirror(d), true),
        edges_sound(fs) ==> turns_match(
            fs,
            fs2,
            |d: int| next_side(mirror(d)),
            |d: int| mirror(prev_side(d)),
            true,
        ),
{
    let mi = |d: int| mirror(d);
    let beta = |d: int| next_side(mirror(d));
    let binv = |d: int| mirror(prev_side(d));
    let n = num_sides(fs);
    assert forall|d: int| 0 <= d < n implies 0 <= #[trigger] mi(d) < n && mi(d) / 3 == d / 3 && mi(
        mi(d),
    ) == d by {
        lemma_mirror(d);
    }
    assert forall|d: int| 0 <= d < n implies #[trigger] tail(fs2, d) == head(fs, mi(d)) && head(
        fs2,
        d,
    ) == tail(fs, mi(d)) by {
        lemma_mirror(d);
        assert(fs2[d / 3][1] == fs[d / 3][2]);
    }
    if edges_sound(fs) {
        assert forall|d: int| 0 <= d < n implies 0 <= #[trigger] beta(d) < n && binv(beta(d)) == d by {
            lemma_mirror(d);
            lemma_side_steps(mirror(d));
        }
        assert forall|d: int| 0 <= d < n implies 0 <= #[trigger] binv(d) < n && beta(binv(d)) == d by {
            lemma_side_steps(d);
            lemma_mirror(prev_side(d));
        }
        assert forall|d: int| 0 <= d < n implies #[trigger] tail(fs2, d) == tail(fs, beta(d)) by {
            lemma_mirror(d);
            lemma_side_steps(mirror(d));
        }
        assert forall|d: int| 0 <= d < n implies turn(fs, beta(#[trigger] turn(fs2, d))) == beta(d) by {
            lemma_renumbered_reverse(fs, fs2, mi, mi, true, d);
            lemma_mirror(d);
            lemma_reverse(fs, mirror(d));
            let r = reverse_side(fs, mirror(d));
            lemma_reverse_involution(fs, mirror(d));
            lemma_mirror(r);
            lemma_side_steps(mirror(r));
            lemma_mirror(next_side(mirror(r)));
            lemma_side_steps(r);
            lemma_reverse(fs, r);
        }
    }
}

/// Writing any faces `[a, b, c]` as `[b, c, a]` changes nothing in the
/// outcome of the audit.
pub proof fn lemma_audit_rotated(
    vs: Seq<u64>,
    fs: Seq<[u64; 3]>,
    fs2: Seq<[u64; 3]>,
    r: Audit,
    r2: Audit,
)
    requires
        faces_rotated(fs, fs2),
        audit_outcome(vs, fs, r),
        audit_outcome(vs, fs2, r2),
    ensures
        r2 == r,
{
    lemma_rotated(fs, fs2);
    lemma_renumbered_outcome(
        vs,
        fs,
        fs2,
        rotation(fs, fs2),
        rotation_back(fs, fs2),
        false,
        rotation(fs, fs2),
        rotation_back(fs, fs2),
        false,
        r,
    );
    lemma_outcome_unique(vs, fs2, r2, r);
}

/// Writing every face `[a, b, c]` as `[a, c, b]`, which reverses the
/// orientation of the whole mesh, changes nothing in the outcome of the audit.
pub proof fn lemma_audit_reversed(
    vs: Seq<u64>,
    fs: Seq<[u64; 3]>,
    fs2: Seq<[u64; 3]>,
    r: Audit,
    r2: Audit,
)
    requires
        faces_reversed(fs, fs2),
        audit_outcome(vs, fs, r),
        audit_outcome(vs, fs2, r2),
    ensures
        r2 == r,
{
    lemma_reversed(fs, fs2);
    lemma_renumbered_outcome(
        vs,
        fs,
        fs2,
        |d: int| mirror(d),
        |d: int| mirror(d),
        true,
        |d: int| next_side(mirror(d)),
        |d: int| mirror(prev_side(d)),
        true,
        r,
    );
    lemma_outcome_unique(vs, fs2, r2, r);
}

} // verus!
