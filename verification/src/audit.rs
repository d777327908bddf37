//! The three-stage combinatorial audit.

use vstd::prelude::*;

use crate::euler::lemma_euler_characteristic;
use crate::parse::{index_map, Mesh};
use crate::surface::{
    forward_sides, lemma_edge_count, lemma_edges_pair_sides, lemma_forward_sides_finite,
};
use crate::topology::{
    directed_uses, edge_fault, edge_key, edge_set, edges_sound, faces_connected, faces_linked, head,
    is_face_walk, is_reverse, key_lt, lemma_sides_between_bound, neighbor, num_sides, opens_sector,
    reaches, reverse_side, sector_count, sectors_upto, side_faulty, sides_between, tail, turn,
    turn_iter, vertices_single,
};
use crate::turns::{
    lemma_linked_refl, lemma_linked_step, lemma_next_side, lemma_reaches_back, lemma_reaches_trans,
    lemma_reverse, lemma_reverse_adjacent, lemma_turn, lemma_turn_iter_add, lemma_walk_stays,
};

verus! {

/// Kind of defect found on an undirected edge.
#[derive(Debug, Clone, Copy, PartialEq, Eq)]
pub enum EdgeKind {
    /// Used by exactly one face (a boundary edge).
    Boundary,
    /// Used by two faces running in the same direction.
    Orientation,
    /// Used by three or more faces.
    NonManifold,
}

impl EdgeKind {
    /// The label under which the kind is reported.
    pub fn label(self) -> (s: &'static str)
        ensures
            s@ == (match self {
                EdgeKind::Boundary => "boundary"@,
                EdgeKind::Orientation => "orientation"@,
                EdgeKind::NonManifold => "non-manifold"@,
            }),
    {
        match self {
            EdgeKind::Boundary => "boundary",
            EdgeKind::Orientation => "orientation",
            EdgeKind::NonManifold => "non-manifold",
        }
    }
}

/// Witness of an edge defect: the endpoints are vertex ids with `lo <= hi`.
#[derive(Debug, Clone, Copy, PartialEq, Eq)]
pub struct EdgeAnomaly {
    pub kind: EdgeKind,
    pub lo: u64,
    pub hi: u64,
}

/// The topological defect found by the audit, with its witness.
#[derive(Debug, Clone, PartialEq, Eq)]
pub enum Finding {
    /// First stage: the smallest defective undirected edge.
    Edge(EdgeAnomaly),
    /// Second stage: the smallest vertex id whose number of sectors is not 1
    /// (0 for a vertex that no face uses).
    Vertex { id: u64, sectors: usize },
    /// Third stage: the smallest face index (0-based, in input order) not
    /// joined to face 0 through shared edges.
    Connectivity { face_index: usize },
}

/// Outcome of the audit: either the invariants of the closed surface, or the
/// witness of the highest-priority defect.
#[derive(Debug, Clone, PartialEq, Eq)]
pub enum Audit {
    Passed { vertices: usize, edges: usize, faces: usize, euler: i64, genus: u64 },
    Failed(Finding),
}


/// Start vertex of side `d`.
fn side_tail(faces: &Vec<[u64; 3]>, d: usize) -> (t: u64)
    requires
        d < num_sides(faces@),
    ensures
        t == tail(faces@, d as int),
{
    faces[d / 3][d % 3]
}

/// End vertex of side `d`.
fn side_head(faces: &Vec<[u64; 3]>, d: usize) -> (h: u64)
    requires
        d < num_sides(faces@),
    ensures
        h == head(faces@, d as int),
{
    faces[d / 3][(d % 3 + 1) % 3]
}

/// Counts the sides running `x -> y` and those running `y -> x`.
fn count_directed(faces: &Vec<[u64; 3]>, x: u64, y: u64) -> (r: (usize, usize))
    requires
        num_sides(faces@) <= usize::MAX,
    ensures
        r.0 == directed_uses(faces@, x, y),
        r.1 == directed_uses(faces@, y, x),
{
    let n = faces.len() * 3;
    let mut fwd: usize = 0;
    let mut bwd: usize = 0;
    for e in 0..n
        invariant
            n == num_sides(faces@),
            fwd == sides_between(faces@, x, y, e as int),
            bwd == sides_between(faces@, y, x, e as int),
    {
        proof {
            lemma_sides_between_bound(faces@, x, y, e as int);
            lemma_sides_between_bound(faces@, y, x, e as int);
        }
        let t = side_tail(faces, e);
        let h = side_head(faces, e);
        if t == x && h == y {
            fwd = fwd + 1;
        }
        if t == y && h == x {
            bwd = bwd + 1;
        }
    }
    (fwd, bwd)
}

/// First stage: the smallest defective undirected edge, if any.
fn first_edge_fault(faces: &Vec<[u64; 3]>) -> (r: Option<EdgeAnomaly>)
    requires
        2 * num_sides(faces@) <= usize::MAX,
    ensures
        r is None <==> edges_sound(faces@),
        r matches Some(a) ==> {
            &&& exists|d: int|
                0 <= d < num_sides(faces@) && #[trigger] edge_key(faces@, d) == (a.lo, a.hi)
                    && edge_fault(faces@, a.lo, a.hi) == Some(a.kind)
            &&& forall|d: int|
                0 <= d < num_sides(faces@) && #[trigger] side_faulty(faces@, d) ==> !key_lt(
                    edge_key(faces@, d),
                    (a.lo, a.hi),
                )
        },
{
    let n = faces.len() * 3;
    let mut best: Option<EdgeAnomaly> = None;
    for d in 0..n
        invariant
            n == num_sides(faces@),
            2 * n <= usize::MAX,
            best is None <==> forall|e: int| 0 <= e < d ==> !#[trigger] side_faulty(faces@, e),
            best matches Some(a) ==> {
                &&& exists|e: int|
                    0 <= e < d && #[trigger] edge_key(faces@, e) == (a.lo, a.hi)
                        && edge_fault(faces@, a.lo, a.hi) == Some(a.kind)
                &&& forall|e: int|
                    0 <= e < d && #[trigger] side_faulty(faces@, e) ==> !key_lt(
                        edge_key(faces@, e),
                        (a.lo, a.hi),
                    )
            },
    {
        let t = side_tail(faces, d);
        let h = side_head(faces, d);
        let (lo, hi) = if t <= h { (t, h) } else { (h, t) };
        let (fwd, bwd) = count_directed(faces, lo, hi);
        proof {
            lemma_sides_between_bound(faces@, lo, hi, n as int);
            lemma_sides_between_bound(faces@, hi, lo, n as int);
        }
        let uses = if lo == hi { fwd } else { fwd + bwd };
        let kind = if uses == 1 {
            Some(EdgeKind::Boundary)
        } else if uses == 2 {
            if fwd == 1 { None } else { Some(EdgeKind::Orientation) }
        } else if uses >= 3 {
            Some(EdgeKind::NonManifold)
        } else {
            None
        };
        assert(edge_key(faces@, d as int) == (lo, hi));
        assert(kind == edge_fault(faces@, lo, hi));
        assert(side_faulty(faces@, d as int) == kind is Some);
        if let Some(k) = kind {
            let replace = match best {
                None => true,
                Some(w) => lo < w.lo || (lo == w.lo && hi < w.hi),
            };
            if replace {
                best = Some(EdgeAnomaly { kind: k, lo, hi });
            }
        }
    }
    best
}


/// The turn table: entry `d` is the side reached from side `d` by one turn.
fn turn_table(faces: &Vec<[u64; 3]>) -> (t: Vec<usize>)
    requires
        edges_sound(faces@),
        2 * num_sides(faces@) <= usize::MAX,
    ensures
        t@.len() == num_sides(faces@),
        forall|d: int| 0 <= d < num_sides(faces@) ==> #[trigger] t@[d] == turn(faces@, d),
{
    let n = faces.len() * 3;
    let mut t: Vec<usize> = Vec::new();
    for d in 0..n
        invariant
            n == num_sides(faces@),
            2 * n <= usize::MAX,
            edges_sound(faces@),
            t@.len() == d,
            forall|e: int| 0 <= e < d ==> #[trigger] t@[e] == turn(faces@, e),
    {
        let a = side_tail(faces, d);
        let b = side_head(faces, d);
        let mut r = n;
        for e in 0..n
            invariant
                n == num_sides(faces@),
                a == tail(faces@, d as int),
                b == head(faces@, d as int),
                r == n || (r < n && is_reverse(faces@, d as int, r as int)),
                r == n ==> forall|e2: int| 0 <= e2 < e ==> !#[trigger] is_reverse(faces@, d as int, e2),
        {
            if r == n && side_tail(faces, e) == b && side_head(faces, e) == a {
                r = e;
            }
        }
        proof {
            lemma_reverse(faces@, d as int);
        }
        assert(r == reverse_side(faces@, d as int));
        t.push(3 * (r / 3) + (r % 3 + 1) % 3);
    }
    t
}

/// Number of unmarked entries among the first `n`.
spec fn unmarked(s: Seq<bool>, n: int) -> nat
    decreases n,
{
    if n <= 0 {
        0
    } else {
        unmarked(s, n - 1) + if !s[n - 1] {
            1nat
        } else {
            0nat
        }
    }
}

proof fn lemma_unmarked_mark(s: Seq<bool>, n: int, i: int)
    requires
        0 <= i < n <= s.len(),
        !s[i],
    ensures
        unmarked(s.update(i, true), n) + 1 == unmarked(s, n),
    decreases n,
{
    if i < n - 1 {
        lemma_unmarked_mark(s, n - 1, i);
    } else {
        lemma_unmarked_same(s, s.update(i, true), n - 1);
    }
}

proof fn lemma_unmarked_same(s: Seq<bool>, t: Seq<bool>, n: int)
    requires
        0 <= n <= s.len(),
        n <= t.len(),
        forall|j: int| 0 <= j < n ==> s[j] == t[j],
    ensures
        unmarked(s, n) == unmarked(t, n),
    decreases n,
{
    if n > 0 {
        lemma_unmarked_same(s, t, n - 1);
    }
}

/// Some side before `d` reaches side `x`.
spec fn covered(faces: Seq<[u64; 3]>, d: int, x: int) -> bool {
    exists|j: int| 0 <= j < d && #[trigger] reaches(faces, j, x)
}

/// Some of the first `k` turns from `d` lands on `x`.
spec fn walked(faces: Seq<[u64; 3]>, d: int, k: nat, x: int) -> bool {
    exists|i: nat| i < k && #[trigger] turn_iter(faces, d, i) == x
}

/// Once the walk from `d` returns to a side it already visited, it has visited
/// every side that `d` reaches.
proof fn lemma_walk_closed(faces: Seq<[u64; 3]>, d: int, i: nat, k: nat, m: nat)
    requires
        i < k,
        turn_iter(faces, d, i) == turn_iter(faces, d, k),
    ensures
        walked(faces, d, k, turn_iter(faces, d, m)),
    decreases m,
{
    if m < k {
        assert(turn_iter(faces, d, m) == turn_iter(faces, d, m));
    } else {
        let rest = (m - k) as nat;
        lemma_turn_iter_add(faces, d, k, rest);
        lemma_turn_iter_add(faces, d, i, rest);
        lemma_walk_closed(faces, d, i, k, i + rest);
    }
}

/// Second stage: the number of sectors at each vertex.
fn sector_counts(mesh: &Mesh, turns: &Vec<usize>) -> (s: Vec<usize>)
    requires
        mesh.well_formed(),
        edges_sound(mesh.faces@),
        2 * num_sides(mesh.faces@) <= usize::MAX,
        turns@.len() == num_sides(mesh.faces@),
        forall|d: int| 0 <= d < num_sides(mesh.faces@) ==> #[trigger] turns@[d] == turn(mesh.faces@, d),
    ensures
        s@.len() == mesh.vertices@.len(),
        forall|i: int|
            0 <= i < mesh.vertices@.len() ==> #[trigger] s@[i] == sector_count(
                mesh.faces@,
                mesh.vertices@[i],
            ),
{
    let faces = &mesh.faces;
    let ghost fs = faces@;
    let vs = &mesh.vertices;
    let idx = index_map(vs.as_slice());
    let n = faces.len() * 3;
    let nv = vs.len();
    let mut visited: Vec<bool> = Vec::new();
    for j in 0..n
        invariant
            visited@.len() == j,
            forall|x: int| 0 <= x < j ==> !#[trigger] visited@[x],
    {
        visited.push(false);
    }
    let mut sectors: Vec<usize> = Vec::new();
    for j in 0..nv
        invariant
            sectors@.len() == j,
            forall|x: int| 0 <= x < j ==> #[trigger] sectors@[x] == 0,
    {
        sectors.push(0);
    }
    for d in 0..n
        invariant
            fs == faces@,
            fs == mesh.faces@,
            vs@ == mesh.vertices@,
            n == num_sides(fs),
            nv == vs@.len(),
            mesh.well_formed(),
            edges_sound(fs),
            turns@.len() == n,
            forall|e: int| 0 <= e < n ==> #[trigger] turns@[e] == turn(fs, e),
            forall|k: u64| #[trigger] idx@.contains_key(k) <==> vs@.contains(k),
            forall|k: u64|
                #[trigger] idx@.contains_key(k) ==> {
                    &&& idx@[k] < vs@.len()
                    &&& vs@[idx@[k] as int] == k
                },
            visited@.len() == n,
            forall|x: int| 0 <= x < n ==> (#[trigger] visited@[x] <==> covered(fs, d as int, x)),
            sectors@.len() == nv,
            forall|i: int|
                0 <= i < nv ==> #[trigger] sectors@[i] == sectors_upto(fs, vs@[i], d as int)
                    && sectors@[i] <= d,
    {
        let ghost before = visited@;
        if !visited[d] {
            let v = side_tail(faces, d);
            assert(0 <= d as int / 3 < mesh.faces@.len());
            assert(vs@.contains(mesh.faces@[d as int / 3][d as int % 3]));
            let i = match idx.get(&v) {
                Some(i) => *i,
                None => {
                    proof {
                        assert(false);
                    }
                    0
                },
            };
            let mut cur = d;
            let ghost mut k: nat = 0;
            while !visited[cur]
                invariant
                    fs == faces@,
                    n == num_sides(fs),
                    edges_sound(fs),
                    0 <= d < n,
                    turns@.len() == n,
                    forall|e: int| 0 <= e < n ==> #[trigger] turns@[e] == turn(fs, e),
                    cur == turn_iter(fs, d as int, k),
                    0 <= cur < n,
                    visited@.len() == n,
                    before.len() == n,
                    !before[d as int],
                    forall|x: int| 0 <= x < n ==> (#[trigger] before[x] <==> covered(fs, d as int, x)),
                    forall|x: int|
                        0 <= x < n ==> (#[trigger] visited@[x] <==> (before[x] || walked(
                            fs,
                            d as int,
                            k,
                            x,
                        ))),
                decreases unmarked(visited@, n as int),
            {
                proof {
                    lemma_unmarked_mark(visited@, n as int, cur as int);
                    lemma_turn(fs, cur as int);
                }
                visited.set(cur, true);
                cur = turns[cur];
                proof {
                    assert forall|x: int|
                        0 <= x < n implies (#[trigger] visited@[x] <==> (before[x] || walked(
                            fs,
                            d as int,
                            k + 1,
                            x,
                        ))) by {
                        if walked(fs, d as int, k + 1, x) {
                            let i = choose|i: nat| i < k + 1 && #[trigger] turn_iter(fs, d as int, i) == x;
                            if i < k {
                                assert(walked(fs, d as int, k, x));
                            }
                        }
                        if walked(fs, d as int, k, x) {
                            let i = choose|i: nat| i < k && #[trigger] turn_iter(fs, d as int, i) == x;
                            assert(i < k + 1);
                        }
                        if x == turn_iter(fs, d as int, k) {
                            assert(walked(fs, d as int, k + 1, x));
                        }
                    }
                    k = k + 1;
                }
            }
            proof {
                // the walk has closed up: it visited exactly the sides `d` reaches
                if before[cur as int] {
                    let j = choose|j: int| 0 <= j < d && #[trigger] reaches(fs, j, cur as int);
                    lemma_reaches_back(fs, d as int, k);
                    lemma_reaches_trans(fs, j, cur as int, d as int);
                    assert(covered(fs, d as int, d as int));
                }
                assert(walked(fs, d as int, k, cur as int));
                let i0 = choose|i: nat| i < k && #[trigger] turn_iter(fs, d as int, i) == cur;
                assert forall|x: int| 0 <= x < n implies (#[trigger] visited@[x] <==> covered(
                    fs,
                    d + 1,
                    x,
                )) by {
                    if reaches(fs, d as int, x) {
                        let m = choose|m: nat| #[trigger] turn_iter(fs, d as int, m) == x;
                        lemma_walk_closed(fs, d as int, i0, k, m);
                    }
                    if walked(fs, d as int, k, x) {
                        let i = choose|i: nat| i < k && #[trigger] turn_iter(fs, d as int, i) == x;
                        assert(reaches(fs, d as int, x));
                    }
                    if covered(fs, d + 1, x) {
                        let j = choose|j: int| 0 <= j < d + 1 && #[trigger] reaches(fs, j, x);
                        if j < d {
                            assert(covered(fs, d as int, x));
                        }
                    }
                    if covered(fs, d as int, x) {
                        let j = choose|j: int| 0 <= j < d && #[trigger] reaches(fs, j, x);
                        assert(covered(fs, d + 1, x));
                    }
                    if reaches(fs, d as int, x) {
                        assert(covered(fs, d + 1, x));
                    }
                }
                assert(opens_sector(fs, d as int));
            }
            sectors.set(i, sectors[i] + 1);
            proof {
                assert forall|i2: int|
                    0 <= i2 < nv implies #[trigger] sectors@[i2] == sectors_upto(
                        fs,
                        vs@[i2],
                        d + 1,
                    ) && sectors@[i2] <= d + 1 by {
                    if i2 != i {
                        assert(vs@[i2] != vs@[i as int]);
                    }
                }
            }
        } else {
            proof {
                assert(covered(fs, d as int, d as int));
                let j = choose|j: int| 0 <= j < d && #[trigger] reaches(fs, j, d as int);
                assert(!reaches(fs, j, d as int) ==> false);
                assert forall|x: int| 0 <= x < n implies (#[trigger] visited@[x] <==> covered(
                    fs,
                    d + 1,
                    x,
                )) by {
                    if covered(fs, d + 1, x) {
                        let j2 = choose|j2: int| 0 <= j2 < d + 1 && #[trigger] reaches(fs, j2, x);
                        if j2 == d {
                            lemma_reaches_trans(fs, j, d as int, x);
                        }
                        assert(covered(fs, d as int, x));
                    }
                    if covered(fs, d as int, x) {
                        let j2 = choose|j2: int| 0 <= j2 < d && #[trigger] reaches(fs, j2, x);
                        assert(covered(fs, d + 1, x));
                    }
                }
                assert(!opens_sector(fs, d as int));
                assert forall|i2: int|
                    0 <= i2 < nv implies #[trigger] sectors@[i2] == sectors_upto(
                        fs,
                        vs@[i2],
                        d + 1,
                    ) && sectors@[i2] <= d + 1 by {
                }
            }
        }
    }
    sectors
}


/// Third stage: the smallest face that no walk across shared edges joins to
/// face 0, if any.
fn detached_face(faces: &Vec<[u64; 3]>, turns: &Vec<usize>) -> (r: Option<usize>)
    requires
        edges_sound(faces@),
        faces@.len() >= 1,
        2 * num_sides(faces@) <= usize::MAX,
        turns@.len() == num_sides(faces@),
        forall|d: int| 0 <= d < num_sides(faces@) ==> #[trigger] turns@[d] == turn(faces@, d),
    ensures
        r is None <==> faces_connected(faces@),
        r matches Some(f) ==> {
            &&& 0 < f < faces@.len()
            &&& !faces_linked(faces@, 0, f as int)
            &&& forall|g: int| 0 <= g < f ==> #[trigger] faces_linked(faces@, 0, g)
        },
{
    let ghost fs = faces@;
    let nf = faces.len();
    let mut reached: Vec<bool> = Vec::new();
    for j in 0..nf
        invariant
            reached@.len() == j,
            forall|x: int| 0 <= x < j ==> !#[trigger] reached@[x],
    {
        reached.push(false);
    }
    reached.set(0, true);
    let mut stack: Vec<usize> = Vec::new();
    stack.push(0);
    proof {
        lemma_linked_refl(fs, 0);
        assert forall|x: int, k: int| 0 <= x < nf && 0 <= k < 3 implies 0 <= #[trigger] neighbor(
            fs,
            x,
            k,
        ) < nf by {
            lemma_reverse(fs, 3 * x + k);
        }
        assert(stack@[0] == 0);
        assert forall|x: int| 0 <= x < nf && #[trigger] reached@[x] implies x == 0 by {}
    }
    while stack.len() > 0
        invariant
            fs == faces@,
            nf == fs.len(),
            nf >= 1,
            edges_sound(fs),
            2 * num_sides(fs) <= usize::MAX,
            turns@.len() == num_sides(fs),
            forall|d: int| 0 <= d < num_sides(fs) ==> #[trigger] turns@[d] == turn(fs, d),
            reached@.len() == nf,
            reached@[0],
            forall|x: int, k: int| 0 <= x < nf && 0 <= k < 3 ==> 0 <= #[trigger] neighbor(fs, x, k) < nf,
            forall|x: int| 0 <= x < nf && #[trigger] reached@[x] ==> faces_linked(fs, 0, x),
            forall|i: int|
                0 <= i < stack@.len() ==> #[trigger] stack@[i] < nf && reached@[stack@[i] as int],
            forall|x: int, k: int|
                0 <= x < nf && 0 <= k < 3 && reached@[x] && !stack@.contains(x as usize)
                    ==> reached@[#[trigger] neighbor(fs, x, k)],
        decreases unmarked(reached@, nf as int), stack.len(),
    {
        let ghost u0 = unmarked(reached@, nf as int);
        let ghost l0 = stack.len();
        let ghost s0 = stack@;
        let f = stack.pop().unwrap();
        assert(stack@ == s0.drop_last());
        assert(f == s0[s0.len() - 1]);
        assert forall|x: int, k2: int|
            0 <= x < nf && 0 <= k2 < 3 && reached@[x] && !stack@.contains(x as usize) && x != f
                implies reached@[#[trigger] neighbor(fs, x, k2)] by {
            if s0.contains(x as usize) {
                let i = choose|i: int| 0 <= i < s0.len() && s0[i] == x as usize;
                if i < s0.len() - 1 {
                    assert(stack@[i] == x as usize);
                }
            }
        }
        for k in 0..3
            invariant
                fs == faces@,
                nf == fs.len(),
                edges_sound(fs),
                2 * num_sides(fs) <= usize::MAX,
                turns@.len() == num_sides(fs),
                forall|d: int| 0 <= d < num_sides(fs) ==> #[trigger] turns@[d] == turn(fs, d),
                f < nf,
                reached@.len() == nf,
                reached@[0],
                reached@[f as int],
                forall|x: int, k2: int|
                    0 <= x < nf && 0 <= k2 < 3 ==> 0 <= #[trigger] neighbor(fs, x, k2) < nf,
                forall|x: int| 0 <= x < nf && #[trigger] reached@[x] ==> faces_linked(fs, 0, x),
                forall|i: int|
                    0 <= i < stack@.len() ==> #[trigger] stack@[i] < nf && reached@[stack@[i] as int],
                forall|x: int, k2: int|
                    0 <= x < nf && 0 <= k2 < 3 && reached@[x] && !stack@.contains(x as usize) && x
                        != f ==> reached@[#[trigger] neighbor(fs, x, k2)],
                forall|k2: int| 0 <= k2 < k ==> reached@[#[trigger] neighbor(fs, f as int, k2)],
                stack@.len() >= l0 - 1,
                unmarked(reached@, nf as int) + (stack@.len() - (l0 - 1)) == u0,
        {
            let d = 3 * f + k;
            proof {
                lemma_reverse(fs, d as int);
                lemma_next_side(fs, reverse_side(fs, d as int));
                lemma_reverse_adjacent(fs, d as int);
            }
            let g = turns[d] / 3;
            assert(g == neighbor(fs, f as int, k as int));
            if !reached[g] {
                proof {
                    lemma_unmarked_mark(reached@, nf as int, g as int);
                    lemma_linked_step(fs, 0, f as int, g as int);
                }
                let ghost s1 = stack@;
                reached.set(g, true);
                stack.push(g);
                assert forall|x: usize| #[trigger] s1.contains(x) implies stack@.contains(x) by {
                    let i = choose|i: int| 0 <= i < s1.len() && s1[i] == x;
                    assert(stack@[i] == x);
                }
                assert(stack@[stack@.len() - 1] == g);
                assert forall|x: int, k2: int|
                    0 <= x < nf && 0 <= k2 < 3 && reached@[x] && !stack@.contains(x as usize) && x
                        != f implies reached@[#[trigger] neighbor(fs, x, k2)] by {
                    assert(x != g);
                    assert(!s1.contains(x as usize));
                }
            }
        }
    }
    proof {
        assert forall|g: int| 0 <= g < nf implies (#[trigger] reached@[g] <==> faces_linked(fs, 0, g)) by {
            if faces_linked(fs, 0, g) {
                let p = choose|p: Seq<int>| #[trigger] is_face_walk(fs, p) && p[0] == 0 && p.last() == g;
                lemma_walk_stays(fs, reached@, p, p.len() - 1);
            }
        }
    }
    let mut g: usize = 1;
    while g < nf
        invariant
            1 <= g <= nf,
            fs == faces@,
            nf == fs.len(),
            reached@.len() == nf,
            forall|h: int| 0 <= h < nf ==> (#[trigger] reached@[h] <==> faces_linked(fs, 0, h)),
            forall|h: int| 0 <= h < g ==> #[trigger] reached@[h],
        decreases nf - g,
    {
        if !reached[g] {
            proof {
                assert forall|h: int| 0 <= h < g implies #[trigger] faces_linked(fs, 0, h) by {
                    assert(reached@[h]);
                }
            }
            return Some(g);
        }
        g = g + 1;
    }
    proof {
        assert forall|h: int| 0 <= h < nf implies #[trigger] faces_linked(fs, 0, h) by {
            assert(reached@[h]);
        }
    }
    None
}


/// Number of sides running from a smaller to a larger vertex id.
fn count_forward(faces: &Vec<[u64; 3]>) -> (c: usize)
    requires
        2 * num_sides(faces@) <= usize::MAX,
    ensures
        c == forward_sides(faces@, num_sides(faces@)).len(),
{
    let n = faces.len() * 3;
    let mut c: usize = 0;
    proof {
        assert(forward_sides(faces@, 0) =~= Set::<int>::empty());
    }
    for d in 0..n
        invariant
            n == num_sides(faces@),
            c <= d,
            c == forward_sides(faces@, d as int).len(),
    {
        proof {
            lemma_forward_sides_finite(faces@, d as int);
        }
        if side_tail(faces, d) < side_head(faces, d) {
            assert(forward_sides(faces@, d + 1) =~= forward_sides(faces@, d as int).insert(d as int));
            c = c + 1;
        } else {
            assert(forward_sides(faces@, d + 1) =~= forward_sides(faces@, d as int));
        }
    }
    c
}

impl Mesh {
    /// No vector of the mesh exceeds the `isize::MAX` bytes that an allocation can hold.
    pub open spec fn within_allocation_limit(&self) -> bool {
        &&& self.vertices@.len() * 8 <= isize::MAX
        &&& self.faces@.len() * 24 <= isize::MAX
    }

    /// The mesh meets what `audit` requires: ascending distinct vertex ids, at
    /// least one of them, and faces over declared vertices only. Every mesh
    /// that `parse` returns meets it.
    pub fn is_auditable(&self) -> (r: bool)
        ensures
            r == (self.well_formed() && self.vertices@.len() >= 1
                && self.within_allocation_limit()),
    {
        let nv = self.vertices.len();
        let nf = self.faces.len();
        let limit = isize::MAX as usize;
        if nv == 0 || nv > limit / 8 || nf > limit / 24 {
            return false;
        }
        for i in 1..nv
            invariant
                nv == self.vertices@.len(),
                forall|a: int, b: int| 0 <= a < b < i ==> self.vertices@[a] < self.vertices@[b],
        {
            if self.vertices[i - 1] >= self.vertices[i] {
                return false;
            }
            assert forall|a: int, b: int| 0 <= a < b < i + 1 implies self.vertices@[a]
                < self.vertices@[b] by {
                if b == i && a < i - 1 {
                    assert(self.vertices@[a] < self.vertices@[i - 1]);
                }
            }
        }
        let idx = index_map(self.vertices.as_slice());
        for f in 0..nf
            invariant
                nf == self.faces@.len(),
                forall|k: u64| #[trigger] idx@.contains_key(k) <==> self.vertices@.contains(k),
                forall|f2: int, k: int|
                    0 <= f2 < f && 0 <= k < 3 ==> self.vertices@.contains(#[trigger] self.faces@[f2][k]),
        {
            for k in 0..3usize
                invariant
                    nf == self.faces@.len(),
                    f < nf,
                    forall|k: u64| #[trigger] idx@.contains_key(k) <==> self.vertices@.contains(k),
                    forall|f2: int, k2: int|
                        0 <= f2 < f && 0 <= k2 < 3 ==> self.vertices@.contains(
                            #[trigger] self.faces@[f2][k2],
                        ),
                    forall|k2: int| 0 <= k2 < k ==> self.vertices@.contains(#[trigger] self.faces@[f as int][k2]),
            {
                if !idx.contains_key(&self.faces[f][k]) {
                    return false;
                }
            }
        }
        true
    }
}

/// `result` is what the audit of the vertices `vs` and faces `fs` reports.
/// Stages run in a fixed order, and the first that fails decides:
/// 1. every undirected edge is used exactly twice, in opposite directions
///    (witness: the smallest defective edge, with its kind);
/// 2. every vertex has exactly one sector (witness: the smallest vertex id
///    whose count is not 1, with that count);
/// 3. all faces are joined through shared edges (witness: the smallest face
///    not joined to face 0).
/// When all pass, the mesh is a closed orientable surface: the counts V, E,
/// F, the Euler characteristic V - E + F (even, at most 2) and the genus
/// (2 - (V - E + F)) / 2 are reported.
pub open spec fn audit_outcome(vs: Seq<u64>, fs: Seq<[u64; 3]>, result: Audit) -> bool {
    match result {
        Audit::Failed(Finding::Edge(a)) => {
            &&& a.lo <= a.hi
            &&& exists|d: int| 0 <= d < num_sides(fs) && #[trigger] edge_key(fs, d) == (a.lo, a.hi)
            &&& edge_fault(fs, a.lo, a.hi) == Some(a.kind)
            &&& forall|d: int|
                0 <= d < num_sides(fs) && #[trigger] side_faulty(fs, d) ==> !key_lt(
                    edge_key(fs, d),
                    (a.lo, a.hi),
                )
        },
        Audit::Failed(Finding::Vertex { id, sectors }) => {
            &&& edges_sound(fs)
            &&& vs.contains(id)
            &&& sectors == sector_count(fs, id)
            &&& sectors != 1
            &&& forall|i: int|
                0 <= i < vs.len() && vs[i] < id ==> #[trigger] sector_count(fs, vs[i]) == 1
        },
        Audit::Failed(Finding::Connectivity { face_index }) => {
            &&& edges_sound(fs)
            &&& vertices_single(vs, fs)
            &&& 0 < face_index < fs.len()
            &&& !faces_linked(fs, 0, face_index as int)
            &&& forall|g: int| 0 <= g < face_index ==> #[trigger] faces_linked(fs, 0, g)
        },
        Audit::Passed { vertices, edges, faces, euler, genus } => {
            &&& edges_sound(fs)
            &&& vertices_single(vs, fs)
            &&& faces_connected(fs)
            &&& vertices == vs.len()
            &&& faces == fs.len()
            &&& edges == edge_set(fs).len()
            &&& 2 * edges == 3 * faces
            &&& euler == vertices - edges + faces
            &&& euler % 2 == 0
            &&& euler <= 2
            &&& genus == (2 - euler) / 2
        },
    }
}

/// Runs the three-stage audit on a well-formed mesh (see `audit_outcome`).
/// An edge witness has distinct ends when no face repeats a vertex.
pub fn audit(mesh: &Mesh) -> (result: Audit)
    requires
        mesh.well_formed(),
        mesh.vertices@.len() >= 1,
        mesh.within_allocation_limit(),
    ensures
        audit_outcome(mesh.vertices@, mesh.faces@, result),
        result matches Audit::Failed(Finding::Edge(a)) ==> (mesh.faces_nondegenerate() ==> a.lo
            < a.hi),
{
    let faces = &mesh.faces;
    let vs = &mesh.vertices;
    if let Some(a) = first_edge_fault(faces) {
        proof {
            let d = choose|d: int|
                0 <= d < num_sides(faces@) && #[trigger] edge_key(faces@, d) == (a.lo, a.hi);
            if mesh.faces_nondegenerate() {
                assert(faces@[d / 3][0] != faces@[d / 3][1]);
            }
        }
        return Audit::Failed(Finding::Edge(a));
    }
    let turns = turn_table(faces);
    let sectors = sector_counts(mesh, &turns);
    let nv = vs.len();
    for i in 0..nv
        invariant
            nv == mesh.vertices@.len(),
            vs@ == mesh.vertices@,
            mesh.well_formed(),
            edges_sound(mesh.faces@),
            sectors@.len() == nv,
            forall|j: int|
                0 <= j < nv ==> #[trigger] sectors@[j] == sector_count(mesh.faces@, mesh.vertices@[j]),
            forall|j: int| 0 <= j < i ==> #[trigger] sector_count(mesh.faces@, mesh.vertices@[j]) == 1,
    {
        if sectors[i] != 1 {
            proof {
                assert forall|j: int|
                    0 <= j < nv && mesh.vertices@[j] < mesh.vertices@[i as int] implies #[trigger] sector_count(
                    mesh.faces@,
                    mesh.vertices@[j],
                ) == 1 by {
                    if j >= i {
                        assert(j == i || mesh.vertices@[i as int] < mesh.vertices@[j]);
                    }
                }
                assert(mesh.vertices@.contains(mesh.vertices@[i as int]));
            }
            return Audit::Failed(Finding::Vertex { id: vs[i], sectors: sectors[i] });
        }
    }
    assert(sector_count(mesh.faces@, mesh.vertices@[0]) == 1);
    assert(faces@.len() >= 1);
    if let Some(f) = detached_face(faces, &turns) {
        return Audit::Failed(Finding::Connectivity { face_index: f });
    }
    let edges = count_forward(faces);
    proof {
        lemma_edge_count(faces@);
        lemma_edges_pair_sides(faces@);
    }
    let nf = faces.len();
    let euler: i64 = nv as i64 - edges as i64 + nf as i64;
    proof {
        lemma_euler_characteristic(*mesh);
    }
    let genus: u64 = ((2 - euler) / 2) as u64;
    Audit::Passed { vertices: nv, edges, faces: nf, euler, genus }
}

} // verus!
