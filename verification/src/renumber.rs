//! Renumbering the sides of each face.
//!
//! Two meshes with the same faces, up to where each face starts its corners
//! or the direction in which it lists them, have the same sides numbered
//! differently within each face. Edges, faults, sectors and connectivity do
//! not depend on that numbering.

use vstd::prelude::*;
use vstd::relations::injective_on;
use vstd::set_lib::{lemma_int_range, lemma_len_subset, lemma_map_size, set_int_range};

use crate::audit::{audit_outcome, Audit, Finding};
use crate::topology::{
    edge_fault, edge_key, edge_set, edges_sound, faces_adjacent, faces_linked, head, is_face_walk,
    is_reverse, key_lt, num_sides, opens_sector, reaches, reverse_side, sector_count, sectors_upto,
    side_faulty, sides_between, tail, turn, turn_iter,
};
use crate::turns::{
    lemma_reaches_back, lemma_reaches_trans, lemma_reverse, lemma_turn, lemma_turn_injective,
    lemma_turn_iter,
};

verus! {

/// `fs2` has the faces of `fs`, side `d` of `fs2` lying on side `pi(d)` of
/// `fs` in the same face, in the same direction or, when `flip`, in the
/// opposite one; `pinv` undoes `pi`.
pub open spec fn renumbered(
    fs: Seq<[u64; 3]>,
    fs2: Seq<[u64; 3]>,
    pi: spec_fn(int) -> int,
    pinv: spec_fn(int) -> int,
    flip: bool,
) -> bool {
    &&& fs2.len() == fs.len()
    &&& forall|d: int|
        0 <= d < num_sides(fs) ==> 0 <= #[trigger] pi(d) < num_sides(fs) && pi(d) / 3 == d / 3
            && pinv(pi(d)) == d
    &&& forall|d: int|
        0 <= d < num_sides(fs) ==> 0 <= #[trigger] pinv(d) < num_sides(fs) && pinv(d) / 3 == d / 3
            && pi(pinv(d)) == d
    &&& forall|d: int|
        0 <= d < num_sides(fs) ==> if flip {
            #[trigger] tail(fs2, d) == head(fs, pi(d)) && head(fs2, d) == tail(fs, pi(d))
        } else {
            #[trigger] tail(fs2, d) == tail(fs, pi(d)) && head(fs2, d) == head(fs, pi(d))
        }
}

proof fn lemma_key(
    fs: Seq<[u64; 3]>,
    fs2: Seq<[u64; 3]>,
    pi: spec_fn(int) -> int,
    pinv: spec_fn(int) -> int,
    flip: bool,
    d: int,
)
    requires
        renumbered(fs, fs2, pi, pinv, flip),
        0 <= d < num_sides(fs),
    ensures
        edge_key(fs2, d) == edge_key(fs, pi(d)),
{
    assert(tail(fs2, d) == tail(fs2, d));
}

/// Side `d` runs from `x` to `y`, as a count.
spec fn runs(fs: Seq<[u64; 3]>, x: u64, y: u64, d: int) -> int {
    if tail(fs, d) == x && head(fs, d) == y {
        1
    } else {
        0
    }
}

proof fn lemma_between_face(fs: Seq<[u64; 3]>, x: u64, y: u64, b: int)
    requires
        0 <= b,
    ensures
        sides_between(fs, x, y, b + 3) == sides_between(fs, x, y, b) + runs(fs, x, y, b) + runs(
            fs,
            x,
            y,
            b + 1,
        ) + runs(fs, x, y, b + 2),
{
    assert(sides_between(fs, x, y, b + 1) == sides_between(fs, x, y, b) + runs(fs, x, y, b));
    assert(sides_between(fs, x, y, b + 2) == sides_between(fs, x, y, b + 1) + runs(fs, x, y, b + 1));
    assert(sides_between(fs, x, y, b + 3) == sides_between(fs, x, y, b + 2) + runs(fs, x, y, b + 2));
}

/// Within one face, the renumbered sides run the same ways.
proof fn lemma_runs_face(
    fs: Seq<[u64; 3]>,
    fs2: Seq<[u64; 3]>,
    pi: spec_fn(int) -> int,
    pinv: spec_fn(int) -> int,
    flip: bool,
    x: u64,
    y: u64,
    k: int,
)
    requires
        renumbered(fs, fs2, pi, pinv, flip),
        0 <= k < fs.len(),
    ensures
        ({
            let b = 3 * k;
            let (u, w) = if flip {
                (y, x)
            } else {
                (x, y)
            };
            runs(fs2, x, y, b) + runs(fs2, x, y, b + 1) + runs(fs2, x, y, b + 2) == runs(fs, u, w, b)
                + runs(fs, u, w, b + 1) + runs(fs, u, w, b + 2)
        }),
{
    let b = 3 * k;
    let (u, w) = if flip {
        (y, x)
    } else {
        (x, y)
    };
    assert(tail(fs2, b) == tail(fs2, b));
    assert(tail(fs2, b + 1) == tail(fs2, b + 1));
    assert(tail(fs2, b + 2) == tail(fs2, b + 2));
    let p0 = pi(b);
    let p1 = pi(b + 1);
    let p2 = pi(b + 2);
    assert(p0 / 3 == k && p1 / 3 == k && p2 / 3 == k);
    assert(pinv(p0) == b && pinv(p1) == b + 1 && pinv(p2) == b + 2);
    assert forall|d: int| b <= d < b + 3 implies #[trigger] runs(fs2, x, y, d) == runs(
        fs,
        u,
        w,
        pi(d),
    ) by {
        assert(0 <= d < num_sides(fs));
        assert(tail(fs2, d) == tail(fs2, d));
    }
    assert(runs(fs2, x, y, b) == runs(fs, u, w, p0));
    assert(runs(fs2, x, y, b + 1) == runs(fs, u, w, p1));
    assert(runs(fs2, x, y, b + 2) == runs(fs, u, w, p2));
}

/// The count of matching sides in the first `k` faces.
proof fn lemma_between(
    fs: Seq<[u64; 3]>,
    fs2: Seq<[u64; 3]>,
    pi: spec_fn(int) -> int,
    pinv: spec_fn(int) -> int,
    flip: bool,
    x: u64,
    y: u64,
    k: int,
)
    requires
        renumbered(fs, fs2, pi, pinv, flip),
        0 <= k <= fs.len(),
    ensures
        sides_between(fs2, x, y, 3 * k) == if flip {
            sides_between(fs, y, x, 3 * k)
        } else {
            sides_between(fs, x, y, 3 * k)
        },
    decreases k,
{
    if k > 0 {
        let b = 3 * (k - 1);
        lemma_between(fs, fs2, pi, pinv, flip, x, y, k - 1);
        lemma_runs_face(fs, fs2, pi, pinv, flip, x, y, k - 1);
        lemma_between_face(fs2, x, y, b);
        lemma_between_face(fs, x, y, b);
        lemma_between_face(fs, y, x, b);
        assert(b + 3 == 3 * k);
    }
}

proof fn lemma_fault(
    fs: Seq<[u64; 3]>,
    fs2: Seq<[u64; 3]>,
    pi: spec_fn(int) -> int,
    pinv: spec_fn(int) -> int,
    flip: bool,
    lo: u64,
    hi: u64,
)
    requires
        renumbered(fs, fs2, pi, pinv, flip),
    ensures
        edge_fault(fs2, lo, hi) == edge_fault(fs, lo, hi),
{
    let k = fs.len() as int;
    lemma_between(fs, fs2, pi, pinv, flip, lo, hi, k);
    lemma_between(fs, fs2, pi, pinv, flip, hi, lo, k);
    lemma_between(fs, fs2, pi, pinv, flip, lo, lo, k);
}

/// Faults stay on the same edges.
pub proof fn lemma_renumbered_faulty(
    fs: Seq<[u64; 3]>,
    fs2: Seq<[u64; 3]>,
    pi: spec_fn(int) -> int,
    pinv: spec_fn(int) -> int,
    flip: bool,
    d: int,
)
    requires
        renumbered(fs, fs2, pi, pinv, flip),
        0 <= d < num_sides(fs),
    ensures
        edge_key(fs2, d) == edge_key(fs, pi(d)),
        side_faulty(fs2, d) == side_faulty(fs, pi(d)),
        edge_fault(fs2, edge_key(fs2, d).0, edge_key(fs2, d).1) == edge_fault(
            fs,
            edge_key(fs2, d).0,
            edge_key(fs2, d).1,
        ),
{
    lemma_key(fs, fs2, pi, pinv, flip, d);
    lemma_fault(fs, fs2, pi, pinv, flip, edge_key(fs2, d).0, edge_key(fs2, d).1);
}

pub proof fn lemma_renumbered_fault(
    fs: Seq<[u64; 3]>,
    fs2: Seq<[u64; 3]>,
    pi: spec_fn(int) -> int,
    pinv: spec_fn(int) -> int,
    flip: bool,
    lo: u64,
    hi: u64,
)
    requires
        renumbered(fs, fs2, pi, pinv, flip),
    ensures
        edge_fault(fs2, lo, hi) == edge_fault(fs, lo, hi),
{
    lemma_fault(fs, fs2, pi, pinv, flip, lo, hi);
}

pub proof fn lemma_renumbered_sound(
    fs: Seq<[u64; 3]>,
    fs2: Seq<[u64; 3]>,
    pi: spec_fn(int) -> int,
    pinv: spec_fn(int) -> int,
    flip: bool,
)
    requires
        renumbered(fs, fs2, pi, pinv, flip),
    ensures
        edges_sound(fs2) == edges_sound(fs),
{
    if !edges_sound(fs) {
        let d = choose|d: int| 0 <= d < num_sides(fs) && #[trigger] side_faulty(fs, d);
        lemma_renumbered_faulty(fs, fs2, pi, pinv, flip, pinv(d));
        assert(side_faulty(fs2, pinv(d)));
    }
    if !edges_sound(fs2) {
        let d = choose|d: int| 0 <= d < num_sides(fs2) && #[trigger] side_faulty(fs2, d);
        lemma_renumbered_faulty(fs, fs2, pi, pinv, flip, d);
        assert(side_faulty(fs, pi(d)));
    }
}

/// The same pairs of faces share an edge.
pub proof fn lemma_renumbered_adjacent(
    fs: Seq<[u64; 3]>,
    fs2: Seq<[u64; 3]>,
    pi: spec_fn(int) -> int,
    pinv: spec_fn(int) -> int,
    flip: bool,
    f: int,
    g: int,
)
    requires
        renumbered(fs, fs2, pi, pinv, flip),
        0 <= f < fs.len(),
        0 <= g < fs.len(),
    ensures
        faces_adjacent(fs2, f, g) == faces_adjacent(fs, f, g),
{
    if faces_adjacent(fs2, f, g) {
        let (i, j) = choose|i: int, j: int|
            0 <= i < 3 && 0 <= j < 3 && #[trigger] edge_key(fs2, 3 * f + i) == #[trigger] edge_key(
                fs2,
                3 * g + j,
            );
        lemma_key(fs, fs2, pi, pinv, flip, 3 * f + i);
        lemma_key(fs, fs2, pi, pinv, flip, 3 * g + j);
        let a = pi(3 * f + i);
        let b = pi(3 * g + j);
        assert(a / 3 == f && b / 3 == g);
        assert(edge_key(fs, 3 * f + (a - 3 * f)) == edge_key(fs, 3 * g + (b - 3 * g)));
    }
    if faces_adjacent(fs, f, g) {
        let (i, j) = choose|i: int, j: int|
            0 <= i < 3 && 0 <= j < 3 && #[trigger] edge_key(fs, 3 * f + i) == #[trigger] edge_key(
                fs,
                3 * g + j,
            );
        let a = pinv(3 * f + i);
        let b = pinv(3 * g + j);
        lemma_key(fs, fs2, pi, pinv, flip, a);
        lemma_key(fs, fs2, pi, pinv, flip, b);
        assert(a / 3 == f && b / 3 == g);
        assert(edge_key(fs2, 3 * f + (a - 3 * f)) == edge_key(fs2, 3 * g + (b - 3 * g)));
    }
}

/// The same undirected edges.
pub proof fn lemma_renumbered_edges(
    fs: Seq<[u64; 3]>,
    fs2: Seq<[u64; 3]>,
    pi: spec_fn(int) -> int,
    pinv: spec_fn(int) -> int,
    flip: bool,
)
    requires
        renumbered(fs, fs2, pi, pinv, flip),
    ensures
        edge_set(fs2) == edge_set(fs),
{
    assert forall|k: (u64, u64)| edge_set(fs2).contains(k) implies edge_set(fs).contains(k) by {
        let d = choose|d: int| 0 <= d < num_sides(fs2) && #[trigger] edge_key(fs2, d) == k;
        lemma_key(fs, fs2, pi, pinv, flip, d);
        assert(edge_key(fs, pi(d)) == k);
    }
    assert forall|k: (u64, u64)| edge_set(fs).contains(k) implies edge_set(fs2).contains(k) by {
        let d = choose|d: int| 0 <= d < num_sides(fs) && #[trigger] edge_key(fs, d) == k;
        lemma_key(fs, fs2, pi, pinv, flip, pinv(d));
        assert(edge_key(fs2, pinv(d)) == k);
    }
    assert(edge_set(fs2) =~= edge_set(fs));
}

/// Crossing an edge commutes with the renumbering.
pub proof fn lemma_renumbered_reverse(
    fs: Seq<[u64; 3]>,
    fs2: Seq<[u64; 3]>,
    pi: spec_fn(int) -> int,
    pinv: spec_fn(int) -> int,
    flip: bool,
    d: int,
)
    requires
        renumbered(fs, fs2, pi, pinv, flip),
        edges_sound(fs),
        0 <= d < num_sides(fs),
    ensures
        reverse_side(fs2, d) == pinv(reverse_side(fs, pi(d))),
{
    lemma_renumbered_sound(fs, fs2, pi, pinv, flip);
    lemma_reverse(fs2, d);
    let r2 = reverse_side(fs2, d);
    lemma_reverse(fs, pi(d));
    assert(tail(fs2, d) == tail(fs2, d));
    assert(tail(fs2, r2) == tail(fs2, r2));
    assert(is_reverse(fs, pi(d), pi(r2)));
}

// ---------------------------------------------------------------------------
// Sectors

/// `beta` carries the sides of `fs2` onto those of `fs`, keeping the start
/// vertices, and a turn in `fs2` onto a turn in `fs` (when `back`, onto a
/// turn taken backwards); `binv` undoes it.
pub open spec fn turns_match(
    fs: Seq<[u64; 3]>,
    fs2: Seq<[u64; 3]>,
    beta: spec_fn(int) -> int,
    binv: spec_fn(int) -> int,
    back: bool,
) -> bool {
    &&& num_sides(fs2) == num_sides(fs)
    &&& forall|d: int|
        0 <= d < num_sides(fs) ==> 0 <= #[trigger] beta(d) < num_sides(fs) && binv(beta(d)) == d
    &&& forall|d: int|
        0 <= d < num_sides(fs) ==> 0 <= #[trigger] binv(d) < num_sides(fs) && beta(binv(d)) == d
    &&& forall|d: int| 0 <= d < num_sides(fs) ==> #[trigger] tail(fs2, d) == tail(fs, beta(d))
    &&& forall|d: int|
        0 <= d < num_sides(fs) ==> if back {
            turn(fs, beta(#[trigger] turn(fs2, d))) == beta(d)
        } else {
            beta(#[trigger] turn(fs2, d)) == turn(fs, beta(d))
        }
}

proof fn lemma_iter_match(
    fs: Seq<[u64; 3]>,
    fs2: Seq<[u64; 3]>,
    beta: spec_fn(int) -> int,
    binv: spec_fn(int) -> int,
    back: bool,
    a: int,
    k: nat,
)
    requires
        turns_match(fs, fs2, beta, binv, back),
        edges_sound(fs),
        edges_sound(fs2),
        0 <= a < num_sides(fs),
    ensures
        if back {
            turn_iter(fs, beta(turn_iter(fs2, a, k)), k) == beta(a)
        } else {
            beta(turn_iter(fs2, a, k)) == turn_iter(fs, beta(a), k)
        },
    decreases k,
{
    if k > 0 {
        let k1 = (k - 1) as nat;
        lemma_iter_match(fs, fs2, beta, binv, back, a, k1);
        lemma_turn_iter(fs2, a, k1);
        let c = turn_iter(fs2, a, k1);
        assert(turn_iter(fs2, a, k) == turn(fs2, c));
        if back {
            lemma_turn(fs2, c);
            crate::turns::lemma_turn_iter_add(fs, beta(turn(fs2, c)), 1, k1);
            assert(turn_iter(fs, beta(turn(fs2, c)), 0) == beta(turn(fs2, c)));
            assert(turn_iter(fs, beta(turn(fs2, c)), 1) == turn(fs, beta(turn(fs2, c))));
        }
    }
}

proof fn lemma_iter_injective(fs: Seq<[u64; 3]>, x: int, y: int, k: nat)
    requires
        edges_sound(fs),
        0 <= x < num_sides(fs),
        0 <= y < num_sides(fs),
        turn_iter(fs, x, k) == turn_iter(fs, y, k),
    ensures
        x == y,
    decreases k,
{
    if k > 0 {
        let k1 = (k - 1) as nat;
        lemma_turn_iter(fs, x, k1);
        lemma_turn_iter(fs, y, k1);
        lemma_turn_injective(fs, turn_iter(fs, x, k1), turn_iter(fs, y, k1));
        lemma_iter_injective(fs, x, y, k1);
    }
}

proof fn lemma_reaches_match(
    fs: Seq<[u64; 3]>,
    fs2: Seq<[u64; 3]>,
    beta: spec_fn(int) -> int,
    binv: spec_fn(int) -> int,
    back: bool,
    a: int,
    b: int,
)
    requires
        turns_match(fs, fs2, beta, binv, back),
        edges_sound(fs),
        edges_sound(fs2),
        0 <= a < num_sides(fs),
        0 <= b < num_sides(fs),
    ensures
        reaches(fs2, a, b) == reaches(fs, beta(a), beta(b)),
{
    if reaches(fs2, a, b) {
        let k = choose|k: nat| #[trigger] turn_iter(fs2, a, k) == b;
        lemma_iter_match(fs, fs2, beta, binv, back, a, k);
        if back {
            lemma_reaches_back(fs, beta(b), k);
        } else {
            assert(turn_iter(fs, beta(a), k) == beta(b));
        }
    }
    if reaches(fs, beta(a), beta(b)) {
        let k = choose|k: nat| #[trigger] turn_iter(fs, beta(a), k) == beta(b);
        if back {
            lemma_reaches_back(fs, beta(a), k);
            let j = choose|j: nat| #[trigger] turn_iter(fs, beta(b), j) == beta(a);
            lemma_iter_match(fs, fs2, beta, binv, back, a, j);
            lemma_turn_iter(fs2, a, j);
            lemma_iter_injective(fs, beta(turn_iter(fs2, a, j)), beta(b), j);
            assert(binv(beta(turn_iter(fs2, a, j))) == turn_iter(fs2, a, j));
            assert(turn_iter(fs2, a, j) == b);
        } else {
            lemma_iter_match(fs, fs2, beta, binv, back, a, k);
            lemma_turn_iter(fs2, a, k);
            assert(binv(beta(turn_iter(fs2, a, k))) == turn_iter(fs2, a, k));
            assert(turn_iter(fs2, a, k) == b);
        }
    }
}

/// Every side is reached from the side that opens its sector.
pub proof fn lemma_opener_exists(fs: Seq<[u64; 3]>, d: int) -> (h: int)
    requires
        edges_sound(fs),
        0 <= d < num_sides(fs),
    ensures
        0 <= h <= d,
        reaches(fs, h, d),
        opens_sector(fs, h),
    decreases d,
{
    if opens_sector(fs, d) {
        assert(turn_iter(fs, d, 0) == d);
        d
    } else {
        let j = choose|j: int| 0 <= j < d && #[trigger] reaches(fs, j, d);
        let h = lemma_opener_exists(fs, j);
        lemma_reaches_trans(fs, h, j, d);
        h
    }
}

/// A side is reached from one opening side only.
proof fn lemma_opener_unique(fs: Seq<[u64; 3]>, h1: int, h2: int, d: int)
    requires
        edges_sound(fs),
        0 <= h1 < num_sides(fs),
        0 <= h2 < num_sides(fs),
        0 <= d < num_sides(fs),
        reaches(fs, h1, d),
        reaches(fs, h2, d),
        opens_sector(fs, h1),
        opens_sector(fs, h2),
    ensures
        h1 == h2,
{
    let k1 = choose|k: nat| #[trigger] turn_iter(fs, h1, k) == d;
    let k2 = choose|k: nat| #[trigger] turn_iter(fs, h2, k) == d;
    lemma_reaches_back(fs, h1, k1);
    lemma_reaches_back(fs, h2, k2);
    lemma_reaches_trans(fs, h1, d, h2);
    lemma_reaches_trans(fs, h2, d, h1);
}

/// The opening side of the sector of `d`.
spec fn opener(fs: Seq<[u64; 3]>, d: int) -> int {
    choose|h: int| 0 <= h < num_sides(fs) && reaches(fs, h, d) && opens_sector(fs, h)
}

proof fn lemma_opener(fs: Seq<[u64; 3]>, d: int)
    requires
        edges_sound(fs),
        0 <= d < num_sides(fs),
    ensures
        0 <= opener(fs, d) < num_sides(fs),
        reaches(fs, opener(fs, d), d),
        opens_sector(fs, opener(fs, d)),
        tail(fs, opener(fs, d)) == tail(fs, d),
{
    let h = lemma_opener_exists(fs, d);
    assert(0 <= h < num_sides(fs) && reaches(fs, h, d) && opens_sector(fs, h));
    let o = opener(fs, d);
    let k = choose|k: nat| #[trigger] turn_iter(fs, o, k) == d;
    lemma_turn_iter(fs, o, k);
}

/// The sides at `v` below `m` that open a sector.
pub open spec fn openers_below(fs: Seq<[u64; 3]>, v: u64, m: int) -> Set<int> {
    Set::new(|d: int| 0 <= d < m && tail(fs, d) == v && opens_sector(fs, d))
}

pub proof fn lemma_openers_len(fs: Seq<[u64; 3]>, v: u64, m: int)
    requires
        0 <= m,
    ensures
        openers_below(fs, v, m).finite(),
        openers_below(fs, v, m).len() == sectors_upto(fs, v, m),
    decreases m,
{
    lemma_int_range(0, m);
    lemma_len_subset(openers_below(fs, v, m), set_int_range(0, m));
    if m == 0 {
        assert(openers_below(fs, v, 0) =~= Set::<int>::empty());
    } else {
        lemma_openers_len(fs, v, m - 1);
        if tail(fs, m - 1) == v && opens_sector(fs, m - 1) {
            assert(openers_below(fs, v, m) =~= openers_below(fs, v, m - 1).insert(m - 1));
        } else {
            assert(openers_below(fs, v, m) =~= openers_below(fs, v, m - 1));
        }
    }
}

/// A bijection of the sides that keeps start vertices and carries turns to
/// turns, forwards or backwards, keeps the number of sectors at each vertex.
pub proof fn lemma_sectors_match(
    fs: Seq<[u64; 3]>,
    fs2: Seq<[u64; 3]>,
    beta: spec_fn(int) -> int,
    binv: spec_fn(int) -> int,
    back: bool,
    v: u64,
)
    requires
        turns_match(fs, fs2, beta, binv, back),
        edges_sound(fs),
        edges_sound(fs2),
    ensures
        sector_count(fs2, v) == sector_count(fs, v),
{
    let n = num_sides(fs);
    let h1 = openers_below(fs, v, n);
    let h2 = openers_below(fs2, v, n);
    lemma_openers_len(fs, v, n);
    lemma_openers_len(fs2, v, n);
    let mu = |h: int| opener(fs, beta(h));
    assert(injective_on(mu, h2)) by {
        assert forall|x: int, y: int|
            h2.contains(x) && h2.contains(y) && #[trigger] mu(x) == #[trigger] mu(y) implies x == y by {
            lemma_opener(fs, beta(x));
            lemma_opener(fs, beta(y));
            let o = mu(x);
            let kx = choose|k: nat| #[trigger] turn_iter(fs, o, k) == beta(x);
            lemma_reaches_back(fs, o, kx);
            lemma_reaches_trans(fs, beta(x), o, beta(y));
            lemma_reaches_match(fs, fs2, beta, binv, back, x, y);
            let ky = choose|k: nat| #[trigger] turn_iter(fs, o, k) == beta(y);
            lemma_reaches_back(fs, o, ky);
            lemma_reaches_trans(fs, beta(y), o, beta(x));
            lemma_reaches_match(fs, fs2, beta, binv, back, y, x);
            if x < y {
                assert(!reaches(fs2, x, y));
            } else if y < x {
                assert(!reaches(fs2, y, x));
            }
        }
    }
    assert(h2.map(mu) =~= h1) by {
        assert forall|h: int| h2.map(mu).contains(h) implies h1.contains(h) by {
            let x = choose|x: int| h2.contains(x) && mu(x) == h;
            lemma_opener(fs, beta(x));
        }
        assert forall|h: int| h1.contains(h) implies h2.map(mu).contains(h) by {
            let d2 = binv(h);
            lemma_opener(fs2, d2);
            let x = opener(fs2, d2);
            lemma_opener(fs, beta(x));
            lemma_reaches_match(fs, fs2, beta, binv, back, x, d2);
            lemma_reaches_trans(fs, mu(x), beta(x), h);
            assert(turn_iter(fs, h, 0) == h);
            lemma_opener_unique(fs, mu(x), h, h);
            assert(h2.contains(x));
        }
    }
    lemma_map_size(h2, h1, mu);
}

// ---------------------------------------------------------------------------
// The audit

proof fn lemma_renumbered_linked(
    fs: Seq<[u64; 3]>,
    fs2: Seq<[u64; 3]>,
    pi: spec_fn(int) -> int,
    pinv: spec_fn(int) -> int,
    flip: bool,
    h: int,
)
    requires
        renumbered(fs, fs2, pi, pinv, flip),
    ensures
        faces_linked(fs2, 0, h) == faces_linked(fs, 0, h),
{
    assert forall|p: Seq<int>| #[trigger] is_face_walk(fs2, p) == is_face_walk(fs, p) by {
        if p.len() >= 1 && forall|i: int| 0 <= i < p.len() ==> 0 <= #[trigger] p[i] < fs.len() {
            assert forall|i: int|
                #![trigger faces_adjacent(fs2, p[i], p[i + 1])]
                #![trigger faces_adjacent(fs, p[i], p[i + 1])]
                0 <= i < p.len() - 1 implies faces_adjacent(fs2, p[i], p[i + 1]) == faces_adjacent(
                fs,
                p[i],
                p[i + 1],
            ) by {
                lemma_renumbered_adjacent(fs, fs2, pi, pinv, flip, p[i], p[i + 1]);
            }
        }
    }
    if faces_linked(fs, 0, h) {
        let p = choose|p: Seq<int>| #[trigger] is_face_walk(fs, p) && p[0] == 0 && p.last() == h;
        assert(is_face_walk(fs2, p));
    }
    if faces_linked(fs2, 0, h) {
        let p = choose|p: Seq<int>| #[trigger] is_face_walk(fs2, p) && p[0] == 0 && p.last() == h;
        assert(is_face_walk(fs, p));
    }
}

/// Renumbering the sides within faces keeps the outcome of the audit.
pub proof fn lemma_renumbered_outcome(
    vs: Seq<u64>,
    fs: Seq<[u64; 3]>,
    fs2: Seq<[u64; 3]>,
    pi: spec_fn(int) -> int,
    pinv: spec_fn(int) -> int,
    flip: bool,
    beta: spec_fn(int) -> int,
    binv: spec_fn(int) -> int,
    back: bool,
    r: Audit,
)
    requires
        renumbered(fs, fs2, pi, pinv, flip),
        edges_sound(fs) ==> turns_match(fs, fs2, beta, binv, back),
        audit_outcome(vs, fs, r),
    ensures
        audit_outcome(vs, fs2, r),
{
    lemma_renumbered_sound(fs, fs2, pi, pinv, flip);
    if edges_sound(fs) {
        assert forall|v: u64| #[trigger] sector_count(fs2, v) == sector_count(fs, v) by {
            lemma_sectors_match(fs, fs2, beta, binv, back, v);
        }
    }
    assert forall|h: int| #[trigger] faces_linked(fs2, 0, h) == faces_linked(fs, 0, h) by {
        lemma_renumbered_linked(fs, fs2, pi, pinv, flip, h);
    }
    match r {
        Audit::Failed(Finding::Edge(a)) => {
            let d = choose|d: int| 0 <= d < num_sides(fs) && #[trigger] edge_key(fs, d) == (a.lo, a.hi);
            lemma_renumbered_faulty(fs, fs2, pi, pinv, flip, pinv(d));
            assert(edge_key(fs2, pinv(d)) == (a.lo, a.hi));
            lemma_renumbered_fault(fs, fs2, pi, pinv, flip, a.lo, a.hi);
            assert forall|e: int|
                0 <= e < num_sides(fs2) && #[trigger] side_faulty(fs2, e) implies !key_lt(
                edge_key(fs2, e),
                (a.lo, a.hi),
            ) by {
                lemma_renumbered_faulty(fs, fs2, pi, pinv, flip, e);
            }
        },
        Audit::Failed(Finding::Vertex { .. }) => {},
        Audit::Failed(Finding::Connectivity { .. }) => {
            assert forall|i: int| 0 <= i < vs.len() implies #[trigger] sector_count(fs2, vs[i]) == 1 by {
                assert(sector_count(fs, vs[i]) == 1);
            }
        },
        Audit::Passed { .. } => {
            assert forall|i: int| 0 <= i < vs.len() implies #[trigger] sector_count(fs2, vs[i]) == 1 by {
                assert(sector_count(fs, vs[i]) == 1);
            }
            assert forall|h: int| 0 <= h < fs2.len() implies #[trigger] faces_linked(fs2, 0, h) by {
                assert(faces_linked(fs, 0, h));
            }
            lemma_renumbered_edges(fs, fs2, pi, pinv, flip);
        },
    }
}

} // verus!
