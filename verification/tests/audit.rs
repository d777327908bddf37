//! Topology scenarios: flipped face, boundary edge, non-manifold edge, two
//! shells sharing one vertex, disjoint shells, and closed surfaces.

use meshcheck::{audit, parse, Audit, EdgeAnomaly, EdgeKind, Finding};

fn run(input: &str) -> Audit {
    let mesh = parse(input).expect("test mesh must parse");
    audit(&mesh)
}

/// Closed tetrahedron: V=4 E=6 F=4, Euler characteristic 2, genus 0.
const TETRA: &str = "\
v 0
v 1
v 2
v 3
f 0 2 1
f 0 1 3
f 0 3 2
f 1 2 3
";

/// The tetrahedron with `f 0 2 1` reversed to `f 0 1 2`: the edges {0,1},
/// {0,2} and {1,2} are each used twice in the same direction.
const TETRA_FLIPPED: &str = "\
v 0
v 1
v 2
v 3
f 0 1 2
f 0 1 3
f 0 3 2
f 1 2 3
";

/// The triangular bipyramid (V=5 E=9 F=6) without its face `f 0 4 2`: the
/// boundary edges are {0,2}, {0,4} and {2,4}; the smallest is (0,2).
const BIPYRAMID_OPEN: &str = "\
v 0
v 1
v 2
v 3
v 4
f 0 2 3
f 0 3 4
f 1 3 2
f 1 4 3
f 1 2 4
";

/// Two tetrahedra sharing only vertex 0: two sectors meet at vertex 0.
const PINCHED_VERTEX: &str = "\
v 0
v 1
v 2
v 3
v 4
v 5
v 6
f 0 2 1
f 0 1 3
f 0 3 2
f 1 2 3
f 0 5 4
f 0 4 6
f 0 6 5
f 4 5 6
";

/// Two disjoint tetrahedra: edges and vertices pass, connectivity fails.
const TWO_SHELLS: &str = "\
v 0
v 1
v 2
v 3
v 4
v 5
v 6
v 7
f 0 2 1
f 0 1 3
f 0 3 2
f 1 2 3
f 4 6 5
f 4 5 7
f 4 7 6
f 5 6 7
";

/// Three faces share the undirected edge {0,1}; the other edges are boundary
/// edges. The smallest defective edge is still the non-manifold {0,1}.
const NON_MANIFOLD_EDGE: &str = "\
v 0
v 1
v 2
v 3
v 4
f 0 1 2
f 1 0 3
f 0 1 4
f 2 3 4
";

/// A torus over a 3 x 5 grid of vertices, each square split in two:
/// V=15 E=45 F=30.
const TORUS: &str = "\
v 0
v 1
v 2
v 3
v 4
v 5
v 6
v 7
v 8
v 9
v 10
v 11
v 12
v 13
v 14
f 0 5 6
f 0 6 1
f 1 6 7
f 1 7 2
f 2 7 8
f 2 8 3
f 3 8 9
f 3 9 4
f 4 9 5
f 4 5 0
f 5 10 11
f 5 11 6
f 6 11 12
f 6 12 7
f 7 12 13
f 7 13 8
f 8 13 14
f 8 14 9
f 9 14 10
f 9 10 5
f 10 0 1
f 10 1 11
f 11 1 2
f 11 2 12
f 12 2 3
f 12 3 13
f 13 3 4
f 13 4 14
f 14 4 0
f 14 0 10
";

#[test]
fn closed_tetrahedron_is_genus_zero() {
    assert_eq!(
        run(TETRA),
        Audit::Passed {
            vertices: 4,
            edges: 6,
            faces: 4,
            euler: 2,
            genus: 0,
        }
    );
}

#[test]
fn flipped_face_reports_smallest_orientation_edge() {
    assert_eq!(
        run(TETRA_FLIPPED),
        Audit::Failed(Finding::Edge(EdgeAnomaly {
            kind: EdgeKind::Orientation,
            lo: 0,
            hi: 1,
        }))
    );
}

#[test]
fn open_shell_reports_smallest_boundary_edge() {
    assert_eq!(
        run(BIPYRAMID_OPEN),
        Audit::Failed(Finding::Edge(EdgeAnomaly {
            kind: EdgeKind::Boundary,
            lo: 0,
            hi: 2,
        }))
    );
}

#[test]
fn triple_used_edge_reports_non_manifold_edge() {
    assert_eq!(
        run(NON_MANIFOLD_EDGE),
        Audit::Failed(Finding::Edge(EdgeAnomaly {
            kind: EdgeKind::NonManifold,
            lo: 0,
            hi: 1,
        }))
    );
}

#[test]
fn two_shells_sharing_one_vertex_report_pinched_vertex() {
    // Every edge is used twice in opposite directions, but vertex 0 splits
    // into two sectors.
    assert_eq!(
        run(PINCHED_VERTEX),
        Audit::Failed(Finding::Vertex { id: 0, sectors: 2 })
    );
}

#[test]
fn disjoint_shells_report_smallest_detached_face() {
    // The shell over vertices 4..7 is not joined to face 0; its smallest
    // face index is 4.
    assert_eq!(
        run(TWO_SHELLS),
        Audit::Failed(Finding::Connectivity { face_index: 4 })
    );
}

#[test]
fn closed_bipyramid_is_genus_zero() {
    let input = "\
v 0
v 1
v 2
v 3
v 4
f 0 2 3
f 0 3 4
f 0 4 2
f 1 3 2
f 1 4 3
f 1 2 4
";
    assert_eq!(
        run(input),
        Audit::Passed {
            vertices: 5,
            edges: 9,
            faces: 6,
            euler: 2,
            genus: 0,
        }
    );
}

#[test]
fn torus_is_genus_one() {
    let input = TORUS;
    assert_eq!(
        run(input),
        Audit::Passed {
            vertices: 15,
            edges: 45,
            faces: 30,
            euler: 0,
            genus: 1,
        }
    );
}

#[test]
fn vertex_ids_need_not_be_dense() {
    // Sparse, large ids are ordered by value when choosing witnesses.
    let input = "\
v 10
v 20
v 30
v 40
f 10 30 20
f 10 20 40
f 10 40 30
f 20 30 40
";
    assert_eq!(
        run(input),
        Audit::Passed {
            vertices: 4,
            edges: 6,
            faces: 4,
            euler: 2,
            genus: 0,
        }
    );
}
