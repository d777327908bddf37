//! Input validation: every rejection path, with its line and message.

use meshcheck::{audit, index_map, parse, Audit, EdgeKind, Finding, Mesh, ParseError};

const TETRA: &str = "\
# closed tetrahedron
v 0
v 1
v 2
v 3
f 0 2 1
f 0 1 3
f 0 3 2
f 1 2 3
";

fn reject(input: &str) -> ParseError {
    parse(input).expect_err("input must be rejected")
}

#[test]
fn ok_mesh_exits_zero_with_invariants() {
    let mesh = parse(TETRA).unwrap();
    assert_eq!(mesh.vertices, vec![0, 1, 2, 3]);
    assert_eq!(mesh.faces, vec![[0, 2, 1], [0, 1, 3], [0, 3, 2], [1, 2, 3]]);
    assert_eq!(
        audit(&mesh),
        Audit::Passed { vertices: 4, edges: 6, faces: 4, euler: 2, genus: 0 }
    );
}

#[test]
fn flipped_face_exits_one_with_edge_witness() {
    let input = TETRA.replace("f 0 2 1", "f 0 1 2");
    match audit(&parse(&input).unwrap()) {
        Audit::Failed(Finding::Edge(a)) => {
            assert_eq!(a.kind.label(), "orientation");
            assert_eq!((a.lo, a.hi), (0, 1));
        }
        other => panic!("unexpected {other:?}"),
    }
}

#[test]
fn unknown_vertex_is_rejected() {
    let input = TETRA.replace("f 1 2 3", "f 1 2 9");
    let e = reject(&input);
    assert_eq!(e.line, 0);
    assert_eq!(e.message, "face 4 references unknown vertex id 9");
    assert!(e.to_string().contains("unknown vertex"));
}

#[test]
fn duplicate_undirected_face_is_rejected() {
    // `f 3 2 1` is the face `f 1 2 3` written in reverse.
    let input = TETRA.replace("f 1 2 3", "f 1 2 3\nf 3 2 1");
    let e = reject(&input);
    assert_eq!(e.line, 10);
    assert_eq!(e.message, "duplicate undirected face (3, 2, 1)");
    assert_eq!(e.to_string(), "line 10: duplicate undirected face (3, 2, 1)");
}

#[test]
fn extra_field_is_rejected() {
    let input = TETRA.replace("f 1 2 3", "f 1 2 3 4");
    let e = reject(&input);
    assert_eq!(e.line, 9);
    assert_eq!(e.message, "face line expects exactly 4 fields, got 5");
}

#[test]
fn degenerate_face_is_rejected() {
    let input = TETRA.replace("f 1 2 3", "f 1 2 2");
    let e = reject(&input);
    assert_eq!(e.line, 9);
    assert_eq!(e.message, "face vertices must be pairwise distinct");
}

#[test]
fn duplicate_vertex_is_rejected() {
    let input = TETRA.replace("v 3", "v 3\nv 3");
    let e = reject(&input);
    assert_eq!(e.line, 6);
    assert_eq!(e.message, "duplicate vertex id 3");
}

#[test]
fn too_few_vertices_is_rejected() {
    let e = reject("v 0\nv 1\nv 2\nf 0 1 2\n");
    assert_eq!(e.line, 0);
    assert_eq!(e.message, "vertex count 3 out of range 4..=500");
    assert_eq!(e.to_string(), "vertex count 3 out of range 4..=500");
}

#[test]
fn non_ascii_is_rejected() {
    let input = format!("{TETRA}v 5\u{e9}\n");
    let e = reject(&input);
    assert_eq!(e.line, 0);
    assert_eq!(e.message, "input must be pure ASCII");
}

#[test]
fn too_few_faces_is_rejected() {
    let e = reject("v 0\nv 1\nv 2\nv 3\nf 0 1 2\n");
    assert_eq!(e.line, 0);
    assert_eq!(e.message, "face count 1 out of range 4..=2000");
}

#[test]
fn vertex_arity_is_checked() {
    let e = reject("v 0 1\n");
    assert_eq!(e.line, 1);
    assert_eq!(e.message, "vertex line expects exactly 2 fields, got 3");
    let e = reject("v\n");
    assert_eq!(e.message, "vertex line expects exactly 2 fields, got 1");
}

#[test]
fn face_arity_is_checked() {
    let e = reject("v 0\nf 0 1\n");
    assert_eq!(e.line, 2);
    assert_eq!(e.message, "face line expects exactly 4 fields, got 3");
}

#[test]
fn invalid_ids_are_rejected() {
    let e = reject("v x\n");
    assert_eq!((e.line, e.message.as_str()), (1, "invalid vertex id `x`"));
    let e = reject("v +5\n");
    assert_eq!(e.message, "invalid vertex id `+5`");
    let e = reject("v -1\n");
    assert_eq!(e.message, "invalid vertex id `-1`");
    // 2^64 does not fit in 64 bits.
    let e = reject("v 18446744073709551616\n");
    assert_eq!(e.message, "invalid vertex id `18446744073709551616`");
    // The first invalid corner of a face is reported.
    let e = reject("v 1\nf 1 a b\n");
    assert_eq!((e.line, e.message.as_str()), (2, "invalid vertex id `a`"));
    let e = reject("v 1\nf 1 2 b\n");
    assert_eq!(e.message, "invalid vertex id `b`");
}

#[test]
fn unknown_directive_is_rejected() {
    let e = reject("v 1\n\nvertex 2\n");
    assert_eq!(e.line, 3);
    assert_eq!(e.message, "unknown directive `vertex`");
}

#[test]
fn first_faulty_line_wins() {
    // Line 2 is malformed and line 3 repeats a vertex: line 2 is reported.
    let e = reject("v 1\nq\nv 1\n");
    assert_eq!(e.line, 2);
    // Line faults come before count faults.
    let e = reject("v 1\nv 1\n");
    assert_eq!((e.line, e.message.as_str()), (2, "duplicate vertex id 1"));
    // Non-ASCII content comes before everything.
    let e = reject("q\n\u{e9}\n");
    assert_eq!(e.line, 0);
}

#[test]
fn large_and_padded_ids_are_accepted() {
    let input = "\
v 18446744073709551615
v 007
v 3
v 10
f 18446744073709551615 7 3
f 18446744073709551615 3 10
f 18446744073709551615 10 7
f 7 10 3
";
    let mesh = parse(input).unwrap();
    assert_eq!(mesh.vertices, vec![3, 7, 10, 18446744073709551615]);
    assert_eq!(mesh.faces[0], [18446744073709551615, 7, 3]);
}

#[test]
fn blanks_comments_and_crlf_are_tolerated() {
    let input = "  # heading\r\n\r\n\tv 0\r\nv 1 \r\nv\t2\nv 3\x0b\n\n  #f 9 9 9\nf 0 2 1\r\nf 0 1 3\nf 0 3 2\nf 1 2 3";
    let mesh = parse(input).unwrap();
    assert_eq!(mesh.vertices, vec![0, 1, 2, 3]);
    assert_eq!(mesh.faces.len(), 4);
    assert_eq!(
        audit(&mesh),
        Audit::Passed { vertices: 4, edges: 6, faces: 4, euler: 2, genus: 0 }
    );
}

#[test]
fn error_rendering() {
    let e = ParseError { line: 7, message: "boom".to_string() };
    assert_eq!(e.to_string(), "line 7: boom");
    let e = ParseError { line: 0, message: "boom".to_string() };
    assert_eq!(e.to_string(), "boom");
}

#[test]
fn edge_kind_labels() {
    assert_eq!(EdgeKind::Boundary.label(), "boundary");
    assert_eq!(EdgeKind::Orientation.label(), "orientation");
    assert_eq!(EdgeKind::NonManifold.label(), "non-manifold");
}

#[test]
fn index_map_gives_positions() {
    let m = index_map(&[10, 20, 30]);
    assert_eq!(m.len(), 3);
    assert_eq!(m[&10], 0);
    assert_eq!(m[&20], 1);
    assert_eq!(m[&30], 2);
    let m = index_map(&[5, 6, 5]);
    assert_eq!(m[&5], 2);
    assert_eq!(m.get(&7), None);
}

#[test]
fn auditability_check() {
    assert!(parse(TETRA).unwrap().is_auditable());
    let unsorted = Mesh { vertices: vec![1, 0, 2, 3], faces: vec![[0, 1, 2]] };
    assert!(!unsorted.is_auditable());
    let dangling = Mesh { vertices: vec![0, 1, 2], faces: vec![[0, 1, 5]] };
    assert!(!dangling.is_auditable());
    let empty = Mesh { vertices: vec![], faces: vec![] };
    assert!(!empty.is_auditable());
}
