//! Concrete instances of the library's laws.

use meshcheck::{audit, parse, Audit, EdgeKind, Finding, Mesh};

/// Every rotation and the reversal of a face repeat it.
#[test]
fn rotations_and_reversals_are_duplicates() {
    let head = "v 1\nv 2\nv 3\nf 1 2 3\n";
    for dup in ["f 1 2 3", "f 2 3 1", "f 3 1 2", "f 3 2 1", "f 1 3 2", "f 2 1 3"] {
        let e = parse(&format!("{head}{dup}\n")).unwrap_err();
        assert_eq!(e.line, 5);
        assert!(e.message.starts_with("duplicate undirected face"));
    }
}

/// A passing mesh uses every edge twice: 2E = 3F.
#[test]
fn passing_meshes_pair_their_sides() {
    for input in [
        "v 0\nv 1\nv 2\nv 3\nf 0 2 1\nf 0 1 3\nf 0 3 2\nf 1 2 3\n",
        "v 0\nv 1\nv 2\nv 3\nv 4\nf 0 2 3\nf 0 3 4\nf 0 4 2\nf 1 3 2\nf 1 4 3\nf 1 2 4\n",
    ] {
        match audit(&parse(input).unwrap()) {
            Audit::Passed { edges, faces, vertices, euler, genus } => {
                assert_eq!(2 * edges, 3 * faces);
                assert_eq!(euler, vertices as i64 - edges as i64 + faces as i64);
                assert_eq!(genus, 0);
            }
            other => panic!("unexpected {other:?}"),
        }
    }
}

/// A declared vertex that no face uses has no sector.
#[test]
fn unused_vertex_has_no_sector() {
    let input = "v 0\nv 1\nv 2\nv 3\nv 9\nf 0 2 1\nf 0 1 3\nf 0 3 2\nf 1 2 3\n";
    assert_eq!(
        audit(&parse(input).unwrap()),
        Audit::Failed(Finding::Vertex { id: 9, sectors: 0 })
    );
}

/// The edge stage comes first: a mesh with both a boundary edge and a
/// detached shell reports the edge.
#[test]
fn edge_stage_has_priority() {
    let input = "\
v 0
v 1
v 2
v 3
v 4
v 5
v 6
v 7
f 0 2 1
f 0 1 3
f 0 3 2
f 4 6 5
f 4 5 7
f 4 7 6
f 5 6 7
";
    assert_eq!(
        audit(&parse(input).unwrap()),
        Audit::Failed(Finding::Edge(meshcheck::EdgeAnomaly {
            kind: EdgeKind::Boundary,
            lo: 1,
            hi: 2,
        }))
    );
}

/// Ids printed in messages read back as the same ids.
#[test]
fn printed_ids_read_back() {
    for id in [0u64, 7, 10, 4096, u64::MAX] {
        let mesh = parse(&format!("v {id}\nv {id}\n")).unwrap_err();
        assert_eq!(mesh.message, format!("duplicate vertex id {id}"));
        let text = mesh.message.rsplit(' ').next().unwrap().to_string();
        let again = parse(&format!("v {text}\nv {text}\n")).unwrap_err();
        assert_eq!(again.message, mesh.message);
    }
}

/// Audit works on any well-formed mesh, not only parsed ones: a face with a
/// repeated vertex leaves a loop, which is always an edge defect.
#[test]
fn loops_are_edge_defects() {
    let mesh = Mesh { vertices: vec![0, 1, 2, 3], faces: vec![[0, 0, 1], [1, 2, 3]] };
    assert!(mesh.is_auditable());
    match audit(&mesh) {
        Audit::Failed(Finding::Edge(a)) => assert_eq!((a.lo, a.hi), (0, 0)),
        other => panic!("unexpected {other:?}"),
    }
}

/// The text of an `m` by `n` grid torus, its cells split into two triangles.
fn grid_torus(m: u64, n: u64) -> String {
    let mut text = String::new();
    for i in 0..m * n {
        text.push_str(&format!("v {i}\n"));
    }
    for i in 0..m {
        for j in 0..n {
            let a = i * n + j;
            let b = i * n + (j + 1) % n;
            let c = ((i + 1) % m) * n + j;
            let d = ((i + 1) % m) * n + (j + 1) % n;
            text.push_str(&format!("f {a} {b} {d}\nf {a} {d} {c}\n"));
        }
    }
    text
}

/// A passing mesh has an even Euler characteristic of at most 2, and its
/// genus is (2 - euler) / 2.
#[test]
fn passing_meshes_have_even_euler_at_most_two() {
    let inputs = [
        "v 0\nv 1\nv 2\nv 3\nf 0 2 1\nf 0 1 3\nf 0 3 2\nf 1 2 3\n".to_string(),
        grid_torus(3, 3),
        grid_torus(3, 5),
        grid_torus(4, 6),
    ];
    let expected = [(2i64, 0u64), (0, 1), (0, 1), (0, 1)];
    for (input, (chi, g)) in inputs.iter().zip(expected) {
        match audit(&parse(input).unwrap()) {
            Audit::Passed { euler, genus, .. } => {
                assert_eq!(euler % 2, 0);
                assert!(euler <= 2);
                assert_eq!(genus as i64, (2 - euler) / 2);
                assert_eq!((euler, genus), (chi, g));
            }
            other => panic!("unexpected {other:?}"),
        }
    }
}

const PINCHED: &str = "\
v 0
v 1
v 2
v 3
v 4
v 5
v 6
f 0 2 1
f 0 1 3
f 0 3 2
f 1 2 3
f 0 5 4
f 0 4 6
f 0 6 5
f 4 5 6
";

/// The faces of a text, with every id `x` renamed `g(x)`.
fn rename(input: &str, g: impl Fn(u64) -> u64) -> Mesh {
    let mesh = parse(input).unwrap();
    Mesh {
        vertices: mesh.vertices.iter().map(|&x| g(x)).collect(),
        faces: mesh.faces.iter().map(|t| [g(t[0]), g(t[1]), g(t[2])]).collect(),
    }
}

fn rename_outcome(a: Audit, g: impl Fn(u64) -> u64) -> Audit {
    match a {
        Audit::Failed(Finding::Edge(e)) => Audit::Failed(Finding::Edge(meshcheck::EdgeAnomaly {
            kind: e.kind,
            lo: g(e.lo),
            hi: g(e.hi),
        })),
        Audit::Failed(Finding::Vertex { id, sectors }) => {
            Audit::Failed(Finding::Vertex { id: g(id), sectors })
        }
        other => other,
    }
}

/// Renaming ids in increasing order renames them in the outcome.
#[test]
fn increasing_renaming_renames_the_outcome() {
    let flipped = "v 0\nv 1\nv 2\nv 3\nf 0 1 2\nf 0 1 3\nf 0 3 2\nf 1 2 3\n";
    let g = |x: u64| 3 * x + 100;
    for input in [flipped, PINCHED, "v 0\nv 1\nv 2\nv 3\nf 0 2 1\nf 0 1 3\nf 0 3 2\nf 1 2 3\n"] {
        let before = audit(&parse(input).unwrap());
        let after = audit(&rename(input, g));
        assert_eq!(after, rename_outcome(before, g));
    }
}

/// Starting faces at another corner, or reversing every face, keeps the outcome.
#[test]
fn rotating_or_reversing_faces_keeps_the_outcome() {
    let flipped = "v 0\nv 1\nv 2\nv 3\nf 0 1 2\nf 0 1 3\nf 0 3 2\nf 1 2 3\n";
    for input in [flipped, PINCHED, "v 0\nv 1\nv 2\nv 3\nf 0 2 1\nf 0 1 3\nf 0 3 2\nf 1 2 3\n"] {
        let mesh = parse(input).unwrap();
        let before = audit(&mesh);
        let mut rotated = mesh.clone();
        for (i, t) in rotated.faces.iter_mut().enumerate() {
            if i % 2 == 0 {
                *t = [t[1], t[2], t[0]];
            }
        }
        assert_eq!(audit(&rotated), before);
        let mut reversed = mesh.clone();
        for t in reversed.faces.iter_mut() {
            *t = [t[0], t[2], t[1]];
        }
        assert_eq!(audit(&reversed), before);
    }
}

/// Blank and comment lines, extra blanks and reordered vertex lines change
/// nothing in the parsed mesh.
#[test]
fn layout_does_not_change_the_mesh() {
    let base = "v 0\nv 1\nv 2\nv 3\nf 0 2 1\nf 0 1 3\nf 0 3 2\nf 1 2 3\n";
    let mesh = parse(base).unwrap();
    let variants = [
        "\n# a comment\nv 0\nv 1\n   \nv 2\nv 3\nf 0 2 1\n\t# another\nf 0 1 3\nf 0 3 2\nf 1 2 3\n\n",
        "  v   0\nv\t1 \nv 2\n v 3\nf 0  2 1\nf\t0 1\t3\nf 0 3 2   \nf 1 2 3\n",
        "v 3\nv 1\nv 0\nv 2\nf 0 2 1\nf 0 1 3\nf 0 3 2\nf 1 2 3\n",
    ];
    for text in variants {
        assert_eq!(parse(text).unwrap(), mesh);
    }
    // Errors keep their line when only the spacing changes.
    let bad = "v 0\nv 1\nv x\n";
    let spaced = "v   0\n  v 1\nv\tx  \n";
    assert_eq!(parse(bad).unwrap_err(), parse(spaced).unwrap_err());
}
