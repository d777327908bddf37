# meshcheck

A verified auditor of oriented triangle meshes: it decides whether a list of
oriented triangles forms a closed orientable surface in the combinatorial
sense, and reports the smallest witness of the first defect. Geometric
self-intersection is not examined.

## Input

Pure ASCII text, read line by line:

```
# a comment; blank lines are ignored
v 0          declares a vertex (unsigned decimal id)
f 0 2 1      declares an oriented triangle over three distinct declared vertices
```

4..=500 distinct vertices and 4..=2000 faces are required; unknown vertices,
repeated undirected faces (in any rotation or reversal), missing or extra
fields, repeated vertex ids and non-ASCII content are rejected.

## Audit

1. every undirected edge is used by exactly two faces, in opposite directions
   (witness: the smallest defective edge);
2. the faces around every vertex form a single sector (witness: the smallest
   vertex id);
3. all faces are connected through shared edges (witness: the smallest face
   index not joined to face 0).

A passing mesh reports V, E, F, the Euler characteristic V - E + F and the
genus (2 - (V - E + F)) / 2.

## Layout

- `src/syntax.rs`: the text format as spec functions over characters, and the
  outcome of reading a text;
- `src/parse.rs`: the parser, proved to produce that outcome;
- `src/topology.rs`: the model of a mesh as numbered sides, with edges,
  sectors and connectivity;
- `src/audit.rs`: the three-stage audit, proved against the model;
- `src/turns.rs`, `src/surface.rs`: lemmas on turning around vertices and on
  counting edges;
- `src/cycles.rs`, `src/euler.rs`: cycles of permutations, and the proof that
  a passing mesh has an even Euler characteristic of at most 2;
- `src/invariance.rs`, `src/renumber.rs`: the audit does not depend on the
  names of the vertices (up to their order), on where each face starts, or
  on the direction of all faces together;
- `src/layout.rs`: parsing does not depend on blank and comment lines, on
  the blanks around words, or on the order of the vertex lines;
- `src/decimal.rs`: decimal rendering of ids in messages;
- `app/main.rs`: the command-line program (file or standard input, exit codes
  0 / 1 / 2);
- `tests/`: scenarios and concrete instances of the laws.
