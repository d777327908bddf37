//! Input parsing and format validation.
//!
//! Text format (ASCII only):
//! - blank lines and lines whose first non-blank character is `#` are ignored;
//! - `v <id>` declares a vertex, the id being an unsigned decimal integer;
//! - `f <a> <b> <c>` declares an oriented triangle over three distinct declared vertices.
//!
//! Constraints: 4..=500 distinct vertices and 4..=2000 faces; unknown
//! vertices, repeated undirected faces, missing or extra fields and non-ASCII
//! content are rejected.

use std::collections::{HashMap, HashSet};

use vstd::prelude::*;
use vstd::string::{StrSliceExecFns, StringExecFns};
use vstd::utf8::is_ascii_chars;

use crate::decimal::{decimal, push_decimal};

use crate::syntax::{
    corner, declared_faces, declared_vertices, digits_value, is_blank, is_digit,
    lemma_declared_faces_distinct, lemma_digits_value_prefix, lemma_line_end,
    lemma_outcome_line_error, lemma_outcome_unknown_corner, lemma_skip_blank, lemma_word_end,
    lemma_words, line_end, line_error, line_record, lines, lines_from, msg_invalid_id, read_outcome,
    record_at, same_vertex_set, skip_blank, unknown_corner, vertex_id, word, word_end, words,
    Declaration,
};

verus! {

broadcast use vstd::std_specs::hash::group_hash_axioms;

pub const MIN_VERTICES: usize = 4;

pub const MAX_VERTICES: usize = 500;

pub const MIN_FACES: usize = 4;

pub const MAX_FACES: usize = 2000;

/// A parsed mesh: the vertex ids in ascending order, without repetition, and
/// the oriented faces as triples of vertex ids.
#[derive(Debug, Clone, PartialEq, Eq)]
pub struct Mesh {
    pub vertices: Vec<u64>,
    pub faces: Vec<[u64; 3]>,
}

/// Rejection of the input, with the 1-based line number (0 when the fault
/// concerns the text as a whole).
#[derive(Debug, Clone, PartialEq, Eq)]
pub struct ParseError {
    pub line: usize,
    pub message: String,
}

impl ParseError {
    /// The rendering of the error: the message, preceded by `line N: ` when
    /// the error belongs to a line.
    pub fn to_string(&self) -> (s: String)
        ensures
            s@ == if self.line == 0 {
                self.message@
            } else {
                "line "@ + decimal(self.line as nat) + ": "@ + self.message@
            },
    {
        if self.line == 0 {
            self.message.clone()
        } else {
            let mut s = String::from_str("line ");
            push_decimal(&mut s, self.line as u64);
            s.append(": ");
            s.append(self.message.as_str());
            s
        }
    }
}

fn err(line: usize, message: String) -> (e: ParseError)
    ensures
        e.line == line,
        e.message == message,
{
    ParseError { line, message }
}

/// The faces of a mesh, as triples.
pub open spec fn face_triples(faces: Seq<[u64; 3]>) -> Seq<(u64, u64, u64)> {
    faces.map_values(|t: [u64; 3]| (t[0], t[1], t[2]))
}

/// The vertex ids are strictly increasing.
pub open spec fn strictly_increasing(s: Seq<u64>) -> bool {
    forall|i: int, j: int| 0 <= i < j < s.len() ==> s[i] < s[j]
}

impl Mesh {
    /// Every face has three distinct vertices.
    pub open spec fn faces_nondegenerate(&self) -> bool {
        forall|f: int|
            0 <= f < self.faces@.len() ==> {
                &&& #[trigger] self.faces@[f][0] != self.faces@[f][1]
                &&& self.faces@[f][1] != self.faces@[f][2]
                &&& self.faces@[f][0] != self.faces@[f][2]
            }
    }

    /// The shape `parse` produces: ascending distinct vertex ids, and faces
    /// over declared vertices only.
    pub open spec fn well_formed(&self) -> bool {
        &&& strictly_increasing(self.vertices@)
        &&& forall|f: int, k: int|
            0 <= f < self.faces@.len() && 0 <= k < 3 ==> self.vertices@.contains(
                #[trigger] self.faces@[f][k],
            )
    }
}

/// Maps each vertex id to its position in `vertices` (its last position if it
/// occurs more than once).
pub fn index_map(vertices: &[u64]) -> (m: HashMap<u64, usize>)
    ensures
        forall|k: u64| #[trigger] m@.contains_key(k) <==> vertices@.contains(k),
        forall|k: u64|
            #[trigger] m@.contains_key(k) ==> {
                &&& m@[k] < vertices@.len()
                &&& vertices@[m@[k] as int] == k
                &&& forall|j: int| m@[k] < j < vertices@.len() ==> vertices@[j] != k
            },
{
    let mut m: HashMap<u64, usize> = HashMap::new();
    let n = vertices.len();
    for i in 0..n
        invariant
            n == vertices@.len(),
            forall|k: u64|
                #[trigger] m@.contains_key(k) <==> exists|j: int|
                    0 <= j < i && #[trigger] vertices@[j] == k,
            forall|k: u64|
                #[trigger] m@.contains_key(k) ==> {
                    &&& m@[k] < i
                    &&& vertices@[m@[k] as int] == k
                    &&& forall|j: int| m@[k] < j < i ==> vertices@[j] != k
                },
    {
        m.insert(vertices[i], i);
        assert forall|k: u64| #[trigger] m@.contains_key(k) <==> exists|j: int|
            0 <= j < i + 1 && #[trigger] vertices@[j] == k by {
            if k == vertices@[i as int] {
                assert(vertices@[i as int] == k);
            }
        }
    }
    m
}


/// `bytes` is the ASCII encoding of `text`.
pub open spec fn encodes(bytes: Seq<u8>, text: Seq<char>) -> bool {
    &&& bytes.len() == text.len()
    &&& is_ascii_chars(text)
    &&& forall|i: int| 0 <= i < text.len() ==> #[trigger] bytes[i] == text[i] as u8
}

/// The character at position `i` is blank.
fn blank_at(bytes: &[u8], i: usize, Ghost(text): Ghost<Seq<char>>) -> (r: bool)
    requires
        encodes(bytes@, text),
        i < text.len(),
    ensures
        r == is_blank(text[i as int]),
{
    let b = bytes[i];
    assert('\0' <= text[i as int] <= '\u{7f}');
    b == 32 || (9 <= b && b <= 13)
}

/// The character at position `i` is a decimal digit.
fn digit_at(bytes: &[u8], i: usize, Ghost(text): Ghost<Seq<char>>) -> (r: bool)
    requires
        encodes(bytes@, text),
        i < text.len(),
    ensures
        r == is_digit(text[i as int]),
{
    let b = bytes[i];
    assert('\0' <= text[i as int] <= '\u{7f}');
    48 <= b && b <= 57
}


/// The character at position `i` is a line feed.
fn newline_at(bytes: &[u8], i: usize, Ghost(text): Ghost<Seq<char>>) -> (r: bool)
    requires
        encodes(bytes@, text),
        i < text.len(),
    ensures
        r == (text[i as int] == '\n'),
{
    let b = bytes[i];
    assert('\0' <= text[i as int] <= '\u{7f}');
    b == 10
}

/// End of the line that begins at `i`.
fn find_line_end(bytes: &[u8], i: usize, Ghost(text): Ghost<Seq<char>>) -> (e: usize)
    requires
        encodes(bytes@, text),
        i <= text.len(),
    ensures
        e == line_end(text, i as int),
{
    let n = bytes.len();
    let mut j = i;
    while j < n && !newline_at(bytes, j, Ghost(text))
        invariant
            encodes(bytes@, text),
            n == text.len(),
            i <= j <= n,
            line_end(text, i as int) == line_end(text, j as int),
        decreases n - j,
    {
        j = j + 1;
    }
    j
}

/// First non-blank position in `[i, end)`, or `end`.
fn find_word_start(bytes: &[u8], i: usize, end: usize, Ghost(text): Ghost<Seq<char>>) -> (a: usize)
    requires
        encodes(bytes@, text),
        i <= end <= text.len(),
    ensures
        a == skip_blank(text, i as int, end as int),
{
    let mut j = i;
    while j < end && blank_at(bytes, j, Ghost(text))
        invariant
            encodes(bytes@, text),
            i <= j <= end <= text.len(),
            skip_blank(text, i as int, end as int) == skip_blank(text, j as int, end as int),
        decreases end - j,
    {
        j = j + 1;
    }
    j
}

/// First blank position in `[i, end)`, or `end`.
fn find_word_end(bytes: &[u8], i: usize, end: usize, Ghost(text): Ghost<Seq<char>>) -> (b: usize)
    requires
        encodes(bytes@, text),
        i <= end <= text.len(),
    ensures
        b == word_end(text, i as int, end as int),
{
    let mut j = i;
    while j < end && !blank_at(bytes, j, Ghost(text))
        invariant
            encodes(bytes@, text),
            i <= j <= end <= text.len(),
            word_end(text, i as int, end as int) == word_end(text, j as int, end as int),
        decreases end - j,
    {
        j = j + 1;
    }
    j
}

/// The words of `text[a..b)` as position ranges.
fn line_words(bytes: &[u8], a: usize, b: usize, Ghost(text): Ghost<Seq<char>>) -> (ws: Vec<
    (usize, usize),
>)
    requires
        encodes(bytes@, text),
        a <= b <= text.len(),
    ensures
        ws@.len() == words(text, a as int, b as int).len(),
        forall|j: int|
            0 <= j < ws@.len() ==> (#[trigger] ws@[j]).0 == words(text, a as int, b as int)[j].0
                && ws@[j].1 == words(text, a as int, b as int)[j].1,
{
    let mut ws: Vec<(usize, usize)> = Vec::new();
    let mut i = a;
    let ghost all = words(text, a as int, b as int);
    while i < b
        invariant
            encodes(bytes@, text),
            a <= i <= b <= text.len(),
            all == words(text, a as int, b as int),
            all.len() == ws@.len() + words(text, i as int, b as int).len(),
            forall|j: int|
                0 <= j < ws@.len() ==> (#[trigger] ws@[j]).0 == all[j].0 && ws@[j].1 == all[j].1,
            forall|j: int|
                0 <= j < words(text, i as int, b as int).len() ==> #[trigger] all[ws@.len() + j]
                    == words(text, i as int, b as int)[j],
        decreases b - i,
    {
        let s = find_word_start(bytes, i, b, Ghost(text));
        proof {
            lemma_skip_blank(text, i as int, b as int);
        }
        if s >= b {
            assert(words(text, i as int, b as int) =~= seq![]);
            i = b;
        } else {
            let e = find_word_end(bytes, s, b, Ghost(text));
            proof {
                lemma_word_end(text, s as int, b as int);
                lemma_word_end(text, s + 1, b as int);
                let rest = words(text, e as int, b as int);
                assert(words(text, i as int, b as int) == seq![(s as int, e as int)] + rest);
                assert(all[ws@.len() as int] == (s as int, e as int)) by {
                    assert(words(text, i as int, b as int)[0] == (s as int, e as int));
                    assert(all[ws@.len() + 0int] == words(text, i as int, b as int)[0]);
                }
                assert forall|j: int| 0 <= j < rest.len() implies #[trigger] all[ws@.len() + 1 + j]
                    == rest[j] by {
                    assert(words(text, i as int, b as int)[j + 1] == rest[j]);
                    assert(all[ws@.len() + (j + 1)] == words(text, i as int, b as int)[j + 1]);
                    assert(ws@.len() + (j + 1) == ws@.len() + 1 + j);
                }
            }
            ws.push((s, e));
            i = e;
        }
    }
    proof {
        assert(words(text, b as int, b as int) =~= seq![]);
    }
    ws
}


/// Reads a vertex id: an unsigned decimal integer, without sign, that fits in 64 bits.
fn parse_id(tok: &str) -> (r: Option<u64>)
    ensures
        r == vertex_id(tok@),
{
    let ghost t = tok@;
    if !tok.is_ascii() {
        proof {
            let i = choose|i: int| 0 <= i < t.len() && !('\0' <= #[trigger] t[i] <= '\u{7f}');
            assert(!is_digit(t[i]));
        }
        return None;
    }
    let bytes = tok.as_bytes();
    proof {
        vstd::string::is_ascii_spec_bytes(tok);
        assert(encodes(bytes@, t));
    }
    let n = bytes.len();
    if n == 0 {
        return None;
    }
    let mut acc: u64 = 0;
    for i in 0..n
        invariant
            t == tok@,
            encodes(bytes@, t),
            n == t.len(),
            acc == digits_value(t.take(i as int)),
            forall|j: int| 0 <= j < i ==> is_digit(#[trigger] t[j]),
    {
        if !digit_at(bytes, i, Ghost(t)) {
            proof {
                assert(!is_digit(t[i as int]));
            }
            return None;
        }
        let d = (bytes[i] - 48) as u64;
        proof {
            assert(t.take(i + 1).drop_last() =~= t.take(i as int));
            assert(digits_value(t.take(i + 1)) == acc * 10 + d);
        }
        match acc.checked_mul(10) {
            None => {
                proof {
                    assert(acc * 10 > u64::MAX);
                    assert(digits_value(t.take(i + 1)) > u64::MAX);
                    if forall|j: int| 0 <= j < t.len() ==> is_digit(#[trigger] t[j]) {
                        lemma_digits_value_prefix(t, i + 1);
                    }
                }
                return None;
            },
            Some(m) => match m.checked_add(d) {
                None => {
                    proof {
                        if forall|j: int| 0 <= j < t.len() ==> is_digit(#[trigger] t[j]) {
                            lemma_digits_value_prefix(t, i + 1);
                        }
                    }
                    return None;
                },
                Some(v) => {
                    acc = v;
                },
            },
        }
    }
    assert(t.take(n as int) =~= t);
    Some(acc)
}


/// The message for an invalid vertex id `text[s..e)`.
fn invalid_id_message(input: &str, s: usize, e: usize) -> (m: String)
    requires
        input.is_ascii(),
        s <= e <= input@.len(),
    ensures
        m@ == msg_invalid_id(input@.subrange(s as int, e as int)),
{
    let mut m = String::from_str("invalid vertex id `");
    m.append(input.substring_ascii(s, e));
    m.append("`");
    m
}

/// Reads the vertex id in `text[s..e)`.
fn id_at(input: &str, s: usize, e: usize) -> (r: Option<u64>)
    requires
        input.is_ascii(),
        s <= e <= input@.len(),
    ensures
        r == vertex_id(input@.subrange(s as int, e as int)),
{
    parse_id(input.substring_ascii(s, e))
}

/// What the line `text[a..b)` declares, or the message saying why it is malformed.
fn read_record(input: &str, bytes: &[u8], a: usize, b: usize) -> (r: Result<
    Option<Declaration>,
    String,
>)
    requires
        input.is_ascii(),
        encodes(bytes@, input@),
        a <= b <= input@.len(),
    ensures
        match r {
            Ok(d) => line_record(input@, a as int, b as int) == Ok::<Option<Declaration>, Seq<char>>(d),
            Err(m) => line_record(input@, a as int, b as int) == Err::<Option<Declaration>, Seq<char>>(m@),
        },
{
    let ghost text = input@;
    let ws = line_words(bytes, a, b, Ghost(text));
    let ghost sw = words(text, a as int, b as int);
    proof {
        lemma_words(text, a as int, b as int);
    }
    if ws.len() == 0 {
        return Ok(None);
    }
    let (s0, e0) = ws[0];
    assert(sw[0] == (s0 as int, e0 as int));
    assert('\0' <= text[s0 as int] <= '\u{7f}');
    if bytes[s0] == 35 {
        return Ok(None);
    }
    let is_v = e0 - s0 == 1 && bytes[s0] == 118;
    let is_f = e0 - s0 == 1 && bytes[s0] == 102;
    proof {
        let w0 = word(text, sw[0]);
        if is_v {
            assert(w0 =~= seq!['v']);
        }
        if is_f {
            assert(w0 =~= seq!['f']);
        }
        if w0 == seq!['v'] || w0 == seq!['f'] {
            assert(w0.len() == 1);
            assert(w0[0] == text[s0 as int]);
        }
    }
    if is_v {
        if ws.len() != 2 {
            let mut m = String::from_str("vertex line expects exactly 2 fields, got ");
            push_decimal(&mut m, ws.len() as u64);
            return Err(m);
        }
        let (s1, e1) = ws[1];
        assert(sw[1] == (s1 as int, e1 as int));
        match id_at(input, s1, e1) {
            None => {
                return Err(invalid_id_message(input, s1, e1));
            },
            Some(id) => {
                return Ok(Some(Declaration::Vertex(id)));
            },
        }
    } else if is_f {
        if ws.len() != 4 {
            let mut m = String::from_str("face line expects exactly 4 fields, got ");
            push_decimal(&mut m, ws.len() as u64);
            return Err(m);
        }
        let (s1, e1) = ws[1];
        let (s2, e2) = ws[2];
        let (s3, e3) = ws[3];
        assert(sw[1] == (s1 as int, e1 as int));
        assert(sw[2] == (s2 as int, e2 as int));
        assert(sw[3] == (s3 as int, e3 as int));
        let x = match id_at(input, s1, e1) {
            None => {
                return Err(invalid_id_message(input, s1, e1));
            },
            Some(v) => v,
        };
        let y = match id_at(input, s2, e2) {
            None => {
                return Err(invalid_id_message(input, s2, e2));
            },
            Some(v) => v,
        };
        let z = match id_at(input, s3, e3) {
            None => {
                return Err(invalid_id_message(input, s3, e3));
            },
            Some(v) => v,
        };
        if x == y || y == z || x == z {
            return Err(String::from_str("face vertices must be pairwise distinct"));
        }
        return Ok(Some(Declaration::Face(x, y, z)));
    } else {
        let mut m = String::from_str("unknown directive `");
        m.append(input.substring_ascii(s0, e0));
        m.append("`");
        return Err(m);
    }
}


/// The face `t` has the vertex set `{x, y, z}`.
fn same_face(t: [u64; 3], x: u64, y: u64, z: u64) -> (r: bool)
    ensures
        r == same_vertex_set((t[0], t[1], t[2]), (x, y, z)),
{
    let a = t[0];
    let b = t[1];
    let c = t[2];
    (x == a || x == b || x == c) && (y == a || y == b || y == c) && (z == a || z == b || z == c)
        && (a == x || a == y || a == z) && (b == x || b == y || b == z) && (c == x || c == y || c
        == z)
}

/// The ids of `v` in ascending order.
fn sort_ids(v: &Vec<u64>) -> (r: Vec<u64>)
    requires
        v@.no_duplicates(),
    ensures
        strictly_increasing(r@),
        r@.len() == v@.len(),
        forall|x: u64| r@.contains(x) <==> v@.contains(x),
{
    let mut r: Vec<u64> = Vec::new();
    let n = v.len();
    for i in 0..n
        invariant
            n == v@.len(),
            v@.no_duplicates(),
            strictly_increasing(r@),
            r@.len() == i,
            forall|x: u64| r@.contains(x) <==> exists|j: int| 0 <= j < i && #[trigger] v@[j] == x,
    {
        let x = v[i];
        assert(!r@.contains(x)) by {
            if r@.contains(x) {
                let j = choose|j: int| 0 <= j < i && #[trigger] v@[j] == x;
                assert(v@[j] == v@[i as int]);
            }
        }
        let mut pos: usize = 0;
        while pos < r.len() && r[pos] < x
            invariant
                pos <= r@.len(),
                strictly_increasing(r@),
                forall|j: int| 0 <= j < pos ==> r@[j] < x,
            decreases r@.len() - pos,
        {
            pos = pos + 1;
        }
        assert(pos < r@.len() ==> r@[pos as int] > x) by {
            if pos < r@.len() {
                assert(r@[pos as int] != x);
            }
        }
        let ghost old_r = r@;
        r.insert(pos, x);
        assert forall|a: int, b: int| 0 <= a < b < r@.len() implies r@[a] < r@[b] by {
            if b < pos {
            } else if a < pos && b == pos {
            } else if a < pos {
                assert(r@[b] == old_r[b - 1]);
                assert(old_r[a] < old_r[b - 1] || a == b - 1);
            } else if a == pos {
                assert(r@[b] == old_r[b - 1]);
                assert(old_r[pos as int] <= old_r[b - 1]);
            } else {
                assert(r@[a] == old_r[a - 1] && r@[b] == old_r[b - 1]);
            }
        }
        assert forall|y: u64| r@.contains(y) <==> exists|j: int| 0 <= j < i + 1 && #[trigger] v@[j] == y by {
            if r@.contains(y) {
                let j = choose|j: int| 0 <= j < r@.len() && r@[j] == y;
                if y != x {
                    if j < pos {
                        assert(old_r[j] == y);
                    } else {
                        assert(old_r[j - 1] == y);
                    }
                    assert(old_r.contains(y));
                    let j2 = choose|j2: int| 0 <= j2 < i && #[trigger] v@[j2] == y;
                    assert(0 <= j2 < i + 1);
                } else {
                    assert(v@[i as int] == y);
                }
            }
            if exists|j: int| 0 <= j < i + 1 && #[trigger] v@[j] == y {
                let j = choose|j: int| 0 <= j < i + 1 && #[trigger] v@[j] == y;
                if j < i {
                    assert(old_r.contains(y));
                    let j2 = choose|j2: int| 0 <= j2 < old_r.len() && old_r[j2] == y;
                    if j2 < pos {
                        assert(r@[j2] == y);
                    } else {
                        assert(r@[j2 + 1] == y);
                    }
                } else {
                    assert(r@[pos as int] == y);
                }
            }
        }
    }
    assert forall|x: u64| v@.contains(x) implies r@.contains(x) by {
        let j = choose|j: int| 0 <= j < n && v@[j] == x;
        assert(exists|j2: int| 0 <= j2 < n && #[trigger] v@[j2] == x);
    }
    r
}


/// Reads the lines of an ASCII text in order: the error of the first
/// rejected line, or every vertex and face that the lines declare.
fn read_declarations(input: &str) -> (r: Result<(Vec<u64>, HashSet<u64>, Vec<[u64; 3]>), ParseError>)
    requires
        input.is_ascii(),
    ensures
        match r {
            Ok((vertices, vertex_set, faces)) => {
                &&& forall|j: int|
                    0 <= j < lines(input@).len() ==> #[trigger] line_error(input@, j) is None
                &&& vertices@ == declared_vertices(input@, lines(input@).len() as int)
                &&& vertices@.no_duplicates()
                &&& forall|x: u64| vertex_set@.contains(x) <==> vertices@.contains(x)
                &&& face_triples(faces@) == declared_faces(input@, lines(input@).len() as int)
            },
            Err(e) => read_outcome(input@) == Err::<(Seq<u64>, Seq<(u64, u64, u64)>), (nat, Seq<char>)>(
                (e.line as nat, e.message@),
            ),
        },
{
    let ghost text = input@;
    let bytes = input.as_bytes();
    proof {
        vstd::string::is_ascii_spec_bytes(input);
        assert(encodes(bytes@, text));
    }
    let n = bytes.len();
    let mut vertices: Vec<u64> = Vec::new();
    let mut vertex_set: HashSet<u64> = HashSet::new();
    let mut faces: Vec<[u64; 3]> = Vec::new();
    let mut i: usize = 0;
    let mut seen: usize = 0;
    let ghost mut done: Seq<(int, int)> = seq![];
    proof {
        assert(face_triples(faces@) =~= seq![]);
    }
    while i < n
        invariant
            text == input@,
            input.is_ascii(),
            encodes(bytes@, text),
            n == text.len(),
            i <= n,
            seen == done.len(),
            seen <= i,
            lines(text) == done + lines_from(text, i as int),
            vertices@ == declared_vertices(text, done.len() as int),
            vertices@.no_duplicates(),
            forall|x: u64| vertex_set@.contains(x) <==> vertices@.contains(x),
            face_triples(faces@) == declared_faces(text, done.len() as int),
            forall|j: int| 0 <= j < done.len() ==> #[trigger] line_error(text, j) is None,
        decreases n - i,
    {
        let e = find_line_end(bytes, i, Ghost(text));
        let ghost k = done.len() as int;
        proof {
            lemma_line_end(text, i as int);
            assert(lines_from(text, i as int) == seq![(i as int, e as int)] + lines_from(
                text,
                e + 1,
            ));
            assert(lines(text)[k] == (i as int, e as int)) by {
                assert((done + lines_from(text, i as int))[k] == lines_from(text, i as int)[0]);
            }
            assert(k < lines(text).len());
        }
        let rec = read_record(input, bytes, i, e);
        assert(record_at(text, k) == line_record(text, i as int, e as int));
        match rec {
            Err(m) => {
                proof {
                    lemma_outcome_line_error(text, k);
                }
                return Err(err(seen + 1, m));
            },
            Ok(None) => {},
            Ok(Some(Declaration::Vertex(id))) => {
                if vertex_set.contains(&id) {
                    let mut m = String::from_str("duplicate vertex id ");
                    push_decimal(&mut m, id);
                    proof {
                        lemma_outcome_line_error(text, k);
                    }
                    return Err(err(seen + 1, m));
                }
                let ghost old_vs = vertices@;
                vertex_set.insert(id);
                vertices.push(id);
                proof {
                    assert forall|x: u64| vertex_set@.contains(x) <==> vertices@.contains(x) by {
                        if x == id {
                            assert(vertices@[vertices@.len() - 1] == id);
                        } else if old_vs.contains(x) {
                            let j = choose|j: int| 0 <= j < old_vs.len() && old_vs[j] == x;
                            assert(vertices@[j] == x);
                        } else if vertices@.contains(x) {
                            let j = choose|j: int| 0 <= j < vertices@.len() && vertices@[j] == x;
                            assert(old_vs[j] == x);
                        }
                    }
                    assert(!old_vs.contains(id));
                    assert forall|a: int, b: int|
                        0 <= a < vertices@.len() && 0 <= b < vertices@.len() && a != b implies vertices@[a]
                        != vertices@[b] by {
                        if b == old_vs.len() {
                            assert(old_vs[a] == vertices@[a]);
                        } else if a == old_vs.len() {
                            assert(old_vs[b] == vertices@[b]);
                        }
                    }
                }
            },
            Ok(Some(Declaration::Face(x, y, z))) => {
                let mut dup = false;
                let nf = faces.len();
                for j in 0..nf
                    invariant
                        nf == faces@.len(),
                        face_triples(faces@) == declared_faces(text, k),
                        dup <==> exists|jj: int|
                            0 <= jj < j && same_vertex_set(
                                #[trigger] declared_faces(text, k)[jj],
                                (x, y, z),
                            ),
                {
                    let same = same_face(faces[j], x, y, z);
                    assert(declared_faces(text, k)[j as int] == (
                        faces@[j as int][0],
                        faces@[j as int][1],
                        faces@[j as int][2],
                    ));
                    if same {
                        dup = true;
                    }
                }
                if dup {
                    let mut m = String::from_str("duplicate undirected face (");
                    push_decimal(&mut m, x);
                    m.append(", ");
                    push_decimal(&mut m, y);
                    m.append(", ");
                    push_decimal(&mut m, z);
                    m.append(")");
                    proof {
                        lemma_outcome_line_error(text, k);
                    }
                    return Err(err(seen + 1, m));
                }
                faces.push([x, y, z]);
                proof {
                    assert(face_triples(faces@) =~= declared_faces(text, k).push((x, y, z)));
                }
            },
        }
        proof {
            assert(line_error(text, k) is None);
            let ghost old_done = done;
            done = done.push((i as int, e as int));
            assert(lines(text) =~= done + lines_from(text, e + 1));
            if e == n {
                assert(lines_from(text, e + 1) =~= seq![]);
                assert(lines_from(text, n as int) =~= seq![]);
            }
            assert forall|j: int| 0 <= j < done.len() implies #[trigger] line_error(text, j) is None by {
                if j < k {
                    assert(old_done.len() == k);
                }
            }
        }
        seen = seen + 1;
        if e < n {
            i = e + 1;
        } else {
            i = n;
        }
    }
    proof {
        assert(lines_from(text, i as int) =~= seq![]);
        assert(lines(text) =~= done);
    }
    Ok((vertices, vertex_set, faces))
}

/// The first corner (by face, then corner) of `faces` that is not in
/// `vertex_set`, if any.
fn first_unknown_corner(
    vertex_set: &HashSet<u64>,
    faces: &Vec<[u64; 3]>,
    Ghost(vs): Ghost<Seq<u64>>,
) -> (r: Option<(usize, usize)>)
    requires
        forall|x: u64| vertex_set@.contains(x) <==> vs.contains(x),
    ensures
        match r {
            Some((f, c)) => {
                &&& unknown_corner(vs, face_triples(faces@), f as int, c as int)
                &&& forall|f2: int, c2: int|
                    #[trigger] unknown_corner(vs, face_triples(faces@), f2, c2) ==> f < f2 || (f
                        == f2 && c <= c2)
            },
            None => forall|f2: int, c2: int| !#[trigger] unknown_corner(vs, face_triples(faces@), f2, c2),
        },
{
    let ghost fs = face_triples(faces@);
    let nf = faces.len();
    for f in 0..nf
        invariant
            nf == faces@.len(),
            fs == face_triples(faces@),
            forall|x: u64| vertex_set@.contains(x) <==> vs.contains(x),
            forall|f2: int, c2: int| 0 <= f2 < f ==> !#[trigger] unknown_corner(vs, fs, f2, c2),
    {
        for c in 0..3usize
            invariant
                nf == faces@.len(),
                fs == face_triples(faces@),
                f < nf,
                forall|x: u64| vertex_set@.contains(x) <==> vs.contains(x),
                forall|f2: int, c2: int| 0 <= f2 < f ==> !#[trigger] unknown_corner(vs, fs, f2, c2),
                forall|c2: int| 0 <= c2 < c ==> !#[trigger] unknown_corner(vs, fs, f as int, c2),
        {
            let v = faces[f][c];
            assert(corner(fs[f as int], c as int) == v);
            if !vertex_set.contains(&v) {
                proof {
                    assert(unknown_corner(vs, fs, f as int, c as int));
                    assert forall|f2: int, c2: int|
                        #[trigger] unknown_corner(vs, fs, f2, c2) implies f < f2 || (f == f2 && c
                        <= c2) by {
                        if f2 < f {
                        } else if f2 == f && c2 < c {
                        }
                    }
                }
                return Some((f, c));
            }
        }
    }
    proof {
        assert forall|f2: int, c2: int| !#[trigger] unknown_corner(vs, fs, f2, c2) by {
            if 0 <= f2 < nf && 0 <= c2 < 3 {
            }
        }
    }
    None
}

/// `r` is what parsing `text` gives: the mesh that the text declares, with
/// the vertex ids in ascending order and the faces in declaration order, or
/// the first reason to reject the text (see `read_outcome` for the rules and
/// their order).
pub open spec fn parse_outcome(text: Seq<char>, r: Result<Mesh, ParseError>) -> bool {
    match r {
        Ok(m) => {
            &&& read_outcome(text) matches Ok((vs, fs))
            &&& strictly_increasing(m.vertices@)
            &&& m.vertices@.len() == vs.len()
            &&& forall|x: u64| m.vertices@.contains(x) <==> vs.contains(x)
            &&& face_triples(m.faces@) == fs
            &&& m.well_formed()
            &&& m.faces_nondegenerate()
            &&& MIN_VERTICES <= m.vertices@.len() <= MAX_VERTICES
            &&& MIN_FACES <= m.faces@.len() <= MAX_FACES
            &&& m.within_allocation_limit()
        },
        Err(e) => read_outcome(text) == Err::<(Seq<u64>, Seq<(u64, u64, u64)>), (nat, Seq<char>)>(
            (e.line as nat, e.message@),
        ),
    }
}

/// Parses the whole input text: the mesh it declares, or the first reason to
/// reject it (see `read_outcome` for the rules and their order). The vertex
/// ids of the mesh come in ascending order; the faces in declaration order.
pub fn parse(input: &str) -> (r: Result<Mesh, ParseError>)
    ensures
        parse_outcome(input@, r),
{
    if !input.is_ascii() {
        return Err(err(0, String::from_str("input must be pure ASCII")));
    }
    let ghost text = input@;
    let (vertices, vertex_set, faces) = match read_declarations(input) {
        Ok(d) => d,
        Err(e) => {
            return Err(e);
        },
    };
    let ghost nl = lines(text).len() as int;
    let nv = vertices.len();
    if nv < MIN_VERTICES || nv > MAX_VERTICES {
        let mut m = String::from_str("vertex count ");
        push_decimal(&mut m, nv as u64);
        m.append(" out of range ");
        push_decimal(&mut m, MIN_VERTICES as u64);
        m.append("..=");
        push_decimal(&mut m, MAX_VERTICES as u64);
        return Err(err(0, m));
    }
    let nf = faces.len();
    if nf < MIN_FACES || nf > MAX_FACES {
        let mut m = String::from_str("face count ");
        push_decimal(&mut m, nf as u64);
        m.append(" out of range ");
        push_decimal(&mut m, MIN_FACES as u64);
        m.append("..=");
        push_decimal(&mut m, MAX_FACES as u64);
        return Err(err(0, m));
    }
    let ghost vs = declared_vertices(text, nl);
    let ghost fs = declared_faces(text, nl);
    if let Some((f, c)) = first_unknown_corner(&vertex_set, &faces, Ghost(vs)) {
        let v = faces[f][c];
        assert(corner(fs[f as int], c as int) == v);
        let mut m = String::from_str("face ");
        push_decimal(&mut m, (f + 1) as u64);
        m.append(" references unknown vertex id ");
        push_decimal(&mut m, v);
        proof {
            lemma_outcome_unknown_corner(text, f as int, c as int);
        }
        return Err(err(0, m));
    }
    let sorted = sort_ids(&vertices);
    proof {
        lemma_declared_faces_distinct(text, nl);
        assert forall|f2: int| 0 <= f2 < faces@.len() implies {
            &&& #[trigger] faces@[f2][0] != faces@[f2][1]
            &&& faces@[f2][1] != faces@[f2][2]
            &&& faces@[f2][0] != faces@[f2][2]
        } by {
            assert(fs[f2] == (faces@[f2][0], faces@[f2][1], faces@[f2][2]));
        }
        assert forall|f2: int, k2: int|
            0 <= f2 < faces@.len() && 0 <= k2 < 3 implies sorted@.contains(#[trigger] faces@[f2][k2]) by {
            assert(!unknown_corner(vs, fs, f2, k2));
            assert(corner(fs[f2], k2) == faces@[f2][k2]);
        }
    }
    Ok(Mesh { vertices: sorted, faces })
}

} // verus!
