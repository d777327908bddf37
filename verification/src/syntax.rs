//! The text format, stated over the characters of the input.
//!
//! A text is split into lines at line feeds; each line into words, the
//! maximal runs of non-blank characters. A line without words, or whose first
//! word starts with `#`, declares nothing. Otherwise the first word names the
//! record: `v <id>` declares a vertex, `f <a> <b> <c>` an oriented face.

use vstd::prelude::*;
use vstd::utf8::is_ascii_chars;

use crate::decimal::decimal;

verus! {

/// What a line of the text declares.
#[derive(Debug, Clone, Copy, PartialEq, Eq)]
pub enum Declaration {
    Vertex(u64),
    Face(u64, u64, u64),
}

/// The blank characters: those that `char::is_whitespace` accepts in ASCII
/// (tab, line feed, vertical tab, form feed, carriage return, space).
pub open spec fn is_blank(c: char) -> bool {
    c == ' ' || c == '\t' || c == '\n' || c == '\x0B' || c == '\x0C' || c == '\r'
}

pub open spec fn is_digit(c: char) -> bool {
    '0' <= c <= '9'
}

// ---------------------------------------------------------------------------
// Lines and words

/// The first position at or after `i` that holds a line feed, or the end of the text.
pub open spec fn line_end(text: Seq<char>, i: int) -> int
    decreases text.len() - i,
{
    if i >= text.len() {
        text.len() as int
    } else if text[i] == '\n' {
        i
    } else {
        line_end(text, i + 1)
    }
}

pub proof fn lemma_line_end(text: Seq<char>, i: int)
    requires
        0 <= i <= text.len(),
    ensures
        i <= line_end(text, i) <= text.len(),
        line_end(text, i) < text.len() ==> text[line_end(text, i)] == '\n',
        forall|j: int| i <= j < line_end(text, i) ==> text[j] != '\n',
    decreases text.len() - i,
{
    if i < text.len() && text[i] != '\n' {
        lemma_line_end(text, i + 1);
    }
}

/// The lines of the text that begin at or after position `i`, as `[start, end)`
/// ranges that exclude the line feed. A line feed at the very end of the text
/// does not open another line.
pub open spec fn lines_from(text: Seq<char>, i: int) -> Seq<(int, int)>
    decreases text.len() + 1 - i,
{
    if i < 0 || i >= text.len() {
        seq![]
    } else {
        let e = line_end(text, i);
        proof {
            lemma_line_end(text, i);
        }
        seq![(i, e)] + lines_from(text, e + 1)
    }
}

/// The lines of the text, in order.
pub open spec fn lines(text: Seq<char>) -> Seq<(int, int)> {
    lines_from(text, 0)
}

/// The first position in `[i, end)` that is not blank, or `end`.
pub open spec fn skip_blank(text: Seq<char>, i: int, end: int) -> int
    decreases end - i,
{
    if i >= end {
        end
    } else if is_blank(text[i]) {
        skip_blank(text, i + 1, end)
    } else {
        i
    }
}

/// The first position in `[i, end)` that is blank, or `end`.
pub open spec fn word_end(text: Seq<char>, i: int, end: int) -> int
    decreases end - i,
{
    if i >= end {
        end
    } else if is_blank(text[i]) {
        i
    } else {
        word_end(text, i + 1, end)
    }
}

pub proof fn lemma_skip_blank(text: Seq<char>, i: int, end: int)
    requires
        i <= end,
    ensures
        i <= skip_blank(text, i, end) <= end,
        skip_blank(text, i, end) < end ==> !is_blank(text[skip_blank(text, i, end)]),
        forall|j: int| i <= j < skip_blank(text, i, end) ==> is_blank(#[trigger] text[j]),
    decreases end - i,
{
    if i < end && is_blank(text[i]) {
        lemma_skip_blank(text, i + 1, end);
    }
}

pub proof fn lemma_word_end(text: Seq<char>, i: int, end: int)
    requires
        i <= end,
    ensures
        i <= word_end(text, i, end) <= end,
        word_end(text, i, end) < end ==> is_blank(text[word_end(text, i, end)]),
        forall|j: int| i <= j < word_end(text, i, end) ==> !is_blank(#[trigger] text[j]),
    decreases end - i,
{
    if i < end && !is_blank(text[i]) {
        lemma_word_end(text, i + 1, end);
    }
}

/// The words of `text[i..end)`: maximal runs of non-blank characters, as ranges.
pub open spec fn words(text: Seq<char>, i: int, end: int) -> Seq<(int, int)>
    decreases end - i,
{
    if i >= end {
        seq![]
    } else {
        let a = skip_blank(text, i, end);
        proof {
            lemma_skip_blank(text, i, end);
        }
        if a >= end {
            seq![]
        } else {
            let b = word_end(text, a, end);
            proof {
                lemma_word_end(text, a + 1, end);
            }
            seq![(a, b)] + words(text, b, end)
        }
    }
}

/// Every word lies inside `[i, end)`, is non-empty and holds no blank.
pub proof fn lemma_words(text: Seq<char>, i: int, end: int)
    requires
        0 <= i,
        end <= text.len(),
    ensures
        forall|j: int|
            0 <= j < words(text, i, end).len() ==> i <= (#[trigger] words(text, i, end)[j]).0 < words(
                text,
                i,
                end,
            )[j].1 <= end,
        forall|j: int|
            0 <= j < words(text, i, end).len() ==> !is_blank(
                text[(#[trigger] words(text, i, end)[j]).0],
            ),
    decreases end - i,
{
    if i < end {
        let a = skip_blank(text, i, end);
        lemma_skip_blank(text, i, end);
        if a < end {
            let b = word_end(text, a, end);
            lemma_word_end(text, a, end);
            lemma_word_end(text, a + 1, end);
            lemma_words(text, b, end);
            let ws = words(text, i, end);
            let rest = words(text, b, end);
            assert(ws == seq![(a, b)] + rest);
            assert forall|j: int| 0 <= j < ws.len() implies i <= (#[trigger] ws[j]).0 < ws[j].1 <= end
                && !is_blank(text[ws[j].0]) by {
                if j > 0 {
                    assert(ws[j] == rest[j - 1]);
                }
            }
        }
    }
}

/// The characters of range `w`.
pub open spec fn word(text: Seq<char>, w: (int, int)) -> Seq<char> {
    text.subrange(w.0, w.1)
}

// ---------------------------------------------------------------------------
// Vertex ids

/// The value of a string of decimal digits.
pub open spec fn digits_value(t: Seq<char>) -> nat
    decreases t.len(),
{
    if t.len() == 0 {
        0
    } else {
        digits_value(t.drop_last()) * 10 + (t.last() as int - 48) as nat
    }
}

/// A vertex id: a non-empty string of decimal digits whose value fits in 64 bits.
pub open spec fn vertex_id(t: Seq<char>) -> Option<u64> {
    if t.len() > 0 && (forall|i: int| 0 <= i < t.len() ==> is_digit(#[trigger] t[i]))
        && digits_value(t) <= u64::MAX {
        Some(digits_value(t) as u64)
    } else {
        None
    }
}

/// The value of a prefix of a digit string is at most the value of the string.
pub proof fn lemma_digits_value_prefix(t: Seq<char>, j: int)
    requires
        0 <= j <= t.len(),
        forall|i: int| 0 <= i < t.len() ==> is_digit(#[trigger] t[i]),
    ensures
        digits_value(t.take(j)) <= digits_value(t),
    decreases t.len(),
{
    if j < t.len() {
        let p = t.drop_last();
        assert forall|i: int| 0 <= i < p.len() implies is_digit(#[trigger] p[i]) by {
            assert(p[i] == t[i]);
        }
        lemma_digits_value_prefix(p, j);
        assert(p.take(j) =~= t.take(j));
    } else {
        assert(t.take(j) =~= t);
    }
}

// ---------------------------------------------------------------------------
// Messages

pub open spec fn msg_non_ascii() -> Seq<char> {
    "input must be pure ASCII"@
}

pub open spec fn msg_vertex_arity(n: nat) -> Seq<char> {
    "vertex line expects exactly 2 fields, got "@ + decimal(n)
}

pub open spec fn msg_face_arity(n: nat) -> Seq<char> {
    "face line expects exactly 4 fields, got "@ + decimal(n)
}

pub open spec fn msg_invalid_id(t: Seq<char>) -> Seq<char> {
    "invalid vertex id `"@ + t + "`"@
}

pub open spec fn msg_not_distinct() -> Seq<char> {
    "face vertices must be pairwise distinct"@
}

pub open spec fn msg_unknown_directive(t: Seq<char>) -> Seq<char> {
    "unknown directive `"@ + t + "`"@
}

pub open spec fn msg_duplicate_vertex(id: u64) -> Seq<char> {
    "duplicate vertex id "@ + decimal(id as nat)
}

pub open spec fn msg_duplicate_face(a: u64, b: u64, c: u64) -> Seq<char> {
    "duplicate undirected face ("@ + decimal(a as nat) + ", "@ + decimal(b as nat) + ", "@
        + decimal(c as nat) + ")"@
}

pub open spec fn msg_vertex_count(n: nat) -> Seq<char> {
    "vertex count "@ + decimal(n) + " out of range "@ + decimal(4) + "..="@ + decimal(500)
}

pub open spec fn msg_face_count(n: nat) -> Seq<char> {
    "face count "@ + decimal(n) + " out of range "@ + decimal(4) + "..="@ + decimal(2000)
}

pub open spec fn msg_unknown_vertex(f: nat, v: u64) -> Seq<char> {
    "face "@ + decimal(f + 1) + " references unknown vertex id "@ + decimal(v as nat)
}

// ---------------------------------------------------------------------------
// Records

/// What the line `text[a..b)` declares, or why it is malformed.
pub open spec fn line_record(text: Seq<char>, a: int, b: int) -> Result<
    Option<Declaration>,
    Seq<char>,
> {
    let ws = words(text, a, b);
    if ws.len() == 0 || text[ws[0].0] == '#' {
        Ok(None)
    } else if word(text, ws[0]) == seq!['v'] {
        if ws.len() != 2 {
            Err(msg_vertex_arity(ws.len()))
        } else {
            match vertex_id(word(text, ws[1])) {
                None => Err(msg_invalid_id(word(text, ws[1]))),
                Some(id) => Ok(Some(Declaration::Vertex(id))),
            }
        }
    } else if word(text, ws[0]) == seq!['f'] {
        if ws.len() != 4 {
            Err(msg_face_arity(ws.len()))
        } else if vertex_id(word(text, ws[1])) is None {
            Err(msg_invalid_id(word(text, ws[1])))
        } else if vertex_id(word(text, ws[2])) is None {
            Err(msg_invalid_id(word(text, ws[2])))
        } else if vertex_id(word(text, ws[3])) is None {
            Err(msg_invalid_id(word(text, ws[3])))
        } else {
            let x = vertex_id(word(text, ws[1]))->0;
            let y = vertex_id(word(text, ws[2]))->0;
            let z = vertex_id(word(text, ws[3]))->0;
            if x == y || y == z || x == z {
                Err(msg_not_distinct())
            } else {
                Ok(Some(Declaration::Face(x, y, z)))
            }
        }
    } else {
        Err(msg_unknown_directive(word(text, ws[0])))
    }
}

/// What line `k` declares, or why it is malformed.
pub open spec fn record_at(text: Seq<char>, k: int) -> Result<Option<Declaration>, Seq<char>> {
    line_record(text, lines(text)[k].0, lines(text)[k].1)
}

/// The vertex ids declared on the first `n` lines, in order.
pub open spec fn declared_vertices(text: Seq<char>, n: int) -> Seq<u64>
    decreases n,
{
    if n <= 0 {
        seq![]
    } else {
        let prev = declared_vertices(text, n - 1);
        match record_at(text, n - 1) {
            Ok(Some(Declaration::Vertex(id))) => prev.push(id),
            _ => prev,
        }
    }
}

/// The faces declared on the first `n` lines, in order.
pub open spec fn declared_faces(text: Seq<char>, n: int) -> Seq<(u64, u64, u64)>
    decreases n,
{
    if n <= 0 {
        seq![]
    } else {
        let prev = declared_faces(text, n - 1);
        match record_at(text, n - 1) {
            Ok(Some(Declaration::Face(a, b, c))) => prev.push((a, b, c)),
            _ => prev,
        }
    }
}

/// Every declared face has three distinct vertices.
pub proof fn lemma_declared_faces_distinct(text: Seq<char>, n: int)
    ensures
        forall|f: int|
            0 <= f < declared_faces(text, n).len() ==> {
                let t = #[trigger] declared_faces(text, n)[f];
                t.0 != t.1 && t.1 != t.2 && t.0 != t.2
            },
    decreases n,
{
    if n > 0 {
        lemma_declared_faces_distinct(text, n - 1);
        let prev = declared_faces(text, n - 1);
        match record_at(text, n - 1) {
            Ok(Some(Declaration::Face(a, b, c))) => {
                assert(a != b && b != c && a != c);
                assert forall|f: int| 0 <= f < declared_faces(text, n).len() implies {
                    let t = #[trigger] declared_faces(text, n)[f];
                    t.0 != t.1 && t.1 != t.2 && t.0 != t.2
                } by {
                    if f < prev.len() {
                        assert(declared_faces(text, n)[f] == prev[f]);
                    }
                }
            },
            _ => {
                assert(declared_faces(text, n) == prev);
            },
        }
    }
}

/// Two triangles over the same three vertices, whatever their order.
pub open spec fn same_vertex_set(t: (u64, u64, u64), u: (u64, u64, u64)) -> bool {
    &&& (u.0 == t.0 || u.0 == t.1 || u.0 == t.2)
    &&& (u.1 == t.0 || u.1 == t.1 || u.1 == t.2)
    &&& (u.2 == t.0 || u.2 == t.1 || u.2 == t.2)
    &&& (t.0 == u.0 || t.0 == u.1 || t.0 == u.2)
    &&& (t.1 == u.0 || t.1 == u.1 || t.1 == u.2)
    &&& (t.2 == u.0 || t.2 == u.1 || t.2 == u.2)
}

/// Why line `k` is rejected, if it is: it is malformed, or it declares again a
/// vertex id or an undirected face that an earlier line declared.
pub open spec fn line_error(text: Seq<char>, k: int) -> Option<Seq<char>> {
    match record_at(text, k) {
        Err(m) => Some(m),
        Ok(None) => None,
        Ok(Some(Declaration::Vertex(id))) => if declared_vertices(text, k).contains(id) {
            Some(msg_duplicate_vertex(id))
        } else {
            None
        },
        Ok(Some(Declaration::Face(a, b, c))) => if exists|j: int|
            0 <= j < declared_faces(text, k).len() && same_vertex_set(
                #[trigger] declared_faces(text, k)[j],
                (a, b, c),
            ) {
            Some(msg_duplicate_face(a, b, c))
        } else {
            None
        },
    }
}

/// Corner `k` of a triangle.
pub open spec fn corner(t: (u64, u64, u64), k: int) -> u64 {
    if k == 0 {
        t.0
    } else if k == 1 {
        t.1
    } else {
        t.2
    }
}

/// Corner `k` of face `f` is not a declared vertex.
pub open spec fn unknown_corner(vs: Seq<u64>, fs: Seq<(u64, u64, u64)>, f: int, k: int) -> bool {
    0 <= f < fs.len() && 0 <= k < 3 && !vs.contains(corner(fs[f], k))
}

/// The outcome of reading `text`: the vertex ids and the faces in declaration
/// order, or the line number (1-based; 0 for a fault of the whole text) and
/// the message of the first fault. Faults are checked in this order: non-ASCII
/// content; the first rejected line; the number of vertices; the number of
/// faces; the first face corner (by face, then corner) that names an
/// undeclared vertex.
pub open spec fn read_outcome(text: Seq<char>) -> Result<
    (Seq<u64>, Seq<(u64, u64, u64)>),
    (nat, Seq<char>),
> {
    let n = lines(text).len() as int;
    if !is_ascii_chars(text) {
        Err((0, msg_non_ascii()))
    } else if exists|k: int| 0 <= k < n && #[trigger] line_error(text, k) is Some {
        let k = choose|k: int|
            0 <= k < n && #[trigger] line_error(text, k) is Some && forall|j: int|
                0 <= j < k ==> #[trigger] line_error(text, j) is None;
        Err(((k + 1) as nat, line_error(text, k)->0))
    } else {
        let vs = declared_vertices(text, n);
        let fs = declared_faces(text, n);
        if vs.len() < 4 || vs.len() > 500 {
            Err((0, msg_vertex_count(vs.len())))
        } else if fs.len() < 4 || fs.len() > 2000 {
            Err((0, msg_face_count(fs.len())))
        } else if exists|f: int, k: int| #[trigger] unknown_corner(vs, fs, f, k) {
            let (f, k) = choose|f: int, k: int|
                #[trigger] unknown_corner(vs, fs, f, k) && forall|f2: int, k2: int|
                    #[trigger] unknown_corner(vs, fs, f2, k2) ==> f < f2 || (f == f2 && k <= k2);
            Err((0, msg_unknown_vertex(f as nat, corner(fs[f], k))))
        } else {
            Ok((vs, fs))
        }
    }
}


/// The outcome names the first rejected line.
pub proof fn lemma_outcome_line_error(text: Seq<char>, k: int)
    requires
        is_ascii_chars(text),
        0 <= k < lines(text).len(),
        line_error(text, k) is Some,
        forall|j: int| 0 <= j < k ==> #[trigger] line_error(text, j) is None,
    ensures
        read_outcome(text) == Err::<(Seq<u64>, Seq<(u64, u64, u64)>), (nat, Seq<char>)>(
            ((k + 1) as nat, line_error(text, k)->0),
        ),
{
    let n = lines(text).len() as int;
    let k2 = choose|k2: int|
        0 <= k2 < n && #[trigger] line_error(text, k2) is Some && forall|j: int|
            0 <= j < k2 ==> #[trigger] line_error(text, j) is None;
    assert(0 <= k2 < n && line_error(text, k2) is Some);
    if k2 < k {
        assert(line_error(text, k2) is None);
    } else if k < k2 {
        assert(line_error(text, k) is None);
    }
}

/// The outcome names the first face corner that is not a declared vertex.
pub proof fn lemma_outcome_unknown_corner(text: Seq<char>, f: int, c: int)
    requires
        is_ascii_chars(text),
        forall|j: int| 0 <= j < lines(text).len() ==> #[trigger] line_error(text, j) is None,
        4 <= declared_vertices(text, lines(text).len() as int).len() <= 500,
        4 <= declared_faces(text, lines(text).len() as int).len() <= 2000,
        unknown_corner(
            declared_vertices(text, lines(text).len() as int),
            declared_faces(text, lines(text).len() as int),
            f,
            c,
        ),
        forall|f2: int, c2: int|
            #[trigger] unknown_corner(
                declared_vertices(text, lines(text).len() as int),
                declared_faces(text, lines(text).len() as int),
                f2,
                c2,
            ) ==> f < f2 || (f == f2 && c <= c2),
    ensures
        read_outcome(text) == Err::<(Seq<u64>, Seq<(u64, u64, u64)>), (nat, Seq<char>)>(
            (
                0,
                msg_unknown_vertex(
                    f as nat,
                    corner(declared_faces(text, lines(text).len() as int)[f], c),
                ),
            ),
        ),
{
    let n = lines(text).len() as int;
    let vs = declared_vertices(text, n);
    let fs = declared_faces(text, n);
    let (f2, c2) = choose|f2: int, c2: int|
        #[trigger] unknown_corner(vs, fs, f2, c2) && forall|f3: int, c3: int|
            #[trigger] unknown_corner(vs, fs, f3, c3) ==> f2 < f3 || (f2 == f3 && c2 <= c3);
    assert(unknown_corner(vs, fs, f2, c2));
    assert(f == f2 && c == c2);
}


/// A face written in any rotation or in reverse is the same undirected face:
/// declaring it again is rejected as a duplicate.
pub proof fn lemma_rotation_and_reversal_are_duplicates(t: (u64, u64, u64))
    ensures
        same_vertex_set(t, t),
        same_vertex_set(t, (t.1, t.2, t.0)),
        same_vertex_set(t, (t.2, t.0, t.1)),
        same_vertex_set(t, (t.2, t.1, t.0)),
        same_vertex_set(t, (t.0, t.2, t.1)),
        same_vertex_set(t, (t.1, t.0, t.2)),
{
}

} // verus!
