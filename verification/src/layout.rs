//! What reading a text does not depend on: blank and comment lines, the
//! blanks around words, and the order of the vertex lines.
//!
//! A line declares what its words say, wherever the line stands in the text
//! and however its words are spaced. The laws below relate two texts through
//! their lines: the characters of each line (`line_text`) and its words
//! (`tokens`).

use vstd::prelude::*;
use vstd::utf8::is_ascii_chars;

use crate::parse::{face_triples, parse_outcome, strictly_increasing, Mesh, ParseError};
use crate::syntax::{
    declared_faces, declared_vertices, digits_value, lemma_line_end, lemma_outcome_line_error,
    lemma_skip_blank, lemma_word_end, lemma_words, line_end, line_error, line_record, lines,
    lines_from, msg_face_arity, msg_invalid_id, msg_not_distinct, msg_unknown_directive,
    msg_vertex_arity, read_outcome, record_at, same_vertex_set, skip_blank, unknown_corner,
    vertex_id, word, word_end, words, Declaration,
};

verus! {

/// The characters of line `k` of `text`, without its line feed.
pub open spec fn line_text(text: Seq<char>, k: int) -> Seq<char> {
    text.subrange(lines(text)[k].0, lines(text)[k].1)
}

/// The words of a line, as strings.
pub open spec fn tokens(line: Seq<char>) -> Seq<Seq<char>> {
    words(line, 0, line.len() as int).map_values(|w: (int, int)| word(line, w))
}

/// What a line declares, taken alone.
pub open spec fn line_declares(line: Seq<char>) -> Result<
    Option<Declaration>,
    Seq<char>,
> {
    line_record(line, 0, line.len() as int)
}

proof fn lemma_lines_from_range(text: Seq<char>, i: int)
    requires
        0 <= i,
    ensures
        forall|k: int|
            0 <= k < lines_from(text, i).len() ==> i <= (#[trigger] lines_from(text, i)[k]).0
                <= lines_from(text, i)[k].1 <= text.len(),
    decreases text.len() + 1 - i,
{
    if i < text.len() {
        let e = line_end(text, i);
        lemma_line_end(text, i);
        lemma_lines_from_range(text, e + 1);
        let ls = lines_from(text, i);
        assert forall|k: int| 0 <= k < ls.len() implies i <= (#[trigger] ls[k]).0 <= ls[k].1
            <= text.len() by {
            if k > 0 {
                assert(ls[k] == lines_from(text, e + 1)[k - 1]);
            }
        }
    }
}

/// Every line lies within the text.
pub proof fn lemma_line_range(text: Seq<char>, k: int)
    requires
        0 <= k < lines(text).len(),
    ensures
        0 <= lines(text)[k].0 <= lines(text)[k].1 <= text.len(),
{
    lemma_lines_from_range(text, 0);
}

proof fn lemma_skip_shift(text: Seq<char>, a: int, i: int, b: int)
    requires
        0 <= a <= i <= b <= text.len(),
    ensures
        skip_blank(text, i, b) == skip_blank(text.subrange(a, b), i - a, b - a) + a,
        word_end(text, i, b) == word_end(text.subrange(a, b), i - a, b - a) + a,
    decreases b - i,
{
    if i < b {
        lemma_skip_shift(text, a, i + 1, b);
        assert(text.subrange(a, b)[i - a] == text[i]);
    }
}

proof fn lemma_words_shift(text: Seq<char>, a: int, i: int, b: int)
    requires
        0 <= a <= i <= b <= text.len(),
    ensures
        words(text, i, b).len() == words(text.subrange(a, b), i - a, b - a).len(),
        forall|j: int|
            0 <= j < words(text, i, b).len() ==> (#[trigger] words(text, i, b)[j]).0 == words(
                text.subrange(a, b),
                i - a,
                b - a,
            )[j].0 + a && words(text, i, b)[j].1 == words(text.subrange(a, b), i - a, b - a)[j].1
                + a,
    decreases b - i,
{
    let sub = text.subrange(a, b);
    if i < b {
        lemma_skip_shift(text, a, i, b);
        lemma_skip_blank(text, i, b);
        let s = skip_blank(text, i, b);
        if s < b {
            lemma_skip_shift(text, a, s, b);
            lemma_word_end(text, s, b);
            lemma_word_end(text, s + 1, b);
            let e = word_end(text, s, b);
            lemma_words_shift(text, a, e, b);
            let ws = words(text, i, b);
            let ws2 = words(sub, i - a, b - a);
            assert(ws == seq![(s, e)] + words(text, e, b));
            assert(ws2 == seq![(s - a, e - a)] + words(sub, e - a, b - a));
            assert forall|j: int| 0 <= j < ws.len() implies (#[trigger] ws[j]).0 == ws2[j].0 + a
                && ws[j].1 == ws2[j].1 + a by {
                if j > 0 {
                    assert(ws[j] == words(text, e, b)[j - 1]);
                    assert(ws2[j] == words(sub, e - a, b - a)[j - 1]);
                }
            }
        }
    }
}

/// What a range of the text declares depends on its characters alone.
pub proof fn lemma_record_shift(text: Seq<char>, a: int, b: int)
    requires
        0 <= a <= b <= text.len(),
    ensures
        line_record(text, a, b) == line_declares(text.subrange(a, b)),
{
    let sub = text.subrange(a, b);
    lemma_words_shift(text, a, a, b);
    lemma_words(text, a, b);
    lemma_words(sub, 0, b - a);
    let ws = words(text, a, b);
    let ws2 = words(sub, 0, b - a);
    assert(sub.len() == b - a);
    assert forall|j: int| 0 <= j < ws.len() implies word(text, #[trigger] ws[j]) == word(sub, ws2[j]) by {
        assert(word(text, ws[j]) =~= word(sub, ws2[j]));
    }
    if ws.len() > 0 {
        assert(text[ws[0].0] == sub[ws2[0].0]);
    }
}

/// What line `k` declares is what its characters declare.
pub proof fn lemma_record_at(text: Seq<char>, k: int)
    requires
        0 <= k < lines(text).len(),
    ensures
        record_at(text, k) == line_declares(line_text(text, k)),
{
    lemma_line_range(text, k);
    lemma_record_shift(text, lines(text)[k].0, lines(text)[k].1);
}

/// Lines with the same words declare the same.
pub proof fn lemma_same_tokens(l1: Seq<char>, l2: Seq<char>)
    requires
        tokens(l1) == tokens(l2),
    ensures
        line_declares(l1) == line_declares(l2),
{
    let w1 = words(l1, 0, l1.len() as int);
    let w2 = words(l2, 0, l2.len() as int);
    lemma_words(l1, 0, l1.len() as int);
    lemma_words(l2, 0, l2.len() as int);
    assert(w1.len() == tokens(l1).len());
    assert forall|j: int| 0 <= j < w1.len() implies word(l1, #[trigger] w1[j]) == word(l2, w2[j]) by {
        assert(tokens(l1)[j] == tokens(l2)[j]);
    }
    if w1.len() > 0 {
        assert(word(l1, w1[0])[0] == l1[w1[0].0]);
        assert(word(l2, w2[0])[0] == l2[w2[0].0]);
    }
}

/// A line that declares nothing: it has no word, or its first word starts
/// with `#`.
pub open spec fn ignorable(line: Seq<char>) -> bool {
    tokens(line).len() == 0 || tokens(line)[0][0] == '#'
}

pub proof fn lemma_ignorable(line: Seq<char>)
    requires
        ignorable(line),
    ensures
        line_declares(line) == Ok::<Option<Declaration>, Seq<char>>(None),
{
    let ws = words(line, 0, line.len() as int);
    lemma_words(line, 0, line.len() as int);
    if ws.len() > 0 {
        assert(tokens(line)[0] == word(line, ws[0]));
        assert(word(line, ws[0])[0] == line[ws[0].0]);
    }
}

// ---------------------------------------------------------------------------
// Texts whose lines declare the same

proof fn lemma_same_declared(t: Seq<char>, t2: Seq<char>, n: int)
    requires
        0 <= n <= lines(t).len(),
        lines(t2).len() == lines(t).len(),
        forall|k: int| 0 <= k < lines(t).len() ==> #[trigger] record_at(t2, k) == record_at(t, k),
    ensures
        declared_vertices(t2, n) == declared_vertices(t, n),
        declared_faces(t2, n) == declared_faces(t, n),
    decreases n,
{
    if n > 0 {
        lemma_same_declared(t, t2, n - 1);
        assert(record_at(t2, n - 1) == record_at(t, n - 1));
    }
}

/// Texts whose lines declare the same, line by line, read the same.
pub proof fn lemma_same_records(t: Seq<char>, t2: Seq<char>)
    requires
        is_ascii_chars(t2) == is_ascii_chars(t),
        lines(t2).len() == lines(t).len(),
        forall|k: int| 0 <= k < lines(t).len() ==> #[trigger] record_at(t2, k) == record_at(t, k),
    ensures
        read_outcome(t2) == read_outcome(t),
{
    let n = lines(t).len() as int;
    assert forall|k: int| 0 <= k < n implies #[trigger] line_error(t2, k) == line_error(t, k) by {
        lemma_same_declared(t, t2, k);
        assert(record_at(t2, k) == record_at(t, k));
    }
    lemma_same_declared(t, t2, n);
    if is_ascii_chars(t) {
        if exists|k: int| 0 <= k < n && #[trigger] line_error(t, k) is Some {
            let k = choose|k: int|
                0 <= k < n && #[trigger] line_error(t, k) is Some && forall|j: int|
                    0 <= j < k ==> #[trigger] line_error(t, j) is None;
            lemma_first_error(t, n);
            lemma_outcome_line_error(t, k);
            assert forall|j: int| 0 <= j < k implies #[trigger] line_error(t2, j) is None by {
                assert(line_error(t, j) is None);
            }
            lemma_outcome_line_error(t2, k);
        } else {
            assert forall|k: int| 0 <= k < n implies !(#[trigger] line_error(t2, k) is Some) by {
                assert(!(line_error(t, k) is Some));
            }
        }
    }
}

/// When some line is rejected, a first one is.
proof fn lemma_first_error(t: Seq<char>, n: int)
    requires
        exists|k: int| 0 <= k < n && #[trigger] line_error(t, k) is Some,
    ensures
        exists|k: int|
            0 <= k < n && #[trigger] line_error(t, k) is Some && forall|j: int|
                0 <= j < k ==> #[trigger] line_error(t, j) is None,
    decreases n,
{
    if exists|k: int| 0 <= k < n - 1 && #[trigger] line_error(t, k) is Some {
        lemma_first_error(t, n - 1);
        let k = choose|k: int|
            0 <= k < n - 1 && #[trigger] line_error(t, k) is Some && forall|j: int|
                0 <= j < k ==> #[trigger] line_error(t, j) is None;
        assert(0 <= k < n);
    } else {
        assert(line_error(t, n - 1) is Some);
        assert forall|j: int| 0 <= j < n - 1 implies #[trigger] line_error(t, j) is None by {
            assert(!(line_error(t, j) is Some));
        }
    }
}

/// Spacing the words of each line differently, or writing any lines with
/// the same words in another way, changes nothing in reading the text, not
/// even an error or its line number.
pub proof fn lemma_read_same_words(t: Seq<char>, t2: Seq<char>)
    requires
        is_ascii_chars(t2) == is_ascii_chars(t),
        lines(t2).len() == lines(t).len(),
        forall|k: int|
            0 <= k < lines(t).len() ==> #[trigger] tokens(line_text(t2, k)) == tokens(
                line_text(t, k),
            ),
    ensures
        read_outcome(t2) == read_outcome(t),
{
    assert forall|k: int| 0 <= k < lines(t).len() implies #[trigger] record_at(t2, k) == record_at(
        t,
        k,
    ) by {
        lemma_record_at(t, k);
        lemma_record_at(t2, k);
        assert(tokens(line_text(t2, k)) == tokens(line_text(t, k)));
        lemma_same_tokens(line_text(t2, k), line_text(t, k));
    }
    lemma_same_records(t, t2);
}

// ---------------------------------------------------------------------------
// A line that declares nothing

proof fn lemma_inserted_declared(t: Seq<char>, t2: Seq<char>, i: int, m: int)
    requires
        0 <= i <= lines(t).len(),
        lines(t2).len() == lines(t).len() + 1,
        forall|k: int| 0 <= k < i ==> #[trigger] record_at(t2, k) == record_at(t, k),
        record_at(t2, i) == Ok::<Option<Declaration>, Seq<char>>(None),
        forall|k: int|
            i < k <= lines(t).len() ==> #[trigger] record_at(t2, k) == record_at(t, k - 1),
        0 <= m <= lines(t2).len(),
    ensures
        m <= i ==> declared_vertices(t2, m) == declared_vertices(t, m) && declared_faces(t2, m)
            == declared_faces(t, m),
        m > i ==> declared_vertices(t2, m) == declared_vertices(t, m - 1) && declared_faces(t2, m)
            == declared_faces(t, m - 1),
    decreases m,
{
    if m > 0 {
        lemma_inserted_declared(t, t2, i, m - 1);
        if m - 1 < i {
            assert(record_at(t2, m - 1) == record_at(t, m - 1));
        } else if m - 1 > i {
            assert(record_at(t2, m - 1) == record_at(t, m - 2));
        }
    }
}

proof fn lemma_inserted_records(t: Seq<char>, t2: Seq<char>, i: int)
    requires
        is_ascii_chars(t2),
        0 <= i <= lines(t).len(),
        lines(t2).len() == lines(t).len() + 1,
        forall|k: int| 0 <= k < i ==> #[trigger] record_at(t2, k) == record_at(t, k),
        record_at(t2, i) == Ok::<Option<Declaration>, Seq<char>>(None),
        forall|k: int|
            i < k <= lines(t).len() ==> #[trigger] record_at(t2, k) == record_at(t, k - 1),
        read_outcome(t) is Ok,
    ensures
        read_outcome(t2) == read_outcome(t),
{
    let n = lines(t).len() as int;
    assert(!exists|k: int| 0 <= k < n && #[trigger] line_error(t, k) is Some);
    assert forall|k: int| 0 <= k < n + 1 implies !(#[trigger] line_error(t2, k) is Some) by {
        lemma_inserted_declared(t, t2, i, k);
        if k < i {
            assert(record_at(t2, k) == record_at(t, k));
            assert(!(line_error(t, k) is Some));
        } else if k > i {
            assert(record_at(t2, k) == record_at(t, k - 1));
            assert(!(line_error(t, k - 1) is Some));
        }
    }
    lemma_inserted_declared(t, t2, i, n + 1);
}

/// Inserting a line that declares nothing (blank, or a comment), and
/// spacing the words of the other lines differently, keeps what a text that
/// reads without error declares.
pub proof fn lemma_read_inserted_line(t: Seq<char>, t2: Seq<char>, i: int)
    requires
        is_ascii_chars(t2),
        0 <= i <= lines(t).len(),
        lines(t2).len() == lines(t).len() + 1,
        forall|k: int|
            0 <= k < i ==> #[trigger] tokens(line_text(t2, k)) == tokens(line_text(t, k)),
        ignorable(line_text(t2, i)),
        forall|k: int|
            i < k <= lines(t).len() ==> #[trigger] tokens(line_text(t2, k)) == tokens(
                line_text(t, k - 1),
            ),
        read_outcome(t) is Ok,
    ensures
        read_outcome(t2) == read_outcome(t),
{
    let n = lines(t).len() as int;
    assert forall|k: int| 0 <= k < i implies #[trigger] record_at(t2, k) == record_at(t, k) by {
        lemma_record_at(t, k);
        lemma_record_at(t2, k);
        assert(tokens(line_text(t2, k)) == tokens(line_text(t, k)));
        lemma_same_tokens(line_text(t2, k), line_text(t, k));
    }
    lemma_record_at(t2, i);
    lemma_ignorable(line_text(t2, i));
    assert forall|k: int| i < k <= n implies #[trigger] record_at(t2, k) == record_at(t, k - 1) by {
        lemma_record_at(t, k - 1);
        lemma_record_at(t2, k);
        assert(tokens(line_text(t2, k)) == tokens(line_text(t, k - 1)));
        lemma_same_tokens(line_text(t2, k), line_text(t, k - 1));
    }
    lemma_inserted_records(t, t2, i);
}

// ---------------------------------------------------------------------------
// The order of the vertex lines

/// The record declares a vertex.
pub open spec fn declares_vertex(r: Result<Option<Declaration>, Seq<char>>) -> bool {
    r matches Ok(Some(Declaration::Vertex(_)))
}

proof fn lemma_declared_vertex_lines(t: Seq<char>, m: int, x: u64)
    requires
        0 <= m,
    ensures
        declared_vertices(t, m).contains(x) <==> exists|k: int|
            0 <= k < m && #[trigger] record_at(t, k) == Ok::<Option<Declaration>, Seq<char>>(
                Some(Declaration::Vertex(x)),
            ),
    decreases m,
{
    if m > 0 {
        lemma_declared_vertex_lines(t, m - 1, x);
        let prev = declared_vertices(t, m - 1);
        if exists|k: int|
            0 <= k < m && #[trigger] record_at(t, k) == Ok::<Option<Declaration>, Seq<char>>(
                Some(Declaration::Vertex(x)),
            ) {
            let k = choose|k: int|
                0 <= k < m && #[trigger] record_at(t, k) == Ok::<Option<Declaration>, Seq<char>>(
                    Some(Declaration::Vertex(x)),
                );
            if k < m - 1 {
                let i = choose|i: int| 0 <= i < prev.len() && prev[i] == x;
                match record_at(t, m - 1) {
                    Ok(Some(Declaration::Vertex(id))) => {
                        assert(declared_vertices(t, m)[i] == x);
                    },
                    _ => {},
                }
            } else {
                assert(declared_vertices(t, m) == prev.push(x));
                assert(declared_vertices(t, m)[prev.len() as int] == x);
            }
        }
        if declared_vertices(t, m).contains(x) {
            let i = choose|i: int| 0 <= i < declared_vertices(t, m).len() && declared_vertices(t, m)[i] == x;
            match record_at(t, m - 1) {
                Ok(Some(Declaration::Vertex(id))) => {
                    if i < prev.len() {
                        assert(prev[i] == x);
                    }
                },
                _ => {
                    assert(prev[i] == x);
                },
            }
        }
    }
}

proof fn lemma_error_free_vertices(t: Seq<char>, m: int)
    requires
        0 <= m <= lines(t).len(),
        forall|k: int| 0 <= k < lines(t).len() ==> !(#[trigger] line_error(t, k) is Some),
    ensures
        declared_vertices(t, m).no_duplicates(),
    decreases m,
{
    if m > 0 {
        lemma_error_free_vertices(t, m - 1);
        assert(!(line_error(t, m - 1) is Some));
        let prev = declared_vertices(t, m - 1);
        match record_at(t, m - 1) {
            Ok(Some(Declaration::Vertex(id))) => {
                assert(!prev.contains(id));
                let cur = declared_vertices(t, m);
                assert forall|a: int, b: int| 0 <= a < b < cur.len() implies cur[a] != cur[b] by {
                    if b == prev.len() {
                        assert(prev[a] == cur[a]);
                    } else {
                        assert(prev[a] == cur[a] && prev[b] == cur[b]);
                    }
                }
            },
            _ => {},
        }
    }
}

proof fn lemma_reordered_faces(
    t: Seq<char>,
    t2: Seq<char>,
    sigma: spec_fn(int) -> int,
    m: int,
)
    requires
        lines(t2).len() == lines(t).len(),
        forall|k: int|
            0 <= k < lines(t).len() ==> #[trigger] record_at(t2, k) == record_at(t, sigma(k)),
        forall|k: int|
            0 <= k < lines(t).len() && #[trigger] sigma(k) != k ==> declares_vertex(record_at(t, k))
                && declares_vertex(record_at(t, sigma(k))),
        0 <= m <= lines(t).len(),
    ensures
        declared_faces(t2, m) == declared_faces(t, m),
    decreases m,
{
    if m > 0 {
        lemma_reordered_faces(t, t2, sigma, m - 1);
        assert(record_at(t2, m - 1) == record_at(t, sigma(m - 1)));
    }
}

/// Reordering the vertex lines among themselves, and spacing the words of
/// each line differently, keeps a text that reads without error reading
/// without error, with the same faces and the same vertex ids in another
/// order.
pub proof fn lemma_read_reordered_vertices(
    t: Seq<char>,
    t2: Seq<char>,
    sigma: spec_fn(int) -> int,
    sigma_inv: spec_fn(int) -> int,
)
    requires
        is_ascii_chars(t2),
        lines(t2).len() == lines(t).len(),
        forall|k: int|
            0 <= k < lines(t).len() ==> 0 <= #[trigger] sigma(k) < lines(t).len() && sigma_inv(
                sigma(k),
            ) == k,
        forall|k: int|
            0 <= k < lines(t).len() ==> 0 <= #[trigger] sigma_inv(k) < lines(t).len() && sigma(
                sigma_inv(k),
            ) == k,
        forall|k: int|
            0 <= k < lines(t).len() ==> #[trigger] tokens(line_text(t2, k)) == tokens(
                line_text(t, sigma(k)),
            ),
        forall|k: int|
            0 <= k < lines(t).len() && #[trigger] sigma(k) != k ==> declares_vertex(
                line_declares(line_text(t, k)),
            ) && declares_vertex(line_declares(line_text(t, sigma(k)))),
        read_outcome(t) is Ok,
    ensures
        read_outcome(t2) matches Ok((vs2, fs2)) && read_outcome(t) matches Ok((vs, fs)) && fs2 == fs
            && vs2.len() == vs.len() && forall|x: u64| vs2.contains(x) <==> vs.contains(x),
{
    let n = lines(t).len() as int;
    assert forall|k: int| 0 <= k < n implies #[trigger] record_at(t2, k) == record_at(t, sigma(k)) by {
        lemma_record_at(t, sigma(k));
        lemma_record_at(t2, k);
        assert(tokens(line_text(t2, k)) == tokens(line_text(t, sigma(k))));
        lemma_same_tokens(line_text(t2, k), line_text(t, sigma(k)));
    }
    assert forall|k: int|
        0 <= k < n && #[trigger] sigma(k) != k implies declares_vertex(record_at(t, k))
            && declares_vertex(record_at(t, sigma(k))) by {
        lemma_record_at(t, k);
        lemma_record_at(t, sigma(k));
    }
    assert(!exists|k: int| 0 <= k < n && #[trigger] line_error(t, k) is Some);
    // In `t`, two vertex lines declare different ids.
    assert forall|j: int, k: int|
        0 <= j < k < n && declares_vertex(#[trigger] record_at(t, j)) implies #[trigger] record_at(
        t,
        k,
    ) != record_at(t, j) by {
        if let Ok(Some(Declaration::Vertex(x))) = record_at(t, j) {
            lemma_declared_vertex_lines(t, k, x);
            assert(!(line_error(t, k) is Some));
        }
    }
    assert forall|k: int| 0 <= k < n implies !(#[trigger] line_error(t2, k) is Some) by {
        assert(!(line_error(t, sigma(k)) is Some));
        assert(!(line_error(t, k) is Some));
        lemma_reordered_faces(t, t2, sigma, k);
        match record_at(t2, k) {
            Ok(Some(Declaration::Vertex(x))) => {
                lemma_declared_vertex_lines(t2, k, x);
                if declared_vertices(t2, k).contains(x) {
                    let j = choose|j: int|
                        0 <= j < k && #[trigger] record_at(t2, j) == Ok::<
                            Option<Declaration>,
                            Seq<char>,
                        >(Some(Declaration::Vertex(x)));
                    assert(record_at(t, sigma(j)) == record_at(t, sigma(k)));
                    assert(sigma(j) != sigma(k)) by {
                        assert(sigma_inv(sigma(j)) == j);
                    }
                    if sigma(j) < sigma(k) {
                        assert(record_at(t, sigma(k)) != Ok::<Option<Declaration>, Seq<char>>(
                            Some(Declaration::Vertex(x)),
                        ));
                    } else {
                        assert(record_at(t, sigma(j)) != Ok::<Option<Declaration>, Seq<char>>(
                            Some(Declaration::Vertex(x)),
                        ));
                    }
                }
            },
            Ok(Some(Declaration::Face(a, b, c))) => {
                assert(sigma(k) == k);
            },
            _ => {},
        }
    }
    lemma_reordered_faces(t, t2, sigma, n);
    let vs = declared_vertices(t, n);
    let vs2 = declared_vertices(t2, n);
    assert forall|x: u64| vs2.contains(x) <==> vs.contains(x) by {
        lemma_declared_vertex_lines(t, n, x);
        lemma_declared_vertex_lines(t2, n, x);
        if vs2.contains(x) {
            let k = choose|k: int|
                0 <= k < n && #[trigger] record_at(t2, k) == Ok::<Option<Declaration>, Seq<char>>(
                    Some(Declaration::Vertex(x)),
                );
            assert(record_at(t, sigma(k)) == Ok::<Option<Declaration>, Seq<char>>(
                Some(Declaration::Vertex(x)),
            ));
        }
        if vs.contains(x) {
            let j = choose|j: int|
                0 <= j < n && #[trigger] record_at(t, j) == Ok::<Option<Declaration>, Seq<char>>(
                    Some(Declaration::Vertex(x)),
                );
            assert(record_at(t2, sigma_inv(j)) == record_at(t, j));
        }
    }
    lemma_error_free_vertices(t, n);
    lemma_error_free_vertices(t2, n);
    vs.unique_seq_to_set();
    vs2.unique_seq_to_set();
    assert(vs.to_set() =~= vs2.to_set());
    assert forall|f: int, c: int| #[trigger] unknown_corner(vs2, declared_faces(t2, n), f, c)
        == unknown_corner(vs, declared_faces(t, n), f, c) by {}
}

// ---------------------------------------------------------------------------
// What `parse` gives

proof fn lemma_sorted_prefix(a: Seq<u64>, b: Seq<u64>, i: int)
    requires
        strictly_increasing(a),
        strictly_increasing(b),
        a.len() == b.len(),
        forall|x: u64| a.contains(x) <==> b.contains(x),
        0 <= i < a.len(),
    ensures
        forall|j: int| 0 <= j <= i ==> #[trigger] a[j] == b[j],
    decreases i,
{
    if i > 0 {
        lemma_sorted_prefix(a, b, i - 1);
    }
    assert(a.contains(a[i]));
    let j1 = choose|j: int| 0 <= j < b.len() && b[j] == a[i];
    if j1 < i {
        assert(a[j1] == b[j1]);
    }
    assert(b.contains(b[i]));
    let j2 = choose|j: int| 0 <= j < a.len() && a[j] == b[i];
    if j2 < i {
        assert(a[j2] == b[j2]);
    }
    assert forall|j: int| 0 <= j <= i implies #[trigger] a[j] == b[j] by {
        if j < i {
            assert(a[j] == b[j]);
        }
    }
}

/// The mesh that a text declares is determined by its vertex ids, in
/// whatever order, and its faces: `parse` sorts the ids.
pub proof fn lemma_parsed_mesh(m1: Mesh, m2: Mesh)
    requires
        strictly_increasing(m1.vertices@),
        strictly_increasing(m2.vertices@),
        m1.vertices@.len() == m2.vertices@.len(),
        forall|x: u64| m1.vertices@.contains(x) <==> m2.vertices@.contains(x),
        face_triples(m1.faces@) == face_triples(m2.faces@),
    ensures
        m1.vertices@ == m2.vertices@,
        m1.faces@ == m2.faces@,
{
    if m1.vertices@.len() > 0 {
        lemma_sorted_prefix(m1.vertices@, m2.vertices@, m1.vertices@.len() - 1);
    }
    assert(m1.vertices@ =~= m2.vertices@);
    assert(m1.faces@.len() == face_triples(m1.faces@).len());
    assert(m2.faces@.len() == face_triples(m2.faces@).len());
    assert forall|i: int| 0 <= i < m1.faces@.len() implies #[trigger] m1.faces@[i] == m2.faces@[i] by {
        broadcast use vstd::array::group_array_axioms;

        let a = m1.faces@[i];
        let b = m2.faces@[i];
        assert(face_triples(m1.faces@)[i] == (a[0], a[1], a[2]));
        assert(face_triples(m2.faces@)[i] == (b[0], b[1], b[2]));
        assert forall|k: int| 0 <= k < 3 implies a[k] == b[k] by {}
        assert(a =~= b);
    }
    assert(m1.faces@ =~= m2.faces@);
}

/// Spacing the words of each line differently gives the same parse: the
/// same mesh, or the same error on the same line.
pub proof fn lemma_parse_same_words(
    t: Seq<char>,
    t2: Seq<char>,
    r: Result<Mesh, ParseError>,
    r2: Result<Mesh, ParseError>,
)
    requires
        is_ascii_chars(t2) == is_ascii_chars(t),
        lines(t2).len() == lines(t).len(),
        forall|k: int|
            0 <= k < lines(t).len() ==> #[trigger] tokens(line_text(t2, k)) == tokens(
                line_text(t, k),
            ),
        parse_outcome(t, r),
        parse_outcome(t2, r2),
    ensures
        r matches Ok(m) ==> r2 matches Ok(m2) && m2.vertices@ == m.vertices@ && m2.faces@
            == m.faces@,
        r matches Err(e) ==> r2 matches Err(e2) && e2.line == e.line && e2.message@ == e.message@,
{
    lemma_read_same_words(t, t2);
    if let Ok(m) = r {
        if let Ok(m2) = r2 {
            let (vs, fs) = read_outcome(t)->Ok_0;
            let (vs2, fs2) = read_outcome(t2)->Ok_0;
            assert forall|x: u64| m.vertices@.contains(x) <==> m2.vertices@.contains(x) by {
                assert(m.vertices@.contains(x) <==> vs.contains(x));
                assert(m2.vertices@.contains(x) <==> vs2.contains(x));
            }
            lemma_parsed_mesh(m, m2);
        }
    }
}

/// Inserting a line that declares nothing (blank, or a comment) and spacing
/// the words of the other lines differently gives the same mesh.
pub proof fn lemma_parse_inserted_line(
    t: Seq<char>,
    t2: Seq<char>,
    i: int,
    r: Result<Mesh, ParseError>,
    r2: Result<Mesh, ParseError>,
)
    requires
        is_ascii_chars(t2),
        0 <= i <= lines(t).len(),
        lines(t2).len() == lines(t).len() + 1,
        forall|k: int|
            0 <= k < i ==> #[trigger] tokens(line_text(t2, k)) == tokens(line_text(t, k)),
        ignorable(line_text(t2, i)),
        forall|k: int|
            i < k <= lines(t).len() ==> #[trigger] tokens(line_text(t2, k)) == tokens(
                line_text(t, k - 1),
            ),
        parse_outcome(t, r),
        parse_outcome(t2, r2),
    ensures
        r matches Ok(m) ==> r2 matches Ok(m2) && m2.vertices@ == m.vertices@ && m2.faces@
            == m.faces@,
{
    if let Ok(m) = r {
        lemma_read_inserted_line(t, t2, i);
        if let Ok(m2) = r2 {
            let (vs, fs) = read_outcome(t)->Ok_0;
            let (vs2, fs2) = read_outcome(t2)->Ok_0;
            assert forall|x: u64| m.vertices@.contains(x) <==> m2.vertices@.contains(x) by {
                assert(m.vertices@.contains(x) <==> vs.contains(x));
                assert(m2.vertices@.contains(x) <==> vs2.contains(x));
            }
            lemma_parsed_mesh(m, m2);
        }
    }
}

/// Reordering the vertex lines among themselves (line `k` of `t2` having the
/// words of line `sigma(k)` of `t`, `sigma` moving vertex lines only) gives
/// the same mesh.
pub proof fn lemma_parse_reordered_vertices(
    t: Seq<char>,
    t2: Seq<char>,
    sigma: spec_fn(int) -> int,
    sigma_inv: spec_fn(int) -> int,
    r: Result<Mesh, ParseError>,
    r2: Result<Mesh, ParseError>,
)
    requires
        is_ascii_chars(t2),
        lines(t2).len() == lines(t).len(),
        forall|k: int|
            0 <= k < lines(t).len() ==> 0 <= #[trigger] sigma(k) < lines(t).len() && sigma_inv(
                sigma(k),
            ) == k,
        forall|k: int|
            0 <= k < lines(t).len() ==> 0 <= #[trigger] sigma_inv(k) < lines(t).len() && sigma(
                sigma_inv(k),
            ) == k,
        forall|k: int|
            0 <= k < lines(t).len() ==> #[trigger] tokens(line_text(t2, k)) == tokens(
                line_text(t, sigma(k)),
            ),
        forall|k: int|
            0 <= k < lines(t).len() && #[trigger] sigma(k) != k ==> declares_vertex(
                line_declares(line_text(t, k)),
            ) && declares_vertex(line_declares(line_text(t, sigma(k)))),
        parse_outcome(t, r),
        parse_outcome(t2, r2),
    ensures
        r matches Ok(m) ==> r2 matches Ok(m2) && m2.vertices@ == m.vertices@ && m2.faces@
            == m.faces@,
{
    if let Ok(m) = r {
        lemma_read_reordered_vertices(t, t2, sigma, sigma_inv);
        if let Ok(m2) = r2 {
            let (vs, fs) = read_outcome(t)->Ok_0;
            let (vs2, fs2) = read_outcome(t2)->Ok_0;
            assert forall|x: u64| m.vertices@.contains(x) <==> m2.vertices@.contains(x) by {
                assert(m.vertices@.contains(x) <==> vs.contains(x));
                assert(m2.vertices@.contains(x) <==> vs2.contains(x));
            }
            lemma_parsed_mesh(m, m2);
        }
    }
}

// ---------------------------------------------------------------------------
// What a text that reads without error holds

/// The corners of a face, as a set.
pub open spec fn corner_set(t: (u64, u64, u64)) -> Set<u64> {
    set![t.0, t.1, t.2]
}

proof fn lemma_faces_pairwise(text: Seq<char>, n: int)
    requires
        0 <= n <= lines(text).len(),
        forall|k: int| 0 <= k < lines(text).len() ==> !(#[trigger] line_error(text, k) is Some),
    ensures
        forall|i: int, j: int|
            0 <= i < j < declared_faces(text, n).len() ==> !same_vertex_set(
                #[trigger] declared_faces(text, n)[i],
                #[trigger] declared_faces(text, n)[j],
            ),
    decreases n,
{
    if n > 0 {
        lemma_faces_pairwise(text, n - 1);
        let prev = declared_faces(text, n - 1);
        assert(!(line_error(text, n - 1) is Some));
        match record_at(text, n - 1) {
            Ok(Some(Declaration::Face(a, b, c))) => {
                let cur = declared_faces(text, n);
                assert(cur == prev.push((a, b, c)));
                assert forall|i: int, j: int|
                    0 <= i < j < cur.len() implies !same_vertex_set(
                    #[trigger] cur[i],
                    #[trigger] cur[j],
                ) by {
                    assert(cur[i] == prev[i]);
                    if j < prev.len() {
                        assert(cur[j] == prev[j]);
                    } else {
                        assert(!same_vertex_set(prev[i], (a, b, c)));
                    }
                }
            },
            _ => {},
        }
    }
}

/// A text that reads without error declares no face twice: no two of its
/// faces have the same three corners, in whatever order and wherever the
/// two stand in the text.
pub proof fn lemma_read_faces_distinct(text: Seq<char>)
    requires
        read_outcome(text) is Ok,
    ensures
        forall|i: int, j: int|
            0 <= i < j < read_outcome(text)->Ok_0.1.len() ==> corner_set(
                #[trigger] read_outcome(text)->Ok_0.1[i],
            ) != corner_set(#[trigger] read_outcome(text)->Ok_0.1[j]),
{
    let n = lines(text).len() as int;
    assert(!exists|k: int| 0 <= k < n && #[trigger] line_error(text, k) is Some);
    lemma_faces_pairwise(text, n);
    let fs = read_outcome(text)->Ok_0.1;
    assert(fs == declared_faces(text, n));
    assert forall|i: int, j: int| 0 <= i < j < fs.len() implies corner_set(#[trigger] fs[i])
        != corner_set(#[trigger] fs[j]) by {
        let t = fs[i];
        let u = fs[j];
        if corner_set(t) == corner_set(u) {
            assert(corner_set(t).contains(u.0) && corner_set(t).contains(u.1) && corner_set(
                t,
            ).contains(u.2));
            assert(corner_set(u).contains(t.0) && corner_set(u).contains(t.1) && corner_set(
                u,
            ).contains(t.2));
            assert(same_vertex_set(t, u));
        }
    }
}

/// `parse` returns no face twice: no two faces of the mesh have the same
/// three corners.
pub proof fn lemma_parsed_faces_distinct(text: Seq<char>, m: Mesh)
    requires
        parse_outcome(text, Ok(m)),
    ensures
        forall|i: int, j: int|
            0 <= i < j < m.faces@.len() ==> corner_set(
                (#[trigger] m.faces@[i][0], m.faces@[i][1], m.faces@[i][2]),
            ) != corner_set((#[trigger] m.faces@[j][0], m.faces@[j][1], m.faces@[j][2])),
{
    lemma_read_faces_distinct(text);
    let fs = read_outcome(text)->Ok_0.1;
    assert(face_triples(m.faces@) == fs);
    assert forall|i: int, j: int| 0 <= i < j < m.faces@.len() implies corner_set(
        (#[trigger] m.faces@[i][0], m.faces@[i][1], m.faces@[i][2]),
    ) != corner_set((#[trigger] m.faces@[j][0], m.faces@[j][1], m.faces@[j][2])) by {
        assert(fs[i] == face_triples(m.faces@)[i]);
        assert(fs[j] == face_triples(m.faces@)[j]);
    }
}

/// The words of a line that declares a vertex, a face or nothing, as the
/// format has them: no word, or a first word starting with `#`; `v` and a
/// vertex id; `f` and three distinct vertex ids.
pub open spec fn well_written(ts: Seq<Seq<char>>) -> bool {
    ||| ts.len() == 0
    ||| ts[0][0] == '#'
    ||| ts.len() == 2 && ts[0] == seq!['v'] && vertex_id(ts[1]) is Some
    ||| ts.len() == 4 && ts[0] == seq!['f'] && vertex_id(ts[1]) is Some && vertex_id(ts[2]) is Some
        && vertex_id(ts[3]) is Some && vertex_id(ts[1]) != vertex_id(ts[2]) && vertex_id(ts[2])
        != vertex_id(ts[3]) && vertex_id(ts[1]) != vertex_id(ts[3])
}

/// A line that is not rejected is well written.
pub proof fn lemma_declares_well_written(line: Seq<char>)
    requires
        line_declares(line) is Ok,
    ensures
        well_written(tokens(line)),
{
    let ws = words(line, 0, line.len() as int);
    lemma_words(line, 0, line.len() as int);
    let ts = tokens(line);
    assert(ts.len() == ws.len());
    assert forall|i: int| 0 <= i < ws.len() implies #[trigger] ts[i] == word(line, ws[i]) by {}
    if ws.len() > 0 {
        assert(word(line, ws[0])[0] == line[ws[0].0]);
    }
}

/// A text that reads without error holds only well-written lines: a line
/// whose first word is `v` or `f` is read in full, and any other first word
/// that is not a comment is refused.
pub proof fn lemma_read_well_written(text: Seq<char>)
    requires
        read_outcome(text) is Ok,
    ensures
        forall|k: int| 0 <= k < lines(text).len() ==> well_written(#[trigger] tokens(line_text(text, k))),
{
    let n = lines(text).len() as int;
    assert(!exists|k: int| 0 <= k < n && #[trigger] line_error(text, k) is Some);
    assert forall|k: int| 0 <= k < n implies well_written(#[trigger] tokens(line_text(text, k))) by {
        assert(!(line_error(text, k) is Some));
        lemma_record_at(text, k);
        lemma_declares_well_written(line_text(text, k));
    }
}

/// What a line declares, by its words: nothing when it has no word or its
/// first word starts with `#`; for `v`, exactly one more word, a vertex id;
/// for `f`, exactly three more words, vertex ids, pairwise distinct; any
/// other first word is an unknown directive. Each refusal carries its
/// message.
pub proof fn lemma_line_meaning(line: Seq<char>)
    ensures
        ({
            let ts = tokens(line);
            let r = line_declares(line);
            &&& ts.len() == 0 || ts[0][0] == '#' ==> r == Ok::<Option<Declaration>, Seq<char>>(None)
            &&& ts.len() > 0 && ts[0][0] != '#' && ts[0] == seq!['v'] ==> r == if ts.len() != 2 {
                Err(msg_vertex_arity(ts.len()))
            } else if vertex_id(ts[1]) is None {
                Err(msg_invalid_id(ts[1]))
            } else {
                Ok(Some(Declaration::Vertex(vertex_id(ts[1])->0)))
            }
            &&& ts.len() > 0 && ts[0][0] != '#' && ts[0] == seq!['f'] ==> r == if ts.len() != 4 {
                Err(msg_face_arity(ts.len()))
            } else if vertex_id(ts[1]) is None {
                Err(msg_invalid_id(ts[1]))
            } else if vertex_id(ts[2]) is None {
                Err(msg_invalid_id(ts[2]))
            } else if vertex_id(ts[3]) is None {
                Err(msg_invalid_id(ts[3]))
            } else if vertex_id(ts[1]) == vertex_id(ts[2]) || vertex_id(ts[2]) == vertex_id(ts[3])
                || vertex_id(ts[1]) == vertex_id(ts[3]) {
                Err(msg_not_distinct())
            } else {
                Ok(
                    Some(
                        Declaration::Face(
                            vertex_id(ts[1])->0,
                            vertex_id(ts[2])->0,
                            vertex_id(ts[3])->0,
                        ),
                    ),
                )
            }
            &&& ts.len() > 0 && ts[0][0] != '#' && ts[0] != seq!['v'] && ts[0] != seq!['f'] ==> r
                == Err::<Option<Declaration>, Seq<char>>(msg_unknown_directive(ts[0]))
        }),
{
    let ws = words(line, 0, line.len() as int);
    lemma_words(line, 0, line.len() as int);
    let ts = tokens(line);
    assert(ts.len() == ws.len());
    assert forall|i: int| 0 <= i < ws.len() implies #[trigger] ts[i] == word(line, ws[i]) by {}
    if ws.len() > 0 {
        assert(word(line, ws[0])[0] == line[ws[0].0]);
    }
}

/// A text that reads without error declares each vertex id once, uses only
/// declared vertices in its faces, and has 4 to 500 vertices and 4 to 2000
/// faces.
pub proof fn lemma_read_ok(text: Seq<char>)
    requires
        read_outcome(text) is Ok,
    ensures
        ({
            let (vs, fs) = read_outcome(text)->Ok_0;
            &&& vs.no_duplicates()
            &&& forall|f: int|
                0 <= f < fs.len() ==> vs.contains((#[trigger] fs[f]).0) && vs.contains(fs[f].1)
                    && vs.contains(fs[f].2)
            &&& 4 <= vs.len() <= 500
            &&& 4 <= fs.len() <= 2000
        }),
{
    let n = lines(text).len() as int;
    assert(!exists|k: int| 0 <= k < n && #[trigger] line_error(text, k) is Some);
    lemma_error_free_vertices(text, n);
    let (vs, fs) = read_outcome(text)->Ok_0;
    assert forall|f: int| 0 <= f < fs.len() implies vs.contains((#[trigger] fs[f]).0) && vs.contains(
        fs[f].1,
    ) && vs.contains(fs[f].2) by {
        assert(!unknown_corner(vs, fs, f, 0));
        assert(!unknown_corner(vs, fs, f, 1));
        assert(!unknown_corner(vs, fs, f, 2));
    }
}

/// The vertex that a line declares, by its words.
pub open spec fn line_vertex(line: Seq<char>) -> Option<u64> {
    let ts = tokens(line);
    if ts.len() == 2 && ts[0] == seq!['v'] {
        vertex_id(ts[1])
    } else {
        None
    }
}

/// The face that a line declares, by its words: three distinct vertex ids.
pub open spec fn line_face(line: Seq<char>) -> Option<(u64, u64, u64)> {
    let ts = tokens(line);
    if ts.len() == 4 && ts[0] == seq!['f'] && vertex_id(ts[1]) is Some && vertex_id(ts[2]) is Some
        && vertex_id(ts[3]) is Some && vertex_id(ts[1]) != vertex_id(ts[2]) && vertex_id(ts[2])
        != vertex_id(ts[3]) && vertex_id(ts[1]) != vertex_id(ts[3]) {
        Some((vertex_id(ts[1])->0, vertex_id(ts[2])->0, vertex_id(ts[3])->0))
    } else {
        None
    }
}

proof fn lemma_declared_face_lines(text: Seq<char>, m: int)
    requires
        0 <= m,
    ensures
        forall|i: int|
            0 <= i < declared_faces(text, m).len() ==> exists|j: int|
                0 <= j < m && #[trigger] record_at(text, j) == Ok::<Option<Declaration>, Seq<char>>(
                    Some(
                        Declaration::Face(
                            (#[trigger] declared_faces(text, m)[i]).0,
                            declared_faces(text, m)[i].1,
                            declared_faces(text, m)[i].2,
                        ),
                    ),
                ),
    decreases m,
{
    if m > 0 {
        lemma_declared_face_lines(text, m - 1);
        let prev = declared_faces(text, m - 1);
        let cur = declared_faces(text, m);
        assert forall|i: int| 0 <= i < cur.len() implies exists|j: int|
            0 <= j < m && #[trigger] record_at(text, j) == Ok::<Option<Declaration>, Seq<char>>(
                Some(Declaration::Face((#[trigger] cur[i]).0, cur[i].1, cur[i].2)),
            ) by {
            if i < prev.len() {
                assert(cur[i] == prev[i]);
                let j = choose|j: int|
                    0 <= j < m - 1 && #[trigger] record_at(text, j) == Ok::<
                        Option<Declaration>,
                        Seq<char>,
                    >(Some(Declaration::Face(prev[i].0, prev[i].1, prev[i].2)));
                assert(0 <= j < m);
            } else {
                assert(record_at(text, m - 1) == Ok::<Option<Declaration>, Seq<char>>(
                    Some(Declaration::Face(cur[i].0, cur[i].1, cur[i].2)),
                ));
            }
        }
    }
}

/// A text of well-written lines in which no two lines declare the same
/// vertex id, nor faces with the same three corners, is never refused on a
/// line: if at all, it is refused as a whole (line 0), for its counts or for
/// a face corner that no line declares.
pub proof fn lemma_read_lines_accepted(text: Seq<char>)
    requires
        forall|k: int| 0 <= k < lines(text).len() ==> well_written(#[trigger] tokens(line_text(text, k))),
        forall|j: int, k: int|
            0 <= j < k < lines(text).len() && (#[trigger] line_vertex(line_text(text, j))) is Some
                ==> line_vertex(line_text(text, j)) != #[trigger] line_vertex(line_text(text, k)),
        forall|j: int, k: int|
            0 <= j < k < lines(text).len() && (#[trigger] line_face(line_text(text, j))) is Some && (
            #[trigger] line_face(line_text(text, k))) is Some ==> corner_set(
                line_face(line_text(text, j))->0,
            ) != corner_set(line_face(line_text(text, k))->0),
    ensures
        forall|k: int| 0 <= k < lines(text).len() ==> #[trigger] line_error(text, k) is None,
        read_outcome(text) matches Err((line, _)) ==> line == 0,
        ({
            let vs = declared_vertices(text, lines(text).len() as int);
            let fs = declared_faces(text, lines(text).len() as int);
            read_outcome(text) is Ok <==> {
                &&& is_ascii_chars(text)
                &&& 4 <= vs.len() <= 500
                &&& 4 <= fs.len() <= 2000
                &&& forall|f: int|
                    0 <= f < fs.len() ==> vs.contains((#[trigger] fs[f]).0) && vs.contains(fs[f].1)
                        && vs.contains(fs[f].2)
            }
        }),
{
    let n = lines(text).len() as int;
    assert forall|k: int| 0 <= k < n implies record_at(text, k) == match line_vertex(
        line_text(text, k),
    ) {
        Some(x) => Ok::<Option<Declaration>, Seq<char>>(Some(Declaration::Vertex(x))),
        None => match line_face(line_text(text, k)) {
            Some(t) => Ok(Some(Declaration::Face(t.0, t.1, t.2))),
            None => Ok(None),
        },
    } by {
        lemma_record_at(text, k);
        lemma_line_meaning(line_text(text, k));
        assert(well_written(tokens(line_text(text, k))));
    }
    assert forall|k: int| 0 <= k < n implies #[trigger] line_error(text, k) is None by {
        lemma_record_at(text, k);
        lemma_line_meaning(line_text(text, k));
        assert(well_written(tokens(line_text(text, k))));
        match record_at(text, k) {
            Ok(Some(Declaration::Vertex(x))) => {
                lemma_declared_vertex_lines(text, k, x);
                if declared_vertices(text, k).contains(x) {
                    let j = choose|j: int|
                        0 <= j < k && #[trigger] record_at(text, j) == Ok::<
                            Option<Declaration>,
                            Seq<char>,
                        >(Some(Declaration::Vertex(x)));
                    lemma_record_at(text, j);
                    lemma_line_meaning(line_text(text, j));
                    assert(well_written(tokens(line_text(text, j))));
                    assert(line_vertex(line_text(text, j)) == Some(x));
                    assert(line_vertex(line_text(text, k)) == Some(x));
                }
            },
            Ok(Some(Declaration::Face(a, b, c))) => {
                lemma_declared_face_lines(text, k);
                let df = declared_faces(text, k);
                if exists|i: int| 0 <= i < df.len() && same_vertex_set(#[trigger] df[i], (a, b, c)) {
                    let i = choose|i: int| 0 <= i < df.len() && same_vertex_set(#[trigger] df[i], (a, b, c));
                    let j = choose|j: int|
                        0 <= j < k && #[trigger] record_at(text, j) == Ok::<
                            Option<Declaration>,
                            Seq<char>,
                        >(Some(Declaration::Face(df[i].0, df[i].1, df[i].2)));
                    lemma_record_at(text, j);
                    lemma_line_meaning(line_text(text, j));
                    assert(well_written(tokens(line_text(text, j))));
                    assert(line_face(line_text(text, j)) == Some(df[i]));
                    assert(line_face(line_text(text, k)) == Some((a, b, c)));
                    assert(corner_set(df[i]) =~= corner_set((a, b, c)));
                }
            },
            _ => {},
        }
    }
    let vs = declared_vertices(text, n);
    let fs = declared_faces(text, n);
    assert(!exists|k: int| 0 <= k < n && #[trigger] line_error(text, k) is Some);
    if forall|f: int|
        0 <= f < fs.len() ==> vs.contains((#[trigger] fs[f]).0) && vs.contains(fs[f].1)
            && vs.contains(fs[f].2) {
        assert forall|f: int, c: int| !#[trigger] unknown_corner(vs, fs, f, c) by {
            if 0 <= f < fs.len() {
                assert(vs.contains(fs[f].0) && vs.contains(fs[f].1) && vs.contains(fs[f].2));
            }
        }
    } else {
        let f = choose|f: int|
            0 <= f < fs.len() && !(vs.contains((#[trigger] fs[f]).0) && vs.contains(fs[f].1)
                && vs.contains(fs[f].2));
        if !vs.contains(fs[f].0) {
            assert(unknown_corner(vs, fs, f, 0));
        } else if !vs.contains(fs[f].1) {
            assert(unknown_corner(vs, fs, f, 1));
        } else {
            assert(unknown_corner(vs, fs, f, 2));
        }
    }
}

proof fn lemma_face_line_declared(text: Seq<char>, j: int, m: int, a: u64, b: u64, c: u64)
    requires
        0 <= j < m,
        record_at(text, j) == Ok::<Option<Declaration>, Seq<char>>(
            Some(Declaration::Face(a, b, c)),
        ),
    ensures
        declared_faces(text, m).contains((a, b, c)),
    decreases m,
{
    if j < m - 1 {
        lemma_face_line_declared(text, j, m - 1, a, b, c);
        let prev = declared_faces(text, m - 1);
        let i = choose|i: int| 0 <= i < prev.len() && prev[i] == (a, b, c);
        match record_at(text, m - 1) {
            Ok(Some(Declaration::Face(x, y, z))) => {
                assert(declared_faces(text, m)[i] == (a, b, c));
            },
            _ => {},
        }
    } else {
        let cur = declared_faces(text, m);
        assert(cur[cur.len() - 1] == (a, b, c));
    }
}

/// What a well-written line declares, by its words.
proof fn lemma_well_written_record(text: Seq<char>, k: int)
    requires
        0 <= k < lines(text).len(),
        well_written(tokens(line_text(text, k))),
    ensures
        record_at(text, k) == match line_vertex(line_text(text, k)) {
            Some(x) => Ok::<Option<Declaration>, Seq<char>>(Some(Declaration::Vertex(x))),
            None => match line_face(line_text(text, k)) {
                Some(t) => Ok(Some(Declaration::Face(t.0, t.1, t.2))),
                None => Ok(None),
            },
        },
{
    lemma_record_at(text, k);
    lemma_line_meaning(line_text(text, k));
}

/// When a line is rejected: it is not well written, or it declares a vertex
/// id that an earlier line declares, or a face with the same three corners
/// as an earlier face.
pub proof fn lemma_line_error_meaning(text: Seq<char>, k: int)
    requires
        0 <= k < lines(text).len(),
    ensures
        line_error(text, k) is Some <==> {
            ||| !well_written(tokens(line_text(text, k)))
            ||| line_vertex(line_text(text, k)) is Some && exists|j: int|
                0 <= j < k && #[trigger] line_vertex(line_text(text, j)) == line_vertex(
                    line_text(text, k),
                )
            ||| line_face(line_text(text, k)) is Some && exists|j: int|
                0 <= j < k && (#[trigger] line_face(line_text(text, j))) is Some && corner_set(
                    line_face(line_text(text, j))->0,
                ) == corner_set(line_face(line_text(text, k))->0)
        },
{
    let l = line_text(text, k);
    lemma_record_at(text, k);
    lemma_line_meaning(l);
    if !well_written(tokens(l)) {
        if line_declares(l) is Ok {
            lemma_declares_well_written(l);
        }
        return;
    }
    lemma_well_written_record(text, k);
    if let Some(x) = line_vertex(l) {
        lemma_declared_vertex_lines(text, k, x);
        if exists|j: int| 0 <= j < k && #[trigger] line_vertex(line_text(text, j)) == line_vertex(l) {
            let j = choose|j: int| 0 <= j < k && #[trigger] line_vertex(line_text(text, j)) == line_vertex(l);
            lemma_well_written_record_any(text, j);
            assert(record_at(text, j) == Ok::<Option<Declaration>, Seq<char>>(
                Some(Declaration::Vertex(x)),
            ));
        }
        if declared_vertices(text, k).contains(x) {
            let j = choose|j: int|
                0 <= j < k && #[trigger] record_at(text, j) == Ok::<Option<Declaration>, Seq<char>>(
                    Some(Declaration::Vertex(x)),
                );
            lemma_record_at(text, j);
            lemma_line_meaning(line_text(text, j));
            if !well_written(tokens(line_text(text, j))) {
                lemma_declares_well_written(line_text(text, j));
            }
            lemma_well_written_record(text, j);
            assert(line_vertex(line_text(text, j)) == Some(x));
        }
    } else if let Some(t) = line_face(l) {
        lemma_declared_face_lines(text, k);
        let df = declared_faces(text, k);
        if exists|j: int|
            0 <= j < k && (#[trigger] line_face(line_text(text, j))) is Some && corner_set(
                line_face(line_text(text, j))->0,
            ) == corner_set(t) {
            let j = choose|j: int|
                0 <= j < k && (#[trigger] line_face(line_text(text, j))) is Some && corner_set(
                    line_face(line_text(text, j))->0,
                ) == corner_set(t);
            let u = line_face(line_text(text, j))->0;
            lemma_well_written_record_any(text, j);
            lemma_face_line_declared(text, j, k, u.0, u.1, u.2);
            let i = choose|i: int| 0 <= i < df.len() && df[i] == u;
            assert(corner_set(u).contains(t.0) && corner_set(u).contains(t.1) && corner_set(
                u,
            ).contains(t.2));
            assert(corner_set(t).contains(u.0) && corner_set(t).contains(u.1) && corner_set(
                t,
            ).contains(u.2));
            assert(same_vertex_set(df[i], t));
        }
        if exists|i: int| 0 <= i < df.len() && same_vertex_set(#[trigger] df[i], t) {
            let i = choose|i: int| 0 <= i < df.len() && same_vertex_set(#[trigger] df[i], t);
            let j = choose|j: int|
                0 <= j < k && #[trigger] record_at(text, j) == Ok::<Option<Declaration>, Seq<char>>(
                    Some(Declaration::Face(df[i].0, df[i].1, df[i].2)),
                );
            lemma_record_at(text, j);
            lemma_line_meaning(line_text(text, j));
            if !well_written(tokens(line_text(text, j))) {
                lemma_declares_well_written(line_text(text, j));
            }
            lemma_well_written_record(text, j);
            assert(line_face(line_text(text, j)) == Some(df[i]));
            assert(corner_set(df[i]) =~= corner_set(t));
        }
    }
}

/// A line whose words declare a vertex or a face is well written.
proof fn lemma_well_written_record_any(text: Seq<char>, j: int)
    requires
        0 <= j < lines(text).len(),
        line_vertex(line_text(text, j)) is Some || line_face(line_text(text, j)) is Some,
    ensures
        line_vertex(line_text(text, j)) is Some ==> record_at(text, j) == Ok::<
            Option<Declaration>,
            Seq<char>,
        >(Some(Declaration::Vertex(line_vertex(line_text(text, j))->0))),
        line_vertex(line_text(text, j)) is None ==> record_at(text, j) == Ok::<
            Option<Declaration>,
            Seq<char>,
        >(
            Some(
                Declaration::Face(
                    (line_face(line_text(text, j))->0).0,
                    (line_face(line_text(text, j))->0).1,
                    (line_face(line_text(text, j))->0).2,
                ),
            ),
        ),
{
    lemma_record_at(text, j);
    lemma_line_meaning(line_text(text, j));
}

/// An error on a line names the first rejected line, with its reason.
pub proof fn lemma_read_error_line(text: Seq<char>)
    requires
        read_outcome(text) is Err,
        read_outcome(text)->Err_0.0 > 0,
    ensures
        ({
            let (l, m) = read_outcome(text)->Err_0;
            &&& l <= lines(text).len()
            &&& line_error(text, l - 1) == Some(m)
            &&& forall|j: int| 0 <= j < l - 1 ==> #[trigger] line_error(text, j) is None
        }),
{
    let n = lines(text).len() as int;
    lemma_first_error(text, n);
}

proof fn lemma_digits_leading_zero(t: Seq<char>)
    ensures
        digits_value(seq!['0'] + t) == digits_value(t),
    decreases t.len(),
{
    if t.len() > 0 {
        lemma_digits_leading_zero(t.drop_last());
        assert((seq!['0'] + t).drop_last() =~= seq!['0'] + t.drop_last());
    } else {
        assert((seq!['0'] + t).drop_last() =~= t);
    }
}

/// Vertex ids: a word is an id only when it is a non-empty run of decimal
/// digits; a leading zero changes nothing; a digit written after an id `x`
/// gives `10 x + digit`, or no id when that exceeds 64 bits.
pub proof fn lemma_vertex_id_laws(t: Seq<char>, c: char)
    ensures
        vertex_id(t) is Some ==> t.len() > 0 && forall|i: int| 0 <= i < t.len() ==> '0' <= #[trigger] t[i] <= '9',
        t.len() > 0 ==> vertex_id(seq!['0'] + t) == vertex_id(t),
        vertex_id(t) is Some && '0' <= c <= '9' ==> vertex_id(t.push(c)) == if 10 * (vertex_id(t)->0)
            + (c as int - 48) <= u64::MAX {
            Some((10 * (vertex_id(t)->0) + (c as int - 48)) as u64)
        } else {
            None::<u64>
        },
{
    if t.len() > 0 {
        lemma_digits_leading_zero(t);
        let z = seq!['0'] + t;
        assert(forall|i: int| 0 <= i < t.len() ==> z[i + 1] == t[i]);
        assert((forall|i: int| 0 <= i < z.len() ==> crate::syntax::is_digit(#[trigger] z[i])) <==> (
        forall|i: int| 0 <= i < t.len() ==> crate::syntax::is_digit(#[trigger] t[i]))) by {
            if forall|i: int| 0 <= i < t.len() ==> crate::syntax::is_digit(#[trigger] t[i]) {
                assert forall|i: int| 0 <= i < z.len() implies crate::syntax::is_digit(#[trigger] z[i]) by {
                    if i > 0 {
                        assert(z[i] == t[i - 1]);
                    }
                }
            }
        }
    }
    if vertex_id(t) is Some && '0' <= c <= '9' {
        let u = t.push(c);
        assert(u.drop_last() =~= t);
        assert forall|i: int| 0 <= i < u.len() implies crate::syntax::is_digit(#[trigger] u[i]) by {
            if i < t.len() {
                assert(u[i] == t[i]);
            }
        }
    }
}

} // verus!
