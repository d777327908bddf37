//! Counting edges of a mesh whose edges are sound.

use vstd::prelude::*;
use vstd::relations::injective_on;
use vstd::set_lib::{
    lemma_int_range, lemma_len_subset, lemma_map_size, lemma_set_disjoint_lens, set_int_range,
};

use crate::topology::{edge_key, edge_set, edges_sound, head, num_sides, reverse_side, tail};
use crate::turns::{lemma_reverse, lemma_reverse_involution, lemma_same_edge, lemma_sound_side};

verus! {

/// The sides among the first `n` that run from a smaller to a larger id.
pub open spec fn forward_sides(faces: Seq<[u64; 3]>, n: int) -> Set<int> {
    Set::new(|d: int| 0 <= d < n && tail(faces, d) < head(faces, d))
}

/// The sides that run from a larger to a smaller id.
pub open spec fn backward_sides(faces: Seq<[u64; 3]>) -> Set<int> {
    Set::new(|d: int| 0 <= d < num_sides(faces) && tail(faces, d) > head(faces, d))
}

pub proof fn lemma_forward_sides_finite(faces: Seq<[u64; 3]>, n: int)
    requires
        0 <= n,
    ensures
        forward_sides(faces, n).finite(),
        forward_sides(faces, n).len() <= n,
{
    lemma_int_range(0, n);
    lemma_len_subset(forward_sides(faces, n), set_int_range(0, n));
}

/// On sound edges, each undirected edge has exactly one side running forward.
pub proof fn lemma_edge_count(faces: Seq<[u64; 3]>)
    requires
        edges_sound(faces),
    ensures
        edge_set(faces).finite(),
        edge_set(faces).len() == forward_sides(faces, num_sides(faces)).len(),
{
    let n = num_sides(faces);
    let fwd = forward_sides(faces, n);
    let key = |d: int| edge_key(faces, d);
    lemma_forward_sides_finite(faces, n);
    assert(injective_on(key, fwd)) by {
        assert forall|d1: int, d2: int|
            fwd.contains(d1) && fwd.contains(d2) && #[trigger] key(d1) == #[trigger] key(d2) implies d1
            == d2 by {
            lemma_same_edge(faces, d1, d2);
            lemma_reverse(faces, d1);
        }
    }
    assert(fwd.map(key) =~= edge_set(faces)) by {
        assert forall|k: (u64, u64)| edge_set(faces).contains(k) implies fwd.map(key).contains(k) by {
            let d = choose|d: int| 0 <= d < n && #[trigger] edge_key(faces, d) == k;
            lemma_sound_side(faces, d);
            if tail(faces, d) < head(faces, d) {
                assert(fwd.contains(d) && k == key(d));
            } else {
                lemma_reverse(faces, d);
                let r = reverse_side(faces, d);
                assert(fwd.contains(r) && k == key(r));
            }
        }
    }
    lemma_map_size(fwd, edge_set(faces), key);
}

/// On sound edges, half of all sides run forward: twice the number of edges is
/// three times the number of faces.
pub proof fn lemma_edges_pair_sides(faces: Seq<[u64; 3]>)
    requires
        edges_sound(faces),
    ensures
        2 * edge_set(faces).len() == num_sides(faces),
{
    let n = num_sides(faces);
    let fwd = forward_sides(faces, n);
    let bwd = backward_sides(faces);
    let rev = |d: int| reverse_side(faces, d);
    lemma_edge_count(faces);
    lemma_forward_sides_finite(faces, n);
    lemma_int_range(0, n);
    lemma_len_subset(bwd, set_int_range(0, n));
    assert(injective_on(rev, fwd)) by {
        assert forall|d1: int, d2: int|
            fwd.contains(d1) && fwd.contains(d2) && #[trigger] rev(d1) == #[trigger] rev(d2) implies d1
            == d2 by {
            lemma_reverse_involution(faces, d1);
            lemma_reverse_involution(faces, d2);
        }
    }
    assert(fwd.map(rev) =~= bwd) by {
        assert forall|d: int| fwd.map(rev).contains(d) implies bwd.contains(d) by {
            let e = choose|e: int| fwd.contains(e) && d == rev(e);
            lemma_reverse(faces, e);
        }
        assert forall|d: int| bwd.contains(d) implies fwd.map(rev).contains(d) by {
            lemma_reverse(faces, d);
            lemma_reverse_involution(faces, d);
            let r = reverse_side(faces, d);
            assert(fwd.contains(r) && d == rev(r));
        }
    }
    lemma_map_size(fwd, bwd, rev);
    assert(fwd + bwd =~= set_int_range(0, n)) by {
        assert forall|d: int| set_int_range(0, n).contains(d) implies (fwd + bwd).contains(d) by {
            lemma_sound_side(faces, d);
        }
    }
    lemma_set_disjoint_lens(fwd, bwd);
}

} // verus!
