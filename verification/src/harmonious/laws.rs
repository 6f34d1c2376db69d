use crate::harmonious::lemmas::{
    lemma_canonical_count, lemma_loop_invalid, lemma_rainbow_valid, lemma_relabel,
    lemma_relabel_first, lemma_same_pattern_valid, lemma_span_above, lemma_span_attained, rainbow,
    relabel,
};
use crate::harmonious::model::{
    canonical, color_count, first_minimal_coloring, harmonious, has_loop, lex_le, proper, span,
    valid_coloring,
};
use vstd::prelude::*;

verus! {

/// The order of a dictionary has no two distinct sequences that each come
/// before the other.
pub proof fn lemma_lex_antisymmetric(a: Seq<usize>, b: Seq<usize>)
    requires
        lex_le(a, b),
        lex_le(b, a),
    ensures
        a == b,
{
    if a != b {
        let i = choose|i: int|
            0 <= i < a.len() && i < b.len() && #[trigger] a.take(i) == b.take(i) && a[i] < b[i];
        let j = choose|j: int|
            0 <= j < b.len() && j < a.len() && #[trigger] b.take(j) == a.take(j) && b[j] < a[j];
        if i < j {
            assert(a.take(j)[i] == b.take(j)[i]);
        } else if j < i {
            assert(a.take(i)[j] == b.take(i)[j]);
        }
    }
}

/// A graph has at most one first minimal colouring: what the search returns
/// depends on the graph alone, not on what was searched before.
pub proof fn lemma_first_minimal_unique(adj: Seq<Seq<usize>>, c: Seq<usize>, d: Seq<usize>)
    requires
        first_minimal_coloring(adj, c),
        first_minimal_coloring(adj, d),
    ensures
        c == d,
{
    lemma_lex_antisymmetric(c, d);
}

/// A first minimal colouring colours every vertex, joins no two vertices of
/// one colour, gives no two edges the same pair of colours, and no harmonious
/// colouring of the graph has fewer colours.
pub proof fn lemma_first_minimal_is_minimal(adj: Seq<Seq<usize>>, c: Seq<usize>)
    requires
        first_minimal_coloring(adj, c),
    ensures
        c.len() == adj.len(),
        proper(adj, c),
        harmonious(adj, c),
        forall|d: Seq<usize>| #[trigger]
            valid_coloring(adj, d) ==> color_count(c) <= color_count(d),
{
}

/// A first minimal colouring takes its colours into use in increasing order:
/// the first vertex has colour 0, and each vertex has a colour of an earlier
/// vertex or the least colour that no earlier vertex has.
pub proof fn lemma_first_minimal_canonical(adj: Seq<Seq<usize>>, c: Seq<usize>)
    requires
        first_minimal_coloring(adj, c),
        adj.len() <= usize::MAX,
    ensures
        canonical(c),
{
    let e = relabel(c);
    lemma_relabel(c);
    lemma_same_pattern_valid(adj, c, e);
    lemma_canonical_count(e);
    lemma_relabel_first(c);
    lemma_lex_antisymmetric(c, e);
}

/// In a first minimal colouring the number of colours is one more than the
/// largest colour: the colours are exactly `0..span(c)`.
pub proof fn lemma_first_minimal_count(adj: Seq<Seq<usize>>, c: Seq<usize>)
    requires
        first_minimal_coloring(adj, c),
        adj.len() <= usize::MAX,
    ensures
        color_count(c) == span(c),
        forall|i: int| 0 <= i < c.len() ==> (#[trigger] c[i]) < span(c),
        c.len() > 0 ==> exists|i: int| 0 <= i < c.len() && #[trigger] c[i] + 1 == span(c),
{
    lemma_first_minimal_canonical(adj, c);
    lemma_canonical_count(c);
    assert forall|i: int| 0 <= i < c.len() implies (#[trigger] c[i]) < span(c) by {
        lemma_span_above(c, i);
    }
    if c.len() > 0 {
        lemma_span_attained(c);
    }
}

/// A graph has a harmonious colouring if and only if no vertex is its own
/// neighbour.
pub proof fn lemma_colorable_iff_loop_free(adj: Seq<Seq<usize>>)
    requires
        adj.len() <= usize::MAX,
    ensures
        !has_loop(adj) <==> exists|c: Seq<usize>| #[trigger] valid_coloring(adj, c),
{
    if !has_loop(adj) {
        lemma_rainbow_valid(adj);
    }
}

} // verus!
