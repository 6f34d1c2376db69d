use vstd::prelude::*;

verus! {

/// `w` stands in the neighbour list of `v`.
pub open spec fn has_arc(adj: Seq<Seq<usize>>, v: int, w: int) -> bool {
    0 <= v < adj.len() && exists|i: int| 0 <= i < adj[v].len() && #[trigger] adj[v][i] == w
}

/// `v` and `w` are the ends of an edge: one of them lists the other. The relation
/// is symmetric whether or not the neighbour lists are, and a neighbour that is
/// listed twice gives one edge.
pub open spec fn joined(adj: Seq<Seq<usize>>, v: int, w: int) -> bool {
    has_arc(adj, v, w) || has_arc(adj, w, v)
}

/// Some vertex is its own neighbour.
pub open spec fn has_loop(adj: Seq<Seq<usize>>) -> bool {
    exists|v: int| 0 <= v < adj.len() && #[trigger] joined(adj, v, v)
}

/// `{a, b}` and `{c, d}` are the same unordered pair.
pub open spec fn same_pair(a: int, b: int, c: int, d: int) -> bool {
    (a == c && b == d) || (a == d && b == c)
}

/// No edge between two of the vertices `0..c.len()` has both ends in one colour.
pub open spec fn proper(adj: Seq<Seq<usize>>, c: Seq<usize>) -> bool {
    forall|v: int, w: int|
        0 <= v < c.len() && 0 <= w < c.len() && #[trigger] joined(adj, v, w) ==> c[v] != c[w]
}

/// Among the edges between the vertices `0..c.len()`, no two distinct edges carry
/// the same unordered pair of colours.
pub open spec fn harmonious(adj: Seq<Seq<usize>>, c: Seq<usize>) -> bool {
    forall|v: int, w: int, x: int, y: int|
        0 <= v < c.len() && 0 <= w < c.len() && 0 <= x < c.len() && 0 <= y < c.len()
            && #[trigger] joined(adj, v, w) && #[trigger] joined(adj, x, y) && same_pair(
            c[v] as int,
            c[w] as int,
            c[x] as int,
            c[y] as int,
        ) ==> same_pair(v, w, x, y)
}

/// `c` colours the first `c.len()` vertices of the graph properly and harmoniously.
pub open spec fn valid_prefix(adj: Seq<Seq<usize>>, c: Seq<usize>) -> bool {
    c.len() <= adj.len() && proper(adj, c) && harmonious(adj, c)
}

/// `c` is a harmonious colouring of the whole graph.
pub open spec fn valid_coloring(adj: Seq<Seq<usize>>, c: Seq<usize>) -> bool {
    c.len() == adj.len() && proper(adj, c) && harmonious(adj, c)
}

/// The number of distinct colours that occur in `c`.
pub open spec fn color_count(c: Seq<usize>) -> nat {
    c.to_set().len()
}

/// One more than the largest colour in `c`; zero for the empty sequence.
pub open spec fn span(c: Seq<usize>) -> nat
    decreases c.len(),
{
    if c.len() == 0 {
        0
    } else if c.last() + 1 > span(c.drop_last()) {
        (c.last() + 1) as nat
    } else {
        span(c.drop_last())
    }
}

/// Colours are taken into use in increasing order: each vertex has a colour that
/// an earlier vertex has, or the least colour that no earlier vertex has.
pub open spec fn canonical(c: Seq<usize>) -> bool {
    forall|i: int| 0 <= i < c.len() ==> (#[trigger] c[i]) <= span(c.take(i))
}

/// `a` equals `b`, or comes before it in the order of a dictionary: at the
/// first place where the two differ, `a` has the smaller entry.
pub open spec fn lex_le(a: Seq<usize>, b: Seq<usize>) -> bool {
    a == b || exists|i: int|
        0 <= i < a.len() && i < b.len() && #[trigger] a.take(i) == b.take(i) && a[i] < b[i]
}

/// A harmonious colouring of the whole graph that takes its colours into use in
/// increasing order.
pub open spec fn candidate(adj: Seq<Seq<usize>>, c: Seq<usize>) -> bool {
    valid_coloring(adj, c) && canonical(c)
}

/// What the search returns for a graph that can be coloured: a harmonious
/// colouring with as few colours as any harmonious colouring has, and among
/// all such the first in the order of a dictionary.
pub open spec fn first_minimal_coloring(adj: Seq<Seq<usize>>, c: Seq<usize>) -> bool {
    &&& valid_coloring(adj, c)
    &&& forall|d: Seq<usize>| #[trigger] valid_coloring(adj, d) ==> color_count(c) <= color_count(d)
    &&& forall|d: Seq<usize>| #[trigger]
        valid_coloring(adj, d) && color_count(d) == color_count(c) ==> lex_le(c, d)
}

/// The first `k` vertices have a colour and the others have none.
pub open spec fn partial(cur: Seq<Option<usize>>, k: int) -> bool {
    &&& 0 <= k <= cur.len()
    &&& forall|i: int| 0 <= i < cur.len() ==> ((#[trigger] cur[i]) is Some <==> i < k)
}

/// The colours of the first `k` vertices.
pub open spec fn assigned(cur: Seq<Option<usize>>, k: int) -> Seq<usize> {
    Seq::new(k as nat, |i: int| cur[i].unwrap())
}

/// `p` without its last vertex; the empty sequence stays as it is.
pub open spec fn base_of(p: Seq<usize>) -> Seq<usize> {
    if p.len() == 0 {
        p
    } else {
        p.drop_last()
    }
}

} // verus!
