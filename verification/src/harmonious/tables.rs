use crate::graph::Graph;
use crate::harmonious::model::{assigned, has_arc, joined, partial};
use crate::harmonious::pairs::{square, table_set};
use vstd::prelude::*;

verus! {

/// The table of the graph's edges: cell `(v, w)` says whether `v` and `w` are
/// joined.
pub open spec fn links_match(links: Seq<Vec<bool>>, adj: Seq<Seq<usize>>) -> bool {
    &&& square(links, adj.len())
    &&& forall|v: int, w: int|
        0 <= v < adj.len() && 0 <= w < adj.len() ==> (#[trigger] links[v]@[w]) == joined(adj, v, w)
}

/// Sets the cells of the unordered pair `{a, b}` in a square table.
pub(crate) fn set_cells(t: &mut Vec<Vec<bool>>, a: usize, b: usize, val: bool, Ghost(n): Ghost<nat>)
    requires
        square(old(t)@, n),
        a < n,
        b < n,
    ensures
        table_set(old(t)@, final(t)@, n, a as int, b as int, val),
{
    t[a][b] = val;
    t[b][a] = val;
}

/// A table of `n` rows of `n` cells, none of them set.
pub(crate) fn blank_table(n: usize) -> (t: Vec<Vec<bool>>)
    ensures
        square(t@, n as nat),
        forall|a: int, b: int| 0 <= a < n && 0 <= b < n ==> !(#[trigger] t@[a]@[b]),
{
    let mut t: Vec<Vec<bool>> = Vec::new();
    let mut a: usize = 0;
    while a < n
        invariant
            a <= n,
            t@.len() == a,
            forall|i: int| 0 <= i < a ==> (#[trigger] t@[i])@.len() == n,
            forall|i: int, j: int| 0 <= i < a && 0 <= j < n ==> !(#[trigger] t@[i]@[j]),
        decreases n - a,
    {
        let mut row: Vec<bool> = Vec::new();
        let mut b: usize = 0;
        while b < n
            invariant
                b <= n,
                row@.len() == b,
                forall|j: int| 0 <= j < b ==> !(#[trigger] row@[j]),
            decreases n - b,
        {
            row.push(false);
            b += 1;
        }
        t.push(row);
        a += 1;
    }
    t
}

/// The arc from `a` to `b` stands in the part of the neighbour lists that comes
/// before entry `i` of the list of `v`.
pub open spec fn arc_seen(adj: Seq<Seq<usize>>, a: int, b: int, v: int, i: int) -> bool {
    ||| (a < v && has_arc(adj, a, b))
    ||| (a == v && 0 <= v < adj.len() && exists|j: int|
        0 <= j < i && j < adj[v].len() && #[trigger] adj[v][j] == b)
}

/// The table of the graph's edges, read off its neighbour lists.
pub(crate) fn link_table<const MAX_N: usize>(graph: &Graph<MAX_N>) -> (links: Vec<Vec<bool>>)
    requires
        graph.wf(),
    ensures
        links_match(links@, graph@),
{
    let ghost adj = graph@;
    let n = graph.n;
    let mut links = blank_table(n);
    let mut v: usize = 0;
    while v < n
        invariant
            graph.wf(),
            adj == graph@,
            n == graph.n,
            v <= n,
            square(links@, n as nat),
            forall|a: int, b: int|
                0 <= a < n && 0 <= b < n ==> (#[trigger] links@[a]@[b]) == (arc_seen(
                    adj,
                    a,
                    b,
                    v as int,
                    0,
                ) || arc_seen(adj, b, a, v as int, 0)),
        decreases n - v,
    {
        let deg = graph.adj_list[v].len();
        let mut i: usize = 0;
        while i < deg
            invariant
                graph.wf(),
                adj == graph@,
                n == graph.n,
                v < n,
                deg == adj[v as int].len(),
                i <= deg,
                square(links@, n as nat),
                forall|a: int, b: int|
                    0 <= a < n && 0 <= b < n ==> (#[trigger] links@[a]@[b]) == (arc_seen(
                        adj,
                        a,
                        b,
                        v as int,
                        i as int,
                    ) || arc_seen(adj, b, a, v as int, i as int)),
            decreases deg - i,
        {
            let w = graph.adj_list[v][i];
            set_cells(&mut links, v, w, true, Ghost(n as nat));
            i += 1;
        }
        v += 1;
    }
    links
}

/// The colours of a complete colouring.
pub(crate) fn colors_of(coloring: &Vec<Option<usize>>) -> (colors: Vec<usize>)
    requires
        partial(coloring@, coloring@.len() as int),
    ensures
        colors@ == assigned(coloring@, coloring@.len() as int),
{
    let mut colors: Vec<usize> = Vec::new();
    let mut i: usize = 0;
    while i < coloring.len()
        invariant
            partial(coloring@, coloring@.len() as int),
            i <= coloring@.len(),
            colors@ == assigned(coloring@, i as int),
        decreases coloring@.len() - i,
    {
        colors.push(coloring[i].unwrap());
        i += 1;
    }
    colors
}

/// A colouring of `n` vertices in which no vertex has a colour yet.
pub(crate) fn uncolored(n: usize) -> (coloring: Vec<Option<usize>>)
    ensures
        coloring@.len() == n,
        partial(coloring@, 0),
{
    let mut coloring: Vec<Option<usize>> = Vec::new();
    let mut i: usize = 0;
    while i < n
        invariant
            i <= n,
            coloring@.len() == i,
            partial(coloring@, 0),
        decreases n - i,
    {
        coloring.push(None);
        i += 1;
    }
    coloring
}

} // verus!
