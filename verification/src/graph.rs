//! Graphs as neighbour lists, and the text format that they are read from:
//! a header line with the number of vertices of each graph and the number of
//! graphs, then for each graph a line with its name and one line for each
//! vertex, which holds the vertex and its neighbours, counted from one. Empty
//! lines count for nothing.

pub use crate::graph::lines::FilterNewLine;
pub use crate::graph::parser::{parse_file, Detail, ParseError, ParseIterator};
use vstd::prelude::*;
use vstd::slice::slice_subrange;

pub mod laws;
pub mod lines;
pub mod parser;
pub mod text;

verus! {

/// An undirected graph on the vertices `0..n`, held as one neighbour list per
/// vertex. `MAX_N` bounds the number of vertices a value of this type may have.
pub struct Graph<const MAX_N: usize> {
    pub adj_list: Vec<Vec<usize>>,
    pub n: usize,
}

impl<const MAX_N: usize> View for Graph<MAX_N> {
    type V = Seq<Seq<usize>>;

    /// The neighbour lists, by vertex.
    open spec fn view(&self) -> Seq<Seq<usize>> {
        Seq::new(self.adj_list@.len(), |v: int| self.adj_list@[v]@)
    }
}

/// The neighbour lists of the graph on `n` vertices without edges.
pub open spec fn no_edges(n: nat) -> Seq<Seq<usize>> {
    Seq::new(n, |v: int| Seq::<usize>::empty())
}

/// Every entry of every neighbour list is a vertex.
pub open spec fn closed_lists(adj: Seq<Seq<usize>>) -> bool {
    forall|v: int, i: int|
        0 <= v < adj.len() && 0 <= i < adj[v].len() ==> (#[trigger] adj[v][i]) < adj.len()
}

impl<const MAX_N: usize> Graph<MAX_N> {
    /// There are at most `MAX_N` vertices, each has a neighbour list, and every
    /// neighbour is a vertex.
    pub open spec fn wf(&self) -> bool {
        &&& self.n <= MAX_N
        &&& self.adj_list@.len() == self.n
        &&& closed_lists(self@)
    }

    /// The graph on `n` vertices without edges.
    pub fn new(n: usize) -> (g: Self)
        requires
            n <= MAX_N,
        ensures
            g.wf(),
            g.n == n,
            g@ == no_edges(n as nat),
    {
        let mut adj_list: Vec<Vec<usize>> = Vec::new();
        let mut i: usize = 0;
        while i < n
            invariant
                i <= n,
                adj_list@.len() == i,
                forall|v: int| 0 <= v < i ==> (#[trigger] adj_list@[v])@ == Seq::<usize>::empty(),
            decreases n - i,
        {
            adj_list.push(Vec::new());
            i += 1;
        }
        let g = Graph { adj_list, n };
        g
    }

    /// The neighbour lists of the vertices `0..n`, in order.
    pub fn iter(&self) -> (lists: &[Vec<usize>])
        ensures
            lists@ == self.adj_list@.take(
                if self.n <= self.adj_list@.len() {
                    self.n as int
                } else {
                    self.adj_list@.len() as int
                },
            ),
    {
        let lists = self.adj_list.as_slice();
        if self.n <= lists.len() {
            slice_subrange(lists, 0, self.n)
        } else {
            lists
        }
    }

    /// Replaces the neighbour list of `v`.
    pub fn set_neighbors(&mut self, v: usize, neighbors: Vec<usize>)
        requires
            v < old(self).adj_list@.len(),
        ensures
            final(self).n == old(self).n,
            final(self)@ == old(self)@.update(v as int, neighbors@),
            old(self).wf() && (forall|i: int|
                0 <= i < neighbors@.len() ==> (#[trigger] neighbors@[i]) < old(self).n)
                ==> final(self).wf(),
    {
        self.adj_list[v] = neighbors;
        assert(self@ =~= old(self)@.update(v as int, neighbors@));
    }

    /// The neighbour list of `v`.
    pub fn get_neighbors(&self, v: usize) -> (neighbors: &[usize])
        requires
            v < self.adj_list@.len(),
        ensures
            neighbors@ == self@[v as int],
    {
        self.adj_list[v].as_slice()
    }
}

} // verus!
