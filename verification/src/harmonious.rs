//! The search for a harmonious colouring with the fewest colours: vertices are
//! coloured in the order of their numbers, each with a colour that is in use
//! or with the next unused one, and a branch is left as soon as an edge breaks
//! a rule or the branch cannot beat the best colouring found so far. The pairs
//! of colours on the edges between coloured vertices are kept in a table,
//! which every branch leaves as it found it.

use crate::graph::Graph;
use crate::harmonious::lemmas::{
    lemma_canonical_below, lemma_canonical_count, lemma_canonical_push,
    lemma_canonical_span_le_len, lemma_span_above, lemma_span_push,
};
use crate::harmonious::model::{
    assigned, base_of, canonical, color_count, harmonious, has_loop, joined, lex_le, partial,
    proper, span, valid_coloring, valid_prefix,
};
use crate::harmonious::pairs::{
    extension_ok, lemma_add_step, lemma_collision, lemma_extension_valid, lemma_remove_step,
    lemma_skip_step, lemma_table_full, lemma_table_start, lemma_tables_agree, same_cells,
    table_holds, table_of,
};
use crate::harmonious::search::{
    any_color, best_ok, lemma_search_exit, lemma_search_leaf, lemma_search_reject,
    lemma_search_result, lemma_search_start, lemma_search_step, lemma_valid_extension_ok, searched,
    Best,
};
use crate::harmonious::tables::{
    blank_table, colors_of, link_table, links_match, set_cells, uncolored,
};
use vstd::prelude::*;

pub mod laws;
pub mod lemmas;
pub mod model;
pub mod pairs;
pub mod search;
pub mod tables;

verus! {

/// What the search knows when it looks at a partial colouring: the first `k`
/// vertices are coloured, their colours were taken into use in increasing
/// order, and the colouring was valid before the last of them got its colour.
#[verifier::opaque]
pub open spec fn search_state(
    adj: Seq<Seq<usize>>,
    links: Seq<Vec<bool>>,
    cur: Seq<Option<usize>>,
    k: int,
) -> bool {
    &&& links_match(links, adj)
    &&& cur.len() == adj.len()
    &&& partial(cur, k)
    &&& canonical(assigned(cur, k))
    &&& valid_prefix(adj, base_of(assigned(cur, k)))
}

/// The number of colours of a colouring that uses the colours `0..h`: one more
/// than its largest colour. An empty colouring has none, and neither has one
/// whose number of colours does not fit the machine's word.
pub fn num_colors(coloring: &[usize]) -> (count: Option<usize>)
    ensures
        match count {
            Some(h) => coloring@.len() > 0 && h == span(coloring@),
            None => coloring@.len() == 0 || span(coloring@) > usize::MAX,
        },
{
    if coloring.len() == 0 {
        return None;
    }
    let mut h: usize = 0;
    let mut i: usize = 0;
    while i < coloring.len()
        invariant
            i <= coloring@.len(),
            h == span(coloring@.take(i as int)),
        decreases coloring@.len() - i,
    {
        let color = coloring[i];
        assert(coloring@.take(i + 1).drop_last() =~= coloring@.take(i as int));
        if color == usize::MAX {
            proof {
                lemma_span_above(coloring@, i as int);
            }
            return None;
        }
        if color + 1 > h {
            h = color + 1;
        }
        i += 1;
    }
    assert(coloring@.take(i as int) =~= coloring@);
    Some(h)
}

/// The verdict on a partial colouring.
pub enum Test {
    /// An edge breaks a rule: nothing below this colouring is of use.
    Reject,
    /// Every vertex is coloured and no edge breaks a rule.
    Accept,
    /// No edge breaks a rule, and vertices are left to colour.
    Continue,
}

/// The state of one search for a harmonious colouring with the fewest colours.
pub struct HarmoniousColoring {
    min_coloring: Vec<usize>,
    min_num_colors: Option<usize>,
    pairs_colors: Vec<Vec<bool>>,
}

impl HarmoniousColoring {
    /// The best colouring found so far.
    pub closed spec fn best(&self) -> Best {
        Best { count: self.min_num_colors, coloring: self.min_coloring@ }
    }

    /// The pair of colours `{a, b}` is recorded as realized by an edge.
    pub closed spec fn recorded(&self, a: int, b: int) -> bool {
        &&& 0 <= a < self.pairs_colors@.len()
        &&& 0 <= b < self.pairs_colors@[a]@.len()
        &&& self.pairs_colors@[a]@[b]
    }

    /// A search state in which nothing is found and no pair is recorded.
    pub fn new() -> (s: Self)
        ensures
            s.best() == (Best { count: None, coloring: Seq::<usize>::empty() }),
            forall|a: int, b: int| !s.recorded(a, b),
    {
        let pairs_colors: Vec<Vec<bool>> = Vec::new();
        let min_coloring: Vec<usize> = Vec::new();
        let min_num_colors: Option<usize> = None;
        Self { min_coloring, min_num_colors, pairs_colors }
    }

    /// A harmonious colouring of `graph` with the fewest colours: entry `v` is
    /// the colour of vertex `v`. It is empty if the graph has no harmonious
    /// colouring, which is so exactly when a vertex is its own neighbour.
    pub fn minimal_coloring<const MAX_N: usize>(self, graph: Graph<MAX_N>) -> (coloring: Vec<usize>)
        requires
            graph.wf(),
        ensures
            has_loop(graph@) ==> coloring@.len() == 0,
            !has_loop(graph@) ==> {
                &&& coloring@.len() == graph.n
                &&& proper(graph@, coloring@)
                &&& harmonious(graph@, coloring@)
                &&& forall|d: Seq<usize>| #[trigger]
                    valid_coloring(graph@, d) ==> color_count(coloring@) <= color_count(d)
                &&& forall|d: Seq<usize>| #[trigger]
                    valid_coloring(graph@, d) && color_count(d) == color_count(coloring@)
                        ==> lex_le(coloring@, d)
                &&& canonical(coloring@)
                &&& color_count(coloring@) == span(coloring@)
            },
    {
        let mut state = self;
        let links = link_table(&graph);
        state.min_coloring = Vec::new();
        state.min_num_colors = None;
        state.pairs_colors = blank_table(graph.n);
        let mut current_coloring = uncolored(graph.n);
        let num_visited: usize = 0;
        let num_colors: usize = 0;
        proof {
            reveal(search_state);
            assert(assigned(current_coloring@, 0) =~= Seq::<usize>::empty());
        }
        state.find_minimal(&links, &mut current_coloring, num_visited, num_colors, Ghost(graph@));
        proof {
            lemma_search_result(graph@, state.best());
            if !has_loop(graph@) {
                lemma_canonical_count(state.min_coloring@);
            }
        }
        state.min_coloring
    }

    /// Goes through the candidates that extend the partial colouring, and
    /// records the first of them that has fewer colours than the record.
    fn find_minimal(
        &mut self,
        links: &Vec<Vec<bool>>,
        current_coloring: &mut Vec<Option<usize>>,
        num_visited: usize,
        num_colors: usize,
        Ghost(adj): Ghost<Seq<Seq<usize>>>,
    )
        requires
            search_state(adj, links@, old(current_coloring)@, num_visited as int),
            num_colors == span(assigned(old(current_coloring)@, num_visited as int)),
            table_of(
                old(self).pairs_colors@,
                adj.len(),
                adj,
                base_of(assigned(old(current_coloring)@, num_visited as int)),
            ),
            best_ok(adj, old(self).best()),
        ensures
            final(current_coloring)@ == old(current_coloring)@,
            same_cells(final(self).pairs_colors@, old(self).pairs_colors@),
            table_of(
                final(self).pairs_colors@,
                adj.len(),
                adj,
                base_of(assigned(old(current_coloring)@, num_visited as int)),
            ),
            searched(
                adj,
                assigned(old(current_coloring)@, num_visited as int),
                any_color(),
                old(self).best(),
                final(self).best(),
            ),
        decreases adj.len() - num_visited,
    {
        let ghost p = assigned(current_coloring@, num_visited as int);
        let ghost entry = self.best();
        let ghost cur0 = current_coloring@;
        let ghost pairs0 = self.pairs_colors@;
        let ghost n = adj.len();
        proof {
            lemma_state_bounds(adj, links@, cur0, num_visited as int);
        }
        match self.test_coloring(links, current_coloring, num_visited, Ghost(adj)) {
            Test::Reject => {
                proof {
                    lemma_search_reject(adj, p, entry);
                    lemma_tables_agree(self.pairs_colors@, pairs0, n, adj, base_of(p));
                }
                return ;
            },
            Test::Accept => {
                let better = match self.min_num_colors {
                    None => true,
                    Some(m) => num_colors < m,
                };
                if better {
                    self.min_num_colors = Some(num_colors);
                    self.min_coloring = colors_of(current_coloring);
                }
                proof {
                    lemma_state_canonical(adj, links@, cur0, num_visited as int);
                    lemma_search_leaf(adj, p, entry, self.best());
                }
            },
            Test::Continue => {
                assert(num_colors <= num_visited < current_coloring.len());
                let possible_colors = match self.min_num_colors {
                    None => num_colors + 1,
                    Some(m) => {
                        proof {
                            lemma_best_positive(adj, entry);
                        }
                        if m - 1 < num_colors + 1 {
                            m - 1
                        } else {
                            num_colors + 1
                        }
                    },
                };
                let v = num_visited;
                let mut color: usize = 0;
                proof {
                    lemma_search_start(adj, p, entry);
                }
                while color < possible_colors
                    invariant
                        search_state(adj, links@, cur0, num_visited as int),
                        valid_prefix(adj, p),
                        current_coloring@ == cur0,
                        p == assigned(cur0, num_visited as int),
                        n == adj.len(),
                        n == current_coloring.len(),
                        v == num_visited,
                        v < n,
                        num_colors == span(p),
                        color <= possible_colors <= num_colors + 1,
                        table_of(self.pairs_colors@, n, adj, p),
                        searched(adj, p, color as int, entry, self.best()),
                    decreases possible_colors - color,
                {
                    let ghost mid = self.best();
                    proof {
                        lemma_descend(adj, links@, cur0, num_visited as int, color);
                    }
                    current_coloring[v] = Some(color);
                    let new_num_colors = if color + 1 > num_colors {
                        color + 1
                    } else {
                        num_colors
                    };
                    self.find_minimal(
                        links,
                        current_coloring,
                        num_visited + 1,
                        new_num_colors,
                        Ghost(adj),
                    );
                    current_coloring[v] = None;
                    proof {
                        lemma_search_step(adj, p, color, entry, mid, self.best());
                    }
                    color += 1;
                }
                proof {
                    lemma_search_exit(adj, p, possible_colors, entry, self.best());
                }
            },
        }
        if num_visited > 0 {
            proof {
                lemma_state_canonical(adj, links@, cur0, num_visited as int);
                lemma_valid_extension_ok(adj, p);
                lemma_table_full(self.pairs_colors@, n, adj, p);
                reveal(search_state);
            }
            self.remove_pairs(links, current_coloring, num_visited, num_visited - 1, Ghost(adj));
        }
        proof {
            lemma_tables_agree(self.pairs_colors@, pairs0, n, adj, base_of(p));
        }
    }

    /// The verdict on the partial colouring whose last vertex has just got its
    /// colour. Unless it is `Reject`, the pairs of colours that this vertex
    /// closes are recorded.
    fn test_coloring(
        &mut self,
        links: &Vec<Vec<bool>>,
        coloring: &Vec<Option<usize>>,
        num_visited: usize,
        Ghost(adj): Ghost<Seq<Seq<usize>>>,
    ) -> (verdict: Test)
        requires
            search_state(adj, links@, coloring@, num_visited as int),
            table_of(
                old(self).pairs_colors@,
                adj.len(),
                adj,
                base_of(assigned(coloring@, num_visited as int)),
            ),
        ensures
            verdict is Reject <==> !valid_prefix(adj, assigned(coloring@, num_visited as int)),
            verdict is Accept ==> partial(coloring@, coloring@.len() as int),
            verdict is Accept <==> valid_prefix(adj, assigned(coloring@, num_visited as int))
                && num_visited == adj.len(),
            verdict is Reject ==> table_of(
                final(self).pairs_colors@,
                adj.len(),
                adj,
                base_of(assigned(coloring@, num_visited as int)),
            ),
            !(verdict is Reject) ==> table_of(
                final(self).pairs_colors@,
                adj.len(),
                adj,
                assigned(coloring@, num_visited as int),
            ),
            final(self).best() == old(self).best(),
    {
        proof {
            reveal(search_state);
        }
        let harmonious = self.is_harmonious(links, coloring, num_visited, Ghost(adj));
        if !harmonious {
            Test::Reject
        } else if num_visited == coloring.len() {
            Test::Accept
        } else {
            Test::Continue
        }
    }

    /// Takes back the pairs that the last coloured vertex closed with its
    /// neighbours below `limit`.
    fn remove_pairs(
        &mut self,
        links: &Vec<Vec<bool>>,
        coloring: &Vec<Option<usize>>,
        num_visited: usize,
        limit: usize,
        Ghost(adj): Ghost<Seq<Seq<usize>>>,
    )
        requires
            links_match(links@, adj),
            coloring@.len() == adj.len(),
            partial(coloring@, num_visited as int),
            canonical(assigned(coloring@, num_visited as int)),
            0 < num_visited,
            limit < num_visited,
            table_holds(
                old(self).pairs_colors@,
                adj.len(),
                adj,
                assigned(coloring@, num_visited as int),
                limit as int,
            ),
            extension_ok(adj, assigned(coloring@, num_visited as int), limit as int),
        ensures
            table_of(
                final(self).pairs_colors@,
                adj.len(),
                adj,
                assigned(coloring@, num_visited as int).drop_last(),
            ),
            final(self).min_coloring == old(self).min_coloring,
            final(self).min_num_colors == old(self).min_num_colors,
    {
        let ghost p = assigned(coloring@, num_visited as int);
        let ghost n = adj.len();
        let v = num_visited - 1;
        let col = coloring[v].unwrap();
        proof {
            lemma_canonical_below(p, v as int);
        }
        let mut w = limit;
        while w > 0
            invariant
                links_match(links@, adj),
                coloring@.len() == adj.len(),
                partial(coloring@, num_visited as int),
                canonical(p),
                p == assigned(coloring@, num_visited as int),
                n == adj.len(),
                v == num_visited - 1,
                col == p[v as int],
                col < n,
                w <= limit < num_visited,
                table_holds(self.pairs_colors@, n, adj, p, w as int),
                extension_ok(adj, p, w as int),
                self.min_coloring == old(self).min_coloring,
                self.min_num_colors == old(self).min_num_colors,
            decreases w,
        {
            w -= 1;
            if links[v][w] {
                let cw = coloring[w].unwrap();
                let ghost before = self.pairs_colors@;
                proof {
                    lemma_canonical_below(p, w as int);
                }
                set_cells(&mut self.pairs_colors, col, cw, false, Ghost(n));
                proof {
                    lemma_remove_step(before, self.pairs_colors@, n, adj, p, w as int);
                }
            } else {
                proof {
                    lemma_skip_step(self.pairs_colors@, n, adj, p, w as int);
                }
            }
        }
    }

    /// Says whether the partial colouring is still proper and harmonious now
    /// that its last vertex has a colour. If it is, the pairs of colours on the
    /// edges from that vertex to the earlier ones are recorded; if not, the
    /// record is left as it was.
    fn is_harmonious(
        &mut self,
        links: &Vec<Vec<bool>>,
        coloring: &Vec<Option<usize>>,
        num_visited: usize,
        Ghost(adj): Ghost<Seq<Seq<usize>>>,
    ) -> (ok: bool)
        requires
            search_state(adj, links@, coloring@, num_visited as int),
            table_of(
                old(self).pairs_colors@,
                adj.len(),
                adj,
                base_of(assigned(coloring@, num_visited as int)),
            ),
        ensures
            ok == valid_prefix(adj, assigned(coloring@, num_visited as int)),
            ok ==> table_of(
                final(self).pairs_colors@,
                adj.len(),
                adj,
                assigned(coloring@, num_visited as int),
            ),
            !ok ==> table_of(
                final(self).pairs_colors@,
                adj.len(),
                adj,
                base_of(assigned(coloring@, num_visited as int)),
            ),
            final(self).min_coloring == old(self).min_coloring,
            final(self).min_num_colors == old(self).min_num_colors,
    {
        reveal(search_state);
        let ghost p = assigned(coloring@, num_visited as int);
        let ghost n = adj.len();
        if num_visited == 0 {
            return true;
        }
        let v = num_visited - 1;
        let col = coloring[v].unwrap();
        proof {
            lemma_canonical_below(p, v as int);
        }
        if links[v][v] {
            return false;
        }
        proof {
            lemma_table_start(self.pairs_colors@, n, adj, p);
        }
        let mut w: usize = 0;
        while w < v
            invariant
                links_match(links@, adj),
                coloring@.len() == adj.len(),
                partial(coloring@, num_visited as int),
                canonical(p),
                valid_prefix(adj, p.drop_last()),
                p == assigned(coloring@, num_visited as int),
                n == adj.len(),
                v == num_visited - 1,
                col == p[v as int],
                col < n,
                w <= v,
                table_holds(self.pairs_colors@, n, adj, p, w as int),
                extension_ok(adj, p, w as int),
                self.min_coloring == old(self).min_coloring,
                self.min_num_colors == old(self).min_num_colors,
            decreases v - w,
        {
            if links[v][w] {
                let cw = coloring[w].unwrap();
                proof {
                    lemma_canonical_below(p, w as int);
                }
                if cw == col || self.pairs_colors[col][cw] {
                    proof {
                        lemma_collision(self.pairs_colors@, n, adj, p, w as int);
                    }
                    self.remove_pairs(links, coloring, num_visited, w, Ghost(adj));
                    return false;
                }
                let ghost before = self.pairs_colors@;
                set_cells(&mut self.pairs_colors, col, cw, true, Ghost(n));
                proof {
                    lemma_add_step(before, self.pairs_colors@, n, adj, p, w as int);
                }
            } else {
                proof {
                    lemma_skip_step(self.pairs_colors@, n, adj, p, w as int);
                }
            }
            w += 1;
        }
        proof {
            lemma_extension_valid(adj, p);
            lemma_table_full(self.pairs_colors@, n, adj, p);
        }
        true
    }
}

/// A record that holds a colouring of a graph with a vertex counts at least
/// one colour.
proof fn lemma_best_positive(adj: Seq<Seq<usize>>, b: Best)
    requires
        best_ok(adj, b),
        b.count is Some,
        adj.len() > 0,
    ensures
        b.count.unwrap() >= 1,
{
    lemma_span_above(b.coloring, 0);
}

/// The sizes that a search state fixes.
proof fn lemma_state_bounds(
    adj: Seq<Seq<usize>>,
    links: Seq<Vec<bool>>,
    cur: Seq<Option<usize>>,
    k: int,
)
    requires
        search_state(adj, links, cur, k),
    ensures
        cur.len() == adj.len(),
        0 <= k <= cur.len(),
        assigned(cur, k).len() == k,
        span(assigned(cur, k)) <= k,
{
    reveal(search_state);
    lemma_canonical_span_le_len(assigned(cur, k));
}

/// The colours of a search state were taken into use in increasing order.
proof fn lemma_state_canonical(
    adj: Seq<Seq<usize>>,
    links: Seq<Vec<bool>>,
    cur: Seq<Option<usize>>,
    k: int,
)
    requires
        search_state(adj, links, cur, k),
    ensures
        canonical(assigned(cur, k)),
{
    reveal(search_state);
}

/// Giving the next vertex a colour that the colours so far allow leads to a
/// search state again, from which taking the colour back leads back.
proof fn lemma_descend(
    adj: Seq<Seq<usize>>,
    links: Seq<Vec<bool>>,
    cur: Seq<Option<usize>>,
    k: int,
    color: usize,
)
    requires
        search_state(adj, links, cur, k),
        k < adj.len(),
        valid_prefix(adj, assigned(cur, k)),
        color <= span(assigned(cur, k)),
    ensures
        search_state(adj, links, cur.update(k, Some(color)), k + 1),
        assigned(cur.update(k, Some(color)), k + 1) == assigned(cur, k).push(color),
        base_of(assigned(cur.update(k, Some(color)), k + 1)) == assigned(cur, k),
        span(assigned(cur.update(k, Some(color)), k + 1)) == if color + 1 > span(assigned(cur, k)) {
            (color + 1) as nat
        } else {
            span(assigned(cur, k))
        },
        cur.update(k, Some(color)).update(k, None) == cur,
{
    reveal(search_state);
    let p = assigned(cur, k);
    let cur2 = cur.update(k, Some(color));
    let q = assigned(cur2, k + 1);
    assert(q =~= p.push(color));
    lemma_canonical_push(p, color);
    lemma_span_push(p, color);
}

} // verus!
