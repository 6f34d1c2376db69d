use harmonious_coloring::graph::Graph;
use harmonious_coloring::harmonious::{self, HarmoniousColoring};

const MAX_N: usize = 50;

fn graph_of(n: usize, edges: &[(usize, usize)]) -> Graph<MAX_N> {
    let mut lists: Vec<Vec<usize>> = vec![Vec::new(); n];
    for &(v, w) in edges {
        lists[v].push(w);
        lists[w].push(v);
    }
    let mut g = Graph::<MAX_N>::new(n);
    for (v, list) in lists.into_iter().enumerate() {
        g.set_neighbors(v, list);
    }
    g
}

fn pair(a: usize, b: usize) -> (usize, usize) {
    if a <= b {
        (a, b)
    } else {
        (b, a)
    }
}

fn is_valid(n: usize, edges: &[(usize, usize)], c: &[usize]) -> bool {
    if c.len() != n {
        return false;
    }
    let mut seen: Vec<(usize, usize)> = Vec::new();
    for &(v, w) in edges {
        if c[v] == c[w] {
            return false;
        }
        let p = pair(c[v], c[w]);
        if seen.contains(&p) {
            return false;
        }
        seen.push(p);
    }
    true
}

fn brute_force(n: usize, edges: &[(usize, usize)]) -> usize {
    for k in 1..=n {
        let mut c = vec![0usize; n];
        loop {
            if is_valid(n, edges, &c) {
                return k;
            }
            let mut i = 0;
            while i < n {
                c[i] += 1;
                if c[i] < k {
                    break;
                }
                c[i] = 0;
                i += 1;
            }
            if i == n {
                break;
            }
        }
    }
    n
}

fn num_colors(c: &[usize]) -> usize {
    c.iter().copied().max().map_or(0, |m| m + 1)
}

#[test]
fn single_vertex_gets_colour_zero() {
    let g = graph_of(1, &[]);
    let coloring = HarmoniousColoring::new().minimal_coloring(g);
    assert_eq!(coloring, vec![0]);
}

#[test]
fn path_of_four_vertices_needs_three_colours() {
    let edges = [(0, 1), (1, 2), (2, 3)];
    let g = graph_of(4, &edges);
    let coloring = HarmoniousColoring::new().minimal_coloring(g);
    assert_eq!(brute_force(4, &edges), 3);
    assert_eq!(coloring, vec![0, 1, 2, 0]);
    assert!(is_valid(4, &edges, &coloring));
}

#[test]
fn edgeless_graphs_need_one_colour() {
    for n in 1..6 {
        let g = graph_of(n, &[]);
        let coloring = HarmoniousColoring::new().minimal_coloring(g);
        assert_eq!(coloring, vec![0; n]);
    }
}

#[test]
fn results_match_brute_force_on_small_graphs() {
    let cases: Vec<(usize, Vec<(usize, usize)>)> = vec![
        (2, vec![(0, 1)]),
        (3, vec![(0, 1), (1, 2)]),
        (3, vec![(0, 1), (1, 2), (0, 2)]),
        (4, vec![(0, 1), (1, 2), (2, 3), (3, 0)]),
        (5, vec![(0, 1), (1, 2), (2, 3), (3, 4), (4, 0)]),
        (5, vec![(0, 1), (0, 2), (0, 3), (0, 4)]),
        (6, vec![(0, 1), (2, 3), (4, 5)]),
        (6, vec![(0, 1), (1, 2), (2, 3), (3, 4), (4, 5)]),
        (4, vec![(0, 1), (0, 2), (0, 3), (1, 2), (1, 3), (2, 3)]),
    ];
    for (n, edges) in cases {
        let g = graph_of(n, &edges);
        let coloring = HarmoniousColoring::new().minimal_coloring(g);
        assert!(is_valid(n, &edges, &coloring));
        assert_eq!(num_colors(&coloring), brute_force(n, &edges));
    }
}

#[test]
fn a_loop_leaves_no_colouring() {
    let mut g = Graph::<MAX_N>::new(2);
    g.set_neighbors(0, vec![0, 1]);
    g.set_neighbors(1, vec![0]);
    let coloring = HarmoniousColoring::new().minimal_coloring(g);
    assert!(coloring.is_empty());
}

fn first_canonical_minimum(n: usize, edges: &[(usize, usize)]) -> Vec<usize> {
    // every colouring that takes its colours into use in increasing order, in
    // dictionary order; the first with the fewest colours wins
    fn walk(
        n: usize,
        edges: &[(usize, usize)],
        c: &mut Vec<usize>,
        used: usize,
        best: &mut Option<Vec<usize>>,
    ) {
        if c.len() == n {
            let better = match best {
                None => true,
                Some(b) => used < num_colors(b),
            };
            if better && is_valid(n, edges, c) {
                *best = Some(c.clone());
            }
            return;
        }
        for color in 0..=used {
            c.push(color);
            walk(n, edges, c, used.max(color + 1), best);
            c.pop();
        }
    }
    let mut best = None;
    walk(n, edges, &mut Vec::new(), 0, &mut best);
    best.unwrap()
}

#[test]
fn result_is_the_first_minimal_colouring_in_dictionary_order() {
    let cases: Vec<(usize, Vec<(usize, usize)>)> = vec![
        (1, vec![]),
        (3, vec![(0, 2)]),
        (4, vec![(0, 1), (2, 3)]),
        (5, vec![(0, 1), (1, 2), (2, 3), (3, 4)]),
        (5, vec![(0, 4), (1, 4), (2, 3)]),
        (6, vec![(0, 1), (0, 2), (3, 4), (3, 5), (1, 4)]),
        (7, vec![(0, 1), (1, 2), (2, 3), (3, 4), (4, 5), (5, 6)]),
    ];
    for (n, edges) in cases {
        let g = graph_of(n, &edges);
        let coloring = HarmoniousColoring::new().minimal_coloring(g);
        assert_eq!(coloring, first_canonical_minimum(n, &edges));
    }
}

#[test]
fn colours_are_taken_into_use_in_increasing_order() {
    let edges = [(0, 3), (1, 3), (2, 3), (3, 4), (4, 5)];
    let g = graph_of(6, &edges);
    let coloring = HarmoniousColoring::new().minimal_coloring(g);
    let mut used = 0;
    for &c in &coloring {
        assert!(c <= used);
        used = used.max(c + 1);
    }
    assert_eq!(coloring[0], 0);
}

#[test]
fn one_sided_and_repeated_neighbours_give_the_same_edges() {
    let edges = [(0, 1), (1, 2), (2, 3)];
    let both = HarmoniousColoring::new().minimal_coloring(graph_of(4, &edges));

    let mut one_sided = Graph::<MAX_N>::new(4);
    one_sided.set_neighbors(0, vec![1]);
    one_sided.set_neighbors(2, vec![1, 3]);
    assert_eq!(HarmoniousColoring::new().minimal_coloring(one_sided), both);

    let mut repeated = Graph::<MAX_N>::new(4);
    repeated.set_neighbors(0, vec![1, 1]);
    repeated.set_neighbors(1, vec![0, 2, 2, 0]);
    repeated.set_neighbors(2, vec![3]);
    repeated.set_neighbors(3, vec![2, 2]);
    assert_eq!(HarmoniousColoring::new().minimal_coloring(repeated), both);
}

#[test]
fn repeated_searches_give_the_same_result() {
    let edges = [(0, 1), (1, 2), (2, 0), (2, 3)];
    let first = HarmoniousColoring::new().minimal_coloring(graph_of(4, &edges));
    let other = HarmoniousColoring::new().minimal_coloring(graph_of(5, &[(0, 1), (3, 4)]));
    let second = HarmoniousColoring::new().minimal_coloring(graph_of(4, &edges));
    assert_eq!(first, second);
    assert_eq!(first, vec![0, 1, 2, 3]);
    assert_eq!(other, vec![0, 1, 0, 0, 2]);
}

#[test]
fn graph_without_vertices_has_the_empty_colouring() {
    let g = Graph::<MAX_N>::new(0);
    assert!(HarmoniousColoring::new().minimal_coloring(g).is_empty());
}

#[test]
fn graphs_of_diameter_two_need_a_colour_per_vertex() {
    // the Petersen graph
    let edges = [
        (0, 1), (1, 2), (2, 3), (3, 4), (4, 0),
        (0, 5), (1, 6), (2, 7), (3, 8), (4, 9),
        (5, 7), (7, 9), (9, 6), (6, 8), (8, 5),
    ];
    let coloring = HarmoniousColoring::new().minimal_coloring(graph_of(10, &edges));
    assert_eq!(coloring, (0..10).collect::<Vec<usize>>());

    // a star
    let edges = [(0, 1), (0, 2), (0, 3), (0, 4), (0, 5)];
    let coloring = HarmoniousColoring::new().minimal_coloring(graph_of(6, &edges));
    assert_eq!(coloring, vec![0, 1, 2, 3, 4, 5]);
}

#[test]
fn graph_accessors() {
    let mut g = Graph::<MAX_N>::new(3);
    assert_eq!(g.n, 3);
    assert_eq!(g.iter().len(), 3);
    g.set_neighbors(1, vec![0, 2]);
    assert_eq!(g.get_neighbors(1), &[0, 2]);
    assert_eq!(g.get_neighbors(0), &[] as &[usize]);
    assert_eq!(g.iter().to_vec(), vec![vec![], vec![0, 2], vec![]]);
    g.set_neighbors(1, vec![]);
    assert_eq!(g.get_neighbors(1), &[] as &[usize]);
    let h = Graph::<MAX_N> { adj_list: vec![vec![1], vec![0], vec![]], n: 2 };
    assert_eq!(h.iter().to_vec(), vec![vec![1], vec![0]]);
}

/// The first valid colouring with colours below `k`, in dictionary order.
fn first_valid(n: usize, edges: &[(usize, usize)], k: usize) -> Option<Vec<usize>> {
    let mut c = vec![0usize; n];
    loop {
        if is_valid(n, edges, &c) {
            return Some(c);
        }
        let mut i = n;
        loop {
            if i == 0 {
                return None;
            }
            i -= 1;
            c[i] += 1;
            if c[i] < k {
                break;
            }
            c[i] = 0;
        }
    }
}

#[test]
fn result_is_first_among_all_minimal_colourings() {
    let cases: Vec<(usize, Vec<(usize, usize)>)> = vec![
        (2, vec![(0, 1)]),
        (4, vec![(0, 1), (1, 2), (2, 3)]),
        (4, vec![(0, 3), (1, 2)]),
        (5, vec![(0, 1), (1, 2), (2, 3), (3, 4), (4, 0)]),
        (5, vec![(0, 2), (2, 4), (1, 3)]),
        (6, vec![(0, 5), (1, 4), (2, 3), (0, 1)]),
    ];
    for (n, edges) in cases {
        let h = brute_force(n, &edges);
        let coloring = HarmoniousColoring::new().minimal_coloring(graph_of(n, &edges));
        assert_eq!(Some(coloring), first_valid(n, &edges, h));
        assert_eq!(first_valid(n, &edges, h - 1), None);
    }
}

#[test]
fn number_of_colours_is_one_more_than_the_largest() {
    assert_eq!(harmonious::num_colors(&[]), None);
    assert_eq!(harmonious::num_colors(&[0]), Some(1));
    assert_eq!(harmonious::num_colors(&[0, 1, 2, 0]), Some(3));
    assert_eq!(harmonious::num_colors(&[0, 4, 2]), Some(5));
    assert_eq!(harmonious::num_colors(&[3, usize::MAX - 1]), Some(usize::MAX));
    assert_eq!(harmonious::num_colors(&[3, usize::MAX, 0]), None);
    let path = graph_of(4, &[(0, 1), (1, 2), (2, 3)]);
    let coloring = HarmoniousColoring::new().minimal_coloring(path);
    assert_eq!(harmonious::num_colors(&coloring), Some(3));
}
