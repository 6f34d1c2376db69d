use harmonious_coloring::graph::lines::FilterNewLine;
use harmonious_coloring::graph::parser::{parse_entry, parse_header, parse_numbers};
use harmonious_coloring::graph::text::{copy_range, parse_number, space, split_tokens};
use harmonious_coloring::graph::{parse_file, Detail, Graph, ParseError, ParseIterator};
use harmonious_coloring::harmonious::HarmoniousColoring;

const MAX_N: usize = 50;

fn parser(text: &str) -> ParseIterator<MAX_N> {
    ParseIterator::<MAX_N>::new(text.as_bytes().to_vec()).unwrap()
}

fn malformed(line_number: usize, detail: Detail) -> ParseError {
    ParseError::MalformedRecord { line_number, detail }
}

fn lists(g: &Graph<MAX_N>) -> Vec<Vec<usize>> {
    g.iter().to_vec()
}

const PATH: &str = "4 1\nP4\n1 2\n2 1 3\n3 2 4\n4 3\n";

#[test]
fn path_file_parses_to_its_neighbour_lists() {
    let mut it = parser(PATH);
    let g = it.next().unwrap().unwrap();
    assert_eq!(g.n, 4);
    assert_eq!(lists(&g), vec![vec![1], vec![0, 2], vec![1, 3], vec![2]]);
    assert!(it.next().is_none());
    assert!(it.next().is_none());
}

#[test]
fn path_file_is_coloured_with_three_colours() {
    let mut it = parser(PATH);
    let g = it.next().unwrap().unwrap();
    let coloring = HarmoniousColoring::new().minimal_coloring(g);
    assert_eq!(coloring, vec![0, 1, 2, 0]);
    assert_eq!(coloring.iter().max().unwrap() + 1, 3);
}

#[test]
fn single_vertex_file_gets_one_colour() {
    let mut it = parser("1 1\nK1\n1\n");
    let g = it.next().unwrap().unwrap();
    assert_eq!(g.n, 1);
    assert_eq!(lists(&g), vec![Vec::<usize>::new()]);
    assert_eq!(HarmoniousColoring::new().minimal_coloring(g), vec![0]);
    assert!(it.next().is_none());
}

#[test]
fn two_graphs_in_one_file_are_independent() {
    let text = "3 2\ntriangle\n1 2 3\n2 1 3\n3 1 2\npath\n1 2\n2 1 3\n3 2\n";
    let mut it = parser(text);
    let first = it.next().unwrap().unwrap();
    let second = it.next().unwrap().unwrap();
    assert!(it.next().is_none());
    assert_eq!(lists(&first), vec![vec![1, 2], vec![0, 2], vec![0, 1]]);
    assert_eq!(lists(&second), vec![vec![1], vec![0, 2], vec![1]]);
    let both = [
        HarmoniousColoring::new().minimal_coloring(first),
        HarmoniousColoring::new().minimal_coloring(second),
    ];
    assert_eq!(both[0], vec![0, 1, 2]);
    assert_eq!(both[1], vec![0, 1, 2]);

    // the second graph alone, and the two in the other order, give the same
    let alone = parser("3 1\npath\n1 2\n2 1 3\n3 2\n").next().unwrap().unwrap();
    assert_eq!(HarmoniousColoring::new().minimal_coloring(alone), both[1]);
    let swapped = "3 2\npath\n1 2\n2 1 3\n3 2\ntriangle\n1 2 3\n2 1 3\n3 1 2\n";
    let mut it = parser(swapped);
    let path = it.next().unwrap().unwrap();
    let triangle = it.next().unwrap().unwrap();
    assert_eq!(HarmoniousColoring::new().minimal_coloring(path), both[1]);
    assert_eq!(HarmoniousColoring::new().minimal_coloring(triangle), both[0]);
}

#[test]
fn header_with_one_token_is_rejected() {
    let mut it = parser("3\n");
    assert_eq!(it.next().unwrap().err(), Some(malformed(1, Detail::HeaderTooShort)));
    assert!(it.next().is_none());
}

#[test]
fn header_that_is_not_numeric_is_rejected() {
    let mut it = parser("a b\n");
    assert_eq!(it.next().unwrap().err(), Some(malformed(1, Detail::NotANumber)));
    assert!(it.next().is_none());
}

#[test]
fn header_errors_in_order() {
    assert_eq!(parse_header(b"", 9), Err(Detail::HeaderTooShort));
    assert_eq!(parse_header(b"   ", 9), Err(Detail::HeaderTooShort));
    assert_eq!(parse_header(b"x", 9), Err(Detail::NotANumber));
    assert_eq!(parse_header(b"3 x", 9), Err(Detail::NotANumber));
    assert_eq!(parse_header(b"x 3", 9), Err(Detail::NotANumber));
    assert_eq!(parse_header(b"10 3", 9), Err(Detail::TooManyVertices));
    assert_eq!(parse_header(b"9 3", 9), Ok((9, 3)));
    assert_eq!(parse_header(b" 4\t 2  rest is not read", 9), Ok((4, 2)));
    assert_eq!(parse_header(b"0 0", 9), Ok((0, 0)));
}

#[test]
fn header_line_number_counts_empty_lines() {
    let mut it = parser("\n\n\nthree\n");
    assert_eq!(it.next().unwrap().err(), Some(malformed(4, Detail::NotANumber)));
}

#[test]
fn too_many_vertices_is_rejected() {
    let mut it = parser("51 1\nbig\n");
    assert_eq!(it.next().unwrap().err(), Some(malformed(1, Detail::TooManyVertices)));
    let mut it = parser("50 1\n");
    assert!(it.next().is_none());
}

#[test]
fn empty_lines_are_passed_over() {
    let text = "\n\n2 1\n\nname\n\n\n1 2\n\r\n2 1\n\n";
    let mut it = parser(text);
    let g = it.next().unwrap().unwrap();
    assert_eq!(lists(&g), vec![vec![1], vec![0]]);
    assert!(it.next().is_none());
}

#[test]
fn entry_errors() {
    assert_eq!(parse_entry(b"1 2 3", 3), Ok((0, vec![1, 2])));
    assert_eq!(parse_entry(b"3", 3), Ok((2, vec![])));
    assert_eq!(parse_entry(b"  ", 3), Err(Detail::NoVertex));
    assert_eq!(parse_entry(b"0 1", 3), Err(Detail::VertexOutOfRange));
    assert_eq!(parse_entry(b"4 1", 3), Err(Detail::VertexOutOfRange));
    assert_eq!(parse_entry(b"1 0", 3), Err(Detail::NeighborOutOfRange));
    assert_eq!(parse_entry(b"1 2 4", 3), Err(Detail::NeighborOutOfRange));
    assert_eq!(parse_entry(b"1 2 x", 3), Err(Detail::NotANumber));
    assert_eq!(parse_entry(b"0 x", 3), Err(Detail::NotANumber));
    assert_eq!(parse_entry(b"1 -2", 3), Err(Detail::NotANumber));
    assert_eq!(parse_entry(b"1", 0), Err(Detail::VertexOutOfRange));
}

#[test]
fn malformed_entry_gives_its_line_and_ends_the_sequence() {
    let text = "2 2\nfirst\n1 2\n2 1\n\nsecond\n1 3\n2 1\nthird\n1 2\n2 1\n";
    let mut it = parser(text);
    assert!(it.next().unwrap().is_ok());
    assert_eq!(it.next().unwrap().err(), Some(malformed(7, Detail::NeighborOutOfRange)));
    assert!(it.next().is_none());
    assert!(it.next().is_none());
}

#[test]
fn line_of_blanks_inside_a_record_is_malformed() {
    let mut it = parser("2 1\nname\n1 2\n \t \n2 1\n");
    assert_eq!(it.next().unwrap().err(), Some(malformed(4, Detail::NoVertex)));
    assert!(it.next().is_none());
}

#[test]
fn line_of_blanks_can_be_a_name() {
    let mut it = parser("1 1\n   \n1\n");
    assert_eq!(it.next().unwrap().unwrap().n, 1);
    assert!(it.next().is_none());
}

#[test]
fn token_that_is_not_a_number_inside_a_record_is_malformed() {
    let mut it = parser("2 1\nname\n1 two\n2 1\n");
    assert_eq!(it.next().unwrap().err(), Some(malformed(3, Detail::NotANumber)));
    let mut it = parser("2 1\nname\n3\n2 1\n");
    assert_eq!(it.next().unwrap().err(), Some(malformed(3, Detail::VertexOutOfRange)));
}

#[test]
fn record_cut_short_is_dropped() {
    let mut it = parser("3 1\nname\n1 2\n2 1\n");
    assert!(it.next().is_none());
    let mut it = parser("3 1\n");
    assert!(it.next().is_none());
    let mut it = parser("");
    assert!(it.next().is_none());
}

#[test]
fn announced_number_of_graphs_is_not_enforced() {
    let text = "1 7\na\n1\nb\n1\n";
    let mut it = parser(text);
    assert!(it.next().unwrap().is_ok());
    assert!(it.next().unwrap().is_ok());
    assert!(it.next().is_none());
    let mut it = parser("1 0\na\n1\n");
    assert!(it.next().unwrap().is_ok());
    assert_eq!(parse_header(b"1 7", MAX_N), Ok((1, 7)));
}

#[test]
fn repeated_vertex_line_replaces_the_list() {
    let mut it = parser("2 1\nname\n1 2\n1 1\n");
    let g = it.next().unwrap().unwrap();
    assert_eq!(lists(&g), vec![vec![0], vec![]]);
}

#[test]
fn graphs_without_vertices_come_one_per_name() {
    let mut it = parser("0 2\na\nb\n");
    assert_eq!(it.next().unwrap().unwrap().n, 0);
    assert_eq!(it.next().unwrap().unwrap().n, 0);
    assert!(it.next().is_none());
}

#[test]
fn parse_file_collects_graphs_up_to_the_error() {
    let (graphs, error) = parse_file::<MAX_N>(PATH.as_bytes().to_vec());
    assert_eq!(graphs.len(), 1);
    assert_eq!(error, None);
    assert_eq!(lists(&graphs[0]), vec![vec![1], vec![0, 2], vec![1, 3], vec![2]]);

    let text = "1 3\na\n1\nb\n1\nc\n2\nd\n1\n";
    let (graphs, error) = parse_file::<MAX_N>(text.as_bytes().to_vec());
    assert_eq!(graphs.len(), 2);
    assert_eq!(error, Some(malformed(7, Detail::VertexOutOfRange)));

    let (graphs, error) = parse_file::<MAX_N>(Vec::new());
    assert!(graphs.is_empty());
    assert_eq!(error, None);
}

#[test]
fn reader_hands_out_lines_with_their_numbers() {
    let mut r = FilterNewLine::new(b"one\n\ntwo\r\n\r\nthree".to_vec());
    assert_eq!(r.line_number(), 0);
    assert_eq!(r.next(), Some(b"one".to_vec()));
    assert_eq!(r.line_number(), 1);
    assert_eq!(r.next(), Some(b"two".to_vec()));
    assert_eq!(r.line_number(), 3);
    assert_eq!(r.next(), Some(b"three".to_vec()));
    assert_eq!(r.line_number(), 5);
    assert_eq!(r.next(), None);
    assert_eq!(r.next(), None);
}

#[test]
fn reader_keeps_a_carriage_return_without_line_feed() {
    let mut r = FilterNewLine::new(b"a\rb\n\r".to_vec());
    assert_eq!(r.next(), Some(b"a\rb".to_vec()));
    assert_eq!(r.next(), Some(b"\r".to_vec()));
    assert_eq!(r.next(), None);
}

#[test]
fn tokens_are_runs_between_blanks() {
    let words = |s: &[u8]| split_tokens(s);
    assert_eq!(words(b""), Vec::<Vec<u8>>::new());
    assert_eq!(words(b" \t\r "), Vec::<Vec<u8>>::new());
    assert_eq!(words(b"12"), vec![b"12".to_vec()]);
    assert_eq!(
        words(b"  1\t22 \x0b\x0c 333  "),
        vec![b"1".to_vec(), b"22".to_vec(), b"333".to_vec()]
    );
    assert!(space(b' ') && space(b'\t') && space(b'\n') && space(b'\r'));
    assert!(space(0x0b) && space(0x0c));
    assert!(!space(b'0') && !space(0) && !space(8) && !space(14) && !space(0xa0));
    assert_eq!(copy_range(b"abcdef", 2, 4), b"cd".to_vec());
    assert_eq!(copy_range(b"abcdef", 3, 3), Vec::<u8>::new());
}

#[test]
fn numbers_are_decimal_and_fit_the_word() {
    assert_eq!(parse_number(b"0"), Some(0));
    assert_eq!(parse_number(b"7"), Some(7));
    assert_eq!(parse_number(b"007"), Some(7));
    assert_eq!(parse_number(b"+5"), Some(5));
    assert_eq!(parse_number(b"1234567890"), Some(1234567890));
    assert_eq!(parse_number(usize::MAX.to_string().as_bytes()), Some(usize::MAX));
    assert_eq!(parse_number(b"18446744073709551616"), None);
    assert_eq!(parse_number(b"99999999999999999999999"), None);
    assert_eq!(parse_number(b""), None);
    assert_eq!(parse_number(b"+"), None);
    assert_eq!(parse_number(b"-1"), None);
    assert_eq!(parse_number(b"++1"), None);
    assert_eq!(parse_number(b"1+"), None);
    assert_eq!(parse_number(b"1a"), None);
    assert_eq!(parse_number(b"a"), None);
    assert_eq!(parse_number(b"1.5"), None);
    assert_eq!(parse_numbers(&vec![b"1".to_vec(), b"20".to_vec()]), Some(vec![1, 20]));
    assert_eq!(parse_numbers(&vec![b"1".to_vec(), b"x".to_vec()]), None);
    assert_eq!(parse_numbers(&Vec::new()), Some(Vec::new()));
}

/// The numbers after `h =` in a report of results, one per graph.
fn reference_numbers(report: &str) -> Vec<usize> {
    let mut harmonious = Vec::new();
    for (i, line) in report.lines().enumerate() {
        if i % 5 == 1 {
            let mut split = line.split("=");
            split.next();
            let num_str = split.next().expect("expected the format h = <number>");
            harmonious.push(num_str.trim().parse::<usize>().unwrap());
        }
    }
    harmonious
}

#[test]
fn test_all() {
    let files_in = [
        "4 3\nP4\n1 2\n2 1 3\n3 2 4\n4 3\nC4\n1 2 4\n2 1 3\n3 2 4\n4 1 3\nK4\n1 2 3 4\n2 1 3 4\n3 1 2 4\n4 1 2 3\n",
        "5 3\n\nP5\n1 2\n2 1 3\n3 2 4\n4 3 5\n5 4\n\nC5\n1 2 5\n2 1 3\n3 2 4\n4 3 5\n5 4 1\n\nS5\n1 2 3 4 5\n2 1\n3 1\n4 1\n5 1\n",
    ];
    let files_out = [
        "Graph 1: \nh = 3\n0 1 2 0 \ndiameter = -1\n\nGraph 2: \nh = 4\n0 1 2 3 \ndiameter = -1\n\nGraph 3: \nh = 4\n0 1 2 3 \ndiameter = -1\n\n",
        "Graph 1: \nh = 4\n0 1 2 3 0 \ndiameter = -1\n\nGraph 2: \nh = 5\n0 1 2 3 4 \ndiameter = -1\n\nGraph 3: \nh = 5\n0 1 2 3 4 \ndiameter = -1\n\n",
    ];
    for (file_in, file_out) in files_in.iter().zip(&files_out) {
        let reference_solution = reference_numbers(file_out);

        let mut results = Vec::new();
        let (graphs, error) = parse_file::<MAX_N>(file_in.as_bytes().to_vec());
        assert_eq!(error, None);
        for graph in graphs {
            let h_object = HarmoniousColoring::new();
            let coloring = h_object.minimal_coloring(graph);
            let num_colors = coloring.iter().map(|c| *c).max().expect("Error: Empty Coloring");
            let num_colors = num_colors + 1;
            results.push(num_colors);
        }

        println!("Results: {:?}", results);
        println!("Reference solution: {:?}", reference_solution);
        assert!(results == reference_solution);
    }
}
