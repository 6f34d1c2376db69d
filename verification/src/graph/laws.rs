use crate::graph::lines::{after_first_line, first_line, lemma_line_len_le, lines_from, Line};
use crate::graph::no_edges;
use crate::graph::parser::{
    entry_of, header_of, malformed, parse_lines, records, rest_of_record, Item, ParseError,
};
use vstd::prelude::*;

verus! {

/// The vertex that a well-formed line of a vertex is for.
pub open spec fn vertex_of(line: Line, n: usize) -> int {
    entry_of(line.text, n).unwrap().0 as int
}

/// The neighbours on a well-formed line of a vertex.
pub open spec fn neighbors_of(line: Line, n: usize) -> Seq<usize> {
    entry_of(line.text, n).unwrap().1
}

/// The lines `lines[from..to)` are well-formed lines of vertices.
pub open spec fn entries_ok(lines: Seq<Line>, n: usize, from: int, to: int) -> bool {
    &&& 0 <= from <= to <= lines.len()
    &&& forall|j: int| from <= j < to ==> entry_of(#[trigger] lines[j].text, n) is Ok
}

/// The neighbour lists `g` are what the lines `lines[from..to)` say, read
/// into `start` in order: a vertex has the list of the last line that is for
/// it, and the list that it had in `start` if no line is for it.
pub open spec fn reads_as(
    g: Seq<Seq<usize>>,
    start: Seq<Seq<usize>>,
    lines: Seq<Line>,
    n: usize,
    from: int,
    to: int,
) -> bool {
    &&& g.len() == start.len()
    &&& forall|j: int|
        from <= j < to && (forall|l: int| j < l < to ==> vertex_of(#[trigger] lines[l], n)
            != vertex_of(lines[j], n)) ==> g[vertex_of(#[trigger] lines[j], n)] == neighbors_of(
            lines[j],
            n,
        )
    &&& forall|v: int|
        0 <= v < g.len() && (forall|l: int| from <= l < to ==> vertex_of(#[trigger] lines[l], n)
            != v) ==> (#[trigger] g[v]) == start[v]
}

/// `lines` holds `k` records of graphs on `n` vertices, and nothing else: each
/// is a line with a name and `n` well-formed lines of vertices.
pub open spec fn holds_records(lines: Seq<Line>, n: usize, k: nat) -> bool
    decreases k,
{
    if k == 0 {
        lines.len() == 0
    } else {
        &&& entries_ok(lines, n, 1, n + 1)
        &&& holds_records(lines.skip(n + 1), n, (k - 1) as nat)
    }
}

/// The lines of record `i`: its name and the lines of its vertices.
pub open spec fn record_lines(lines: Seq<Line>, n: usize, i: nat) -> Seq<Line>
    decreases i,
{
    if i == 0 {
        lines.take(n + 1)
    } else {
        record_lines(lines.skip(n + 1), n, (i - 1) as nat)
    }
}

/// The item is the graph on `n` vertices that the lines of a record say.
pub open spec fn is_graph_of(item: Item, record: Seq<Line>, n: usize) -> bool {
    item matches Ok(g) && reads_as(g, no_edges(n as nat), record, n, 1, n + 1)
}

/// Well-formed lines of vertices are read into the neighbour lists one after
/// the other, and then the record is complete.
pub proof fn lemma_rest_of_record(
    lines: Seq<Line>,
    n: usize,
    left: nat,
    start: Seq<Seq<usize>>,
) -> (g: Seq<Seq<usize>>)
    requires
        entries_ok(lines, n, 0, left as int),
        start.len() == n,
    ensures
        rest_of_record(lines, n, left, start) == seq![Ok::<Seq<Seq<usize>>, ParseError>(g)]
            + records(lines.skip(left as int), n),
        reads_as(g, start, lines, n, 0, left as int),
    decreases left,
{
    if left == 0 {
        assert(lines.skip(0) =~= lines);
        start
    } else {
        let v = vertex_of(lines[0], n);
        let next = start.update(v, neighbors_of(lines[0], n));
        let tail = lines.skip(1);
        let g = lemma_rest_of_record(tail, n, (left - 1) as nat, next);
        assert(tail.skip(left - 1) =~= lines.skip(left as int));
        assert forall|j: int|
            0 <= j < left && (forall|l: int| j < l < left ==> vertex_of(#[trigger] lines[l], n)
                != vertex_of(lines[j], n)) implies g[vertex_of(#[trigger] lines[j], n)]
            == neighbors_of(lines[j], n) by {
            if j > 0 {
                assert forall|l: int| j - 1 < l < left - 1 implies vertex_of(
                    #[trigger] tail[l],
                    n,
                ) != vertex_of(tail[j - 1], n) by {}
            }
        }
        g
    }
}

/// A record of well-formed lines gives its graph, and then the records that
/// follow give theirs.
pub proof fn lemma_record(lines: Seq<Line>, n: usize)
    requires
        entries_ok(lines, n, 1, n + 1),
    ensures
        records(lines, n).len() >= 1,
        is_graph_of(records(lines, n)[0], lines.take(n + 1), n),
        records(lines, n).skip(1) == records(lines.skip(n + 1), n),
{
    let tail = lines.skip(1);
    let record = lines.take(n + 1);
    let g = lemma_rest_of_record(tail, n, n as nat, no_edges(n as nat));
    assert(tail.skip(n as int) =~= lines.skip(n + 1));
    assert forall|j: int|
        1 <= j < n + 1 && (forall|l: int| j < l < n + 1 ==> vertex_of(#[trigger] record[l], n)
            != vertex_of(record[j], n)) implies g[vertex_of(#[trigger] record[j], n)]
        == neighbors_of(record[j], n) by {
        assert forall|l: int| j - 1 < l < n implies vertex_of(#[trigger] tail[l], n) != vertex_of(
            tail[j - 1],
            n,
        ) by {
            assert(tail[l] == record[l + 1]);
        }
    }
    assert forall|u: int|
        0 <= u < g.len() && (forall|l: int| 1 <= l < n + 1 ==> vertex_of(#[trigger] record[l], n)
            != u) implies (#[trigger] g[u]) == no_edges(n as nat)[u] by {
        assert forall|l: int| 0 <= l < n implies vertex_of(#[trigger] tail[l], n) != u by {
            assert(tail[l] == record[l + 1]);
        }
    }
}

/// From `k` well-formed records come `k` graphs, in the order of the records,
/// each on `n` vertices with the neighbour lists that the lines of its record
/// say.
pub proof fn lemma_records_round_trip(lines: Seq<Line>, n: usize, k: nat)
    requires
        holds_records(lines, n, k),
    ensures
        records(lines, n).len() == k,
        forall|i: nat|
            i < k ==> is_graph_of(
                #[trigger] records(lines, n)[i as int],
                record_lines(lines, n, i),
                n,
            ),
    decreases k,
{
    if k > 0 {
        let tail = lines.skip(n + 1);
        lemma_record(lines, n);
        lemma_records_round_trip(tail, n, (k - 1) as nat);
        assert forall|i: nat| i < k implies is_graph_of(
            #[trigger] records(lines, n)[i as int],
            record_lines(lines, n, i),
            n,
        ) by {
            if i > 0 {
                assert(records(lines, n)[i as int] == records(lines, n).skip(1)[i - 1]);
            }
        }
    }
}

/// From a well-formed header and `k` well-formed records come the `k` graphs of
/// the records, whatever number of graphs the header announces.
pub proof fn lemma_parse_round_trip(lines: Seq<Line>, max_n: usize, n: usize, k: nat)
    requires
        lines.len() > 0,
        header_of(lines[0].text, max_n) matches Ok(h) && h.0 == n,
        holds_records(lines.skip(1), n, k),
    ensures
        parse_lines(lines, max_n).len() == k,
        forall|i: nat|
            i < k ==> is_graph_of(
                #[trigger] parse_lines(lines, max_n)[i as int],
                record_lines(lines.skip(1), n, i),
                n,
            ),
{
    lemma_records_round_trip(lines.skip(1), n, k);
}

/// A malformed header is the one thing that comes out, as an error with the
/// header's line.
pub proof fn lemma_header_rejected(lines: Seq<Line>, max_n: usize)
    requires
        lines.len() > 0,
        header_of(lines[0].text, max_n) is Err,
    ensures
        parse_lines(lines, max_n) == seq![
            Err::<Seq<Seq<usize>>, ParseError>(
                malformed(lines[0], header_of(lines[0].text, max_n)->Err_0),
            ),
        ],
{
}

/// No line that is handed out is empty, and the lines come with increasing
/// numbers.
pub proof fn lemma_lines_not_empty(s: Seq<u8>, number: int)
    ensures
        forall|i: int|
            0 <= i < lines_from(s, number).len() ==> {
                &&& (#[trigger] lines_from(s, number)[i]).text.len() > 0
                &&& lines_from(s, number)[i].number >= number + i
            },
    decreases s.len(),
{
    if s.len() > 0 {
        lemma_line_len_le(s);
        lemma_lines_not_empty(after_first_line(s), number + 1);
        let rest = lines_from(after_first_line(s), number + 1);
        assert forall|i: int| 0 <= i < lines_from(s, number).len() implies (#[trigger] lines_from(
            s,
            number,
        )[i]).text.len() > 0 && lines_from(s, number)[i].number >= number + i by {
            if first_line(s).len() == 0 {
                assert(lines_from(s, number)[i] == rest[i]);
            } else if i > 0 {
                assert(lines_from(s, number)[i] == rest[i - 1]);
            }
        }
    }
}

} // verus!
