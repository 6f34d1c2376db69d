use crate::graph::lines::{lines_of, FilterNewLine, Line};
use crate::graph::text::{number_of, parse_number, split_tokens, texts, tokens};
use crate::graph::{no_edges, Graph};
use vstd::prelude::*;

verus! {

/// What is wrong with a line of the input.
#[derive(Clone, Copy, Debug, PartialEq, Eq, Structural)]
pub enum Detail {
    /// The header has fewer than two tokens.
    HeaderTooShort,
    /// A token writes no number that fits the machine's word.
    NotANumber,
    /// The header announces more vertices than a graph may have.
    TooManyVertices,
    /// A line of a vertex holds no token.
    NoVertex,
    /// The vertex that a line is for does not lie in `1..=n`.
    VertexOutOfRange,
    /// A neighbour on a line does not lie in `1..=n`.
    NeighborOutOfRange,
}

/// Why the input is not a list of graphs.
#[derive(Clone, Copy, Debug, PartialEq, Eq, Structural)]
pub enum ParseError {
    /// The line with this number, counted from one over all lines of the
    /// input, is malformed.
    MalformedRecord { line_number: usize, detail: Detail },
}

/// What the parser hands out: the neighbour lists of a graph, or an error.
pub type Item = Result<Seq<Seq<usize>>, ParseError>;

/// The numbers that the tokens write, if every token writes one.
pub open spec fn numbers(t: Seq<Seq<u8>>) -> Option<Seq<usize>> {
    if forall|i: int| 0 <= i < t.len() ==> number_of(#[trigger] t[i]) is Some {
        Some(Seq::new(t.len(), |i: int| number_of(t[i]).unwrap()))
    } else {
        None
    }
}

/// What a header line says: the number of vertices of each graph, and the
/// number of graphs that are announced. Only the first two tokens count.
pub open spec fn header_of(line: Seq<u8>, max_n: usize) -> Result<(usize, usize), Detail> {
    let t = tokens(line);
    if t.len() >= 1 && number_of(t[0]) is None {
        Err(Detail::NotANumber)
    } else if t.len() >= 2 && number_of(t[1]) is None {
        Err(Detail::NotANumber)
    } else if t.len() < 2 {
        Err(Detail::HeaderTooShort)
    } else if number_of(t[0]).unwrap() > max_n {
        Err(Detail::TooManyVertices)
    } else {
        Ok((number_of(t[0]).unwrap(), number_of(t[1]).unwrap()))
    }
}

/// What the line of a vertex says, for a graph on `n` vertices: the vertex and
/// its neighbours, each one less than the number written, since the input
/// counts vertices from one.
pub open spec fn entry_of(line: Seq<u8>, n: usize) -> Result<(usize, Seq<usize>), Detail> {
    match numbers(tokens(line)) {
        None => Err(Detail::NotANumber),
        Some(ids) => if ids.len() == 0 {
            Err(Detail::NoVertex)
        } else if !(1 <= ids[0] <= n) {
            Err(Detail::VertexOutOfRange)
        } else if exists|i: int| 1 <= i < ids.len() && !(1 <= #[trigger] ids[i] <= n) {
            Err(Detail::NeighborOutOfRange)
        } else {
            Ok(
                (
                    (ids[0] - 1) as usize,
                    Seq::new((ids.len() - 1) as nat, |i: int| (ids[i + 1] - 1) as usize),
                ),
            )
        },
    }
}

/// The error for a line.
pub open spec fn malformed(line: Line, detail: Detail) -> ParseError {
    ParseError::MalformedRecord { line_number: line.number as usize, detail: detail }
}

/// What comes out of the lines that follow inside a record, when `left` lines of
/// vertices are still to be read into the neighbour lists `g`. Each such line
/// replaces the list of its vertex. The first malformed line ends everything
/// with its error; a record that the end of the input cuts short is dropped.
pub open spec fn rest_of_record(lines: Seq<Line>, n: usize, left: nat, g: Seq<Seq<usize>>) -> Seq<
    Item,
>
    decreases lines.len(), 1int,
{
    if left == 0 {
        seq![Ok(g)] + records(lines, n)
    } else if lines.len() == 0 {
        Seq::<Item>::empty()
    } else {
        match entry_of(lines[0].text, n) {
            Err(d) => seq![Err(malformed(lines[0], d))],
            Ok((v, neighbors)) => rest_of_record(
                lines.skip(1),
                n,
                (left - 1) as nat,
                g.update(v as int, neighbors),
            ),
        }
    }
}

/// What comes out of a run of records: each is a line with the graph's name,
/// which is not looked at, and `n` lines of vertices.
pub open spec fn records(lines: Seq<Line>, n: usize) -> Seq<Item>
    decreases lines.len(), 0int,
{
    if lines.len() == 0 {
        Seq::<Item>::empty()
    } else {
        rest_of_record(lines.skip(1), n, n as nat, no_edges(n as nat))
    }
}

/// What comes out of the lines of an input: a header, then records. The
/// number of graphs that the header announces is read and binds nothing: as
/// many graphs come out as the input holds records.
pub open spec fn parse_lines(lines: Seq<Line>, max_n: usize) -> Seq<Item> {
    if lines.len() == 0 {
        Seq::<Item>::empty()
    } else {
        match header_of(lines[0].text, max_n) {
            Err(d) => seq![Err(malformed(lines[0], d))],
            Ok((n, announced)) => records(lines.skip(1), n),
        }
    }
}

/// What comes out of an input.
pub open spec fn parse_input(input: Seq<u8>, max_n: usize) -> Seq<Item> {
    parse_lines(lines_of(input), max_n)
}

/// Reads the numbers that the tokens write.
pub fn parse_numbers(toks: &Vec<Vec<u8>>) -> (ids: Option<Vec<usize>>)
    ensures
        match ids {
            Some(v) => numbers(texts(toks@)) == Some(v@),
            None => numbers(texts(toks@)) is None,
        },
{
    let ghost t = texts(toks@);
    let mut ids: Vec<usize> = Vec::new();
    let mut i: usize = 0;
    while i < toks.len()
        invariant
            t == texts(toks@),
            i <= toks@.len(),
            ids@.len() == i,
            forall|j: int| 0 <= j < i ==> number_of(#[trigger] t[j]) == Some(ids@[j]),
        decreases toks@.len() - i,
    {
        match parse_number(toks[i].as_slice()) {
            Some(id) => {
                ids.push(id);
            },
            None => {
                assert(number_of(t[i as int]) is None);
                return None;
            },
        }
        i += 1;
    }
    Some(ids)
}

/// Reads a header line.
pub fn parse_header(line: &[u8], max_n: usize) -> (header: Result<(usize, usize), Detail>)
    ensures
        header == header_of(line@, max_n),
{
    let toks = split_tokens(line);
    if toks.len() >= 1 {
        match parse_number(toks[0].as_slice()) {
            None => {
                return Err(Detail::NotANumber);
            },
            Some(n) => {
                if toks.len() >= 2 {
                    match parse_number(toks[1].as_slice()) {
                        None => {
                            return Err(Detail::NotANumber);
                        },
                        Some(announced) => {
                            if n > max_n {
                                return Err(Detail::TooManyVertices);
                            }
                            return Ok((n, announced));
                        },
                    }
                }
            },
        }
    }
    Err(Detail::HeaderTooShort)
}

/// Reads the line of a vertex of a graph on `n` vertices.
pub fn parse_entry(line: &[u8], n: usize) -> (entry: Result<(usize, Vec<usize>), Detail>)
    ensures
        match entry {
            Ok((v, neighbors)) => {
                &&& entry_of(line@, n) == Ok::<(usize, Seq<usize>), Detail>((v, neighbors@))
                &&& v < n
                &&& forall|i: int| 0 <= i < neighbors@.len() ==> (#[trigger] neighbors@[i]) < n
            },
            Err(d) => entry_of(line@, n) == Err::<(usize, Seq<usize>), Detail>(d),
        },
{
    let toks = split_tokens(line);
    let ids = match parse_numbers(&toks) {
        None => {
            return Err(Detail::NotANumber);
        },
        Some(ids) => ids,
    };
    if ids.len() == 0 {
        return Err(Detail::NoVertex);
    }
    if ids[0] < 1 || ids[0] > n {
        return Err(Detail::VertexOutOfRange);
    }
    let v = ids[0] - 1;
    let mut neighbors: Vec<usize> = Vec::new();
    let mut i: usize = 1;
    while i < ids.len()
        invariant
            numbers(tokens(line@)) == Some(ids@),
            1 <= ids@[0] <= n,
            1 <= i <= ids@.len(),
            neighbors@.len() == i - 1,
            forall|j: int| 1 <= j < i ==> 1 <= #[trigger] ids@[j] <= n,
            forall|j: int| 0 <= j < i - 1 ==> (#[trigger] neighbors@[j]) == ids@[j + 1] - 1,
        decreases ids@.len() - i,
    {
        if ids[i] < 1 || ids[i] > n {
            return Err(Detail::NeighborOutOfRange);
        }
        neighbors.push(ids[i] - 1);
        i += 1;
    }
    assert(neighbors@ =~= Seq::new((ids@.len() - 1) as nat, |i: int| (ids@[i + 1] - 1) as usize));
    Ok((v, neighbors))
}

/// Where the parser stands between two lines.
#[derive(Debug)]
enum State {
    /// Before the header.
    Header,
    /// Before the line with a graph's name.
    Name,
    /// Inside the lines of a graph's vertices.
    List,
    /// After an error: nothing more comes out.
    Done,
}

/// A parser that hands out the graphs of an input one by one.
pub struct ParseIterator<const MAX_N: usize> {
    inner: FilterNewLine,
    graph: Option<Graph<MAX_N>>,
    list_counter: usize,
    state: State,
    n: usize,
}

/// The graphs as what a parser hands out.
pub open spec fn oks<const MAX_N: usize>(graphs: Seq<Graph<MAX_N>>) -> Seq<Item> {
    Seq::new(graphs.len(), |i: int| Ok::<Seq<Seq<usize>>, ParseError>(graphs[i]@))
}

/// An error, if there is one, as what a parser hands out last.
pub open spec fn last_item(error: Option<ParseError>) -> Seq<Item> {
    match error {
        Some(e) => seq![Err::<Seq<Seq<usize>>, ParseError>(e)],
        None => Seq::<Item>::empty(),
    }
}

impl<const MAX_N: usize> ParseIterator<MAX_N> {
    /// The reader is sound, and inside a record the graph under construction
    /// is there, is sound and has as many vertices as the header says.
    pub closed spec fn wf(&self) -> bool {
        &&& self.inner.wf()
        &&& (self.state is Name || self.state is List) ==> self.n <= MAX_N
        &&& self.state is List ==> {
            &&& self.graph matches Some(g)
            &&& g.wf()
            &&& g.n == self.n
            &&& 1 <= self.list_counter <= self.n
        }
    }

    /// What is still to come out, in order.
    pub closed spec fn pending(&self) -> Seq<Item> {
        match self.state {
            State::Header => parse_lines(self.inner.remaining(), MAX_N),
            State::Name => records(self.inner.remaining(), self.n),
            State::List => rest_of_record(
                self.inner.remaining(),
                self.n,
                (self.n - self.list_counter + 1) as nat,
                self.graph.unwrap()@,
            ),
            State::Done => Seq::<Item>::empty(),
        }
    }

    /// A parser at the start of the input `inner`.
    pub fn new(inner: Vec<u8>) -> (parser: Result<Self, ParseError>)
        ensures
            parser matches Ok(p) && p.wf() && p.pending() == parse_input(inner@, MAX_N),
    {
        let a = ParseIterator::<MAX_N> {
            inner: FilterNewLine::new(inner),
            graph: None,
            list_counter: 1,
            state: State::Header,
            n: 0,
        };
        Ok(a)
    }

    /// The next graph of the input, or the error that ends it; `None` when
    /// nothing more comes out. After an error nothing more comes out.
    pub fn next(&mut self) -> (item: Option<Result<Graph<MAX_N>, ParseError>>)
        requires
            old(self).wf(),
        ensures
            final(self).wf(),
            match item {
                Some(Ok(graph)) => {
                    &&& old(self).pending().len() > 0
                    &&& old(self).pending()[0] == Ok::<Seq<Seq<usize>>, ParseError>(graph@)
                    &&& graph.wf()
                    &&& final(self).pending() == old(self).pending().skip(1)
                },
                Some(Err(e)) => {
                    &&& old(self).pending() == seq![Err::<Seq<Seq<usize>>, ParseError>(e)]
                    &&& final(self).pending().len() == 0
                },
                None => {
                    &&& old(self).pending().len() == 0
                    &&& final(self).pending().len() == 0
                },
            },
    {
        loop
            invariant
                self.wf(),
                self.pending() == old(self).pending(),
            decreases self.inner.remaining().len(),
        {
            if let State::Done = self.state {
                return None;
            }
            let line = match self.inner.next() {
                Some(line) => line,
                None => {
                    return None;
                },
            };
            let ghost rest = self.inner.remaining();
            match self.state {
                State::Header => {
                    match parse_header(line.as_slice(), MAX_N) {
                        Err(detail) => {
                            self.state = State::Done;
                            return Some(
                                Err(
                                    ParseError::MalformedRecord {
                                        line_number: self.inner.line_number(),
                                        detail,
                                    },
                                ),
                            );
                        },
                        Ok((n, _)) => {
                            self.n = n;
                            self.state = State::Name;
                        },
                    }
                },
                State::Name => {
                    if self.n == 0 {
                        let graph = Graph::<MAX_N>::new(0);
                        assert(old(self).pending().skip(1) =~= self.pending());
                        return Some(Ok(graph));
                    }
                    self.graph = Some(Graph::new(self.n));
                    self.list_counter = 1;
                    self.state = State::List;
                },
                State::List => {
                    let ghost left = (self.n - self.list_counter + 1) as nat;
                    match parse_entry(line.as_slice(), self.n) {
                        Err(detail) => {
                            self.state = State::Done;
                            return Some(
                                Err(
                                    ParseError::MalformedRecord {
                                        line_number: self.inner.line_number(),
                                        detail,
                                    },
                                ),
                            );
                        },
                        Ok((v, neighbors)) => {
                            let mut graph = self.graph.take().unwrap();
                            graph.set_neighbors(v, neighbors);
                            assert(old(self).pending() == rest_of_record(
                                rest,
                                self.n,
                                (left - 1) as nat,
                                graph@,
                            ));
                            if self.list_counter >= self.n {
                                self.state = State::Name;
                                self.list_counter = 1;
                                assert(old(self).pending().skip(1) =~= self.pending());
                                return Some(Ok(graph));
                            } else {
                                self.graph = Some(graph);
                                self.list_counter += 1;
                            }
                        },
                    }
                },
                State::Done => {},
            }
        }
    }
}

/// The graphs of the input `input` in order, up to the first malformed line,
/// and the error of that line if there is one.
pub fn parse_file<const MAX_N: usize>(input: Vec<u8>) -> (parsed: (
    Vec<Graph<MAX_N>>,
    Option<ParseError>,
))
    ensures
        oks(parsed.0@) + last_item(parsed.1) == parse_input(input@, MAX_N),
        forall|i: int| 0 <= i < parsed.0@.len() ==> (#[trigger] parsed.0@[i]).wf(),
{
    let mut graphs: Vec<Graph<MAX_N>> = Vec::new();
    let mut parser = match ParseIterator::<MAX_N>::new(input) {
        Ok(parser) => parser,
        Err(e) => {
            return (graphs, Some(e));
        },
    };
    loop
        invariant
            parser.wf(),
            oks(graphs@) + parser.pending() == parse_input(input@, MAX_N),
            forall|i: int| 0 <= i < graphs@.len() ==> (#[trigger] graphs@[i]).wf(),
        decreases parser.pending().len(),
    {
        match parser.next() {
            None => {
                return (graphs, None);
            },
            Some(Err(e)) => {
                return (graphs, Some(e));
            },
            Some(Ok(graph)) => {
                graphs.push(graph);
            },
        }
    }
}

} // verus!
