use crate::harmonious::lemmas::{
    lemma_canonical_count, lemma_lex_transitive, lemma_loop_invalid, lemma_rainbow_valid,
    lemma_relabel, lemma_relabel_first,
    lemma_same_pattern_valid, lemma_span_above, lemma_span_take, lemma_valid_take, rainbow, relabel,
};
use crate::harmonious::model::{
    candidate, canonical, color_count, first_minimal_coloring, has_loop, joined, lex_le, same_pair,
    span, valid_coloring, valid_prefix,
};
use crate::harmonious::pairs::{extension_ok, realized};
use vstd::prelude::*;

verus! {

/// The best colouring that a search has found: its number of colours and the
/// colouring itself; `None` while nothing has been found.
pub struct Best {
    pub count: Option<usize>,
    pub coloring: Seq<usize>,
}

/// What is recorded as found is a candidate with that many colours.
pub open spec fn best_ok(adj: Seq<Seq<usize>>, b: Best) -> bool {
    b.count matches Some(m) ==> candidate(adj, b.coloring) && span(b.coloring) == m
}

/// `c` is a candidate that colours the first vertices as `p` does.
pub open spec fn completes(adj: Seq<Seq<usize>>, p: Seq<usize>, c: Seq<usize>) -> bool {
    candidate(adj, c) && p.len() <= c.len() && c.take(p.len() as int) == p
}

/// The colour that `c` gives the vertex after those of `p`, if there is one,
/// lies below `upto`.
pub open spec fn next_below(p: Seq<usize>, c: Seq<usize>, upto: int) -> bool {
    c.len() > p.len() ==> c[p.len() as int] < upto
}

/// Something was found, with at most `m` colours.
pub open spec fn within(count: Option<usize>, m: nat) -> bool {
    count matches Some(b) && b <= m
}

/// `new` is a count, and a smaller one than `old` if that is one too.
pub open spec fn less(new: Option<usize>, old: Option<usize>) -> bool {
    new is Some && (old matches Some(m) ==> new.unwrap() < m)
}

/// A bound that every colour lies below.
pub open spec fn any_color() -> int {
    usize::MAX + 1
}

/// No candidate that extends `p` with a next colour below `upto` has fewer
/// colours than `count`.
#[verifier::opaque]
pub open spec fn covers(
    adj: Seq<Seq<usize>>,
    p: Seq<usize>,
    upto: int,
    count: Option<usize>,
) -> bool {
    forall|c: Seq<usize>| #[trigger]
        completes(adj, p, c) && next_below(p, c, upto) ==> within(count, span(c))
}

/// Among the candidates that extend `p` with a next colour below `upto` and
/// have as many colours as the record, the record comes first in the order of
/// a dictionary.
#[verifier::opaque]
pub open spec fn leads(adj: Seq<Seq<usize>>, p: Seq<usize>, upto: int, b: Best) -> bool {
    forall|c: Seq<usize>| #[trigger]
        completes(adj, p, c) && next_below(p, c, upto) && within(b.count, span(c)) && span(c)
            <= b.count.unwrap() ==> lex_le(b.coloring, c)
}

/// How a record `to` stands to the record `from` once the search has gone
/// through every candidate that extends `p` with a next colour below `upto`:
/// no such candidate has fewer colours than `to`; and `to` is `from`
/// unchanged, or one of those candidates with fewer colours than `from`, the
/// first in the order of a dictionary among those with as many colours as it.
pub open spec fn searched(
    adj: Seq<Seq<usize>>,
    p: Seq<usize>,
    upto: int,
    from: Best,
    to: Best,
) -> bool {
    &&& best_ok(adj, to)
    &&& covers(adj, p, upto, to.count)
    &&& to == from || {
        &&& less(to.count, from.count)
        &&& completes(adj, p, to.coloring)
        &&& next_below(p, to.coloring, upto)
        &&& leads(adj, p, upto, to)
    }
}

/// A candidate that extends `p` extends it with a colour that `p` allows, and
/// has at least the colours of `p` and that one.
pub proof fn lemma_branch(adj: Seq<Seq<usize>>, p: Seq<usize>, c: Seq<usize>)
    requires
        completes(adj, p, c),
        p.len() < adj.len(),
    ensures
        p.len() < c.len(),
        c[p.len() as int] <= span(p),
        completes(adj, p.push(c[p.len() as int]), c),
        span(c) >= c[p.len() as int] + 1,
        span(c) >= span(p),
{
    let k = p.len() as int;
    assert(c.take(k + 1) =~= p.push(c[k]));
    lemma_span_above(c, k);
    lemma_span_take(c, k, c.len() as int);
    assert(c.take(c.len() as int) =~= c);
}

/// A candidate that extends `p.push(col)` extends `p`, with `col` next.
pub proof fn lemma_branch_up(adj: Seq<Seq<usize>>, p: Seq<usize>, col: usize, c: Seq<usize>)
    requires
        completes(adj, p.push(col), c),
    ensures
        completes(adj, p, c),
        p.len() < c.len(),
        c[p.len() as int] == col,
{
    let k = p.len() as int;
    assert(c.take(k + 1)[k] == col);
    assert(c.take(k) =~= c.take(k + 1).take(k));
    assert(p.push(col).take(k) =~= p);
}

/// Of two sequences that agree before a place, the one with the smaller entry
/// there comes first.
pub proof fn lemma_lex_branch(p: Seq<usize>, a: Seq<usize>, b: Seq<usize>)
    requires
        p.len() < a.len(),
        p.len() < b.len(),
        a.take(p.len() as int) == p,
        b.take(p.len() as int) == p,
        a[p.len() as int] < b[p.len() as int],
    ensures
        lex_le(a, b),
{
}

/// Nothing extends a partial colouring that breaks a rule.
pub proof fn lemma_search_reject(adj: Seq<Seq<usize>>, p: Seq<usize>, entry: Best)
    requires
        !valid_prefix(adj, p),
        best_ok(adj, entry),
    ensures
        searched(adj, p, any_color(), entry, entry),
{
    reveal(covers);
    assert forall|c: Seq<usize>| #[trigger] completes(adj, p, c) implies false by {
        lemma_valid_take(adj, c, p.len() as int);
    }
}

/// A complete valid colouring is the one candidate that extends it; it is
/// recorded if it has fewer colours than the record.
pub proof fn lemma_search_leaf(adj: Seq<Seq<usize>>, p: Seq<usize>, entry: Best, after: Best)
    requires
        p.len() == adj.len(),
        valid_prefix(adj, p),
        canonical(p),
        best_ok(adj, entry),
        span(p) <= usize::MAX,
        after == if less(Some(span(p) as usize), entry.count) {
            Best { count: Some(span(p) as usize), coloring: p }
        } else {
            entry
        },
    ensures
        searched(adj, p, any_color(), entry, after),
{
    reveal(covers);
    reveal(leads);
    assert forall|c: Seq<usize>| #[trigger] completes(adj, p, c) implies c == p by {}
    assert(p.take(p.len() as int) =~= p);
}

/// Before the first colour is tried, nothing has been gone through.
pub proof fn lemma_search_start(adj: Seq<Seq<usize>>, p: Seq<usize>, entry: Best)
    requires
        p.len() < adj.len(),
        best_ok(adj, entry),
    ensures
        searched(adj, p, 0, entry, entry),
{
    reveal(covers);
}

/// The candidates with a next colour up to `color` are covered by a count that
/// covers those with a smaller next colour and those with `color` itself.
proof fn lemma_covers_step(
    adj: Seq<Seq<usize>>,
    p: Seq<usize>,
    color: usize,
    mid: Option<usize>,
    after: Option<usize>,
)
    requires
        p.len() < adj.len(),
        covers(adj, p, color as int, mid),
        covers(adj, p.push(color), any_color(), after),
        after == mid || less(after, mid),
    ensures
        covers(adj, p, color + 1, after),
{
    reveal(covers);
    let k = p.len() as int;
    assert forall|c: Seq<usize>| #[trigger]
        completes(adj, p, c) && next_below(p, c, color + 1) implies within(after, span(c)) by {
        lemma_branch(adj, p, c);
        if c[k] < color {
            assert(within(mid, span(c)));
        }
    }
}

/// A record with a next colour below `color` stays first when the candidates
/// with the next colour `color` join.
proof fn lemma_leads_keep(adj: Seq<Seq<usize>>, p: Seq<usize>, color: usize, b: Best)
    requires
        p.len() < adj.len(),
        completes(adj, p, b.coloring),
        next_below(p, b.coloring, color as int),
        leads(adj, p, color as int, b),
    ensures
        leads(adj, p, color + 1, b),
{
    reveal(leads);
    let k = p.len() as int;
    lemma_branch(adj, p, b.coloring);
    assert forall|c: Seq<usize>| #[trigger]
        completes(adj, p, c) && next_below(p, c, color + 1) && within(b.count, span(c)) && span(c)
            <= b.count.unwrap() implies lex_le(b.coloring, c) by {
        lemma_branch(adj, p, c);
        if c[k] >= color {
            lemma_lex_branch(p, b.coloring, c);
        }
    }
}

/// A record found under the next colour `color`, with fewer colours than any
/// candidate under the smaller colours, is first among all of them.
proof fn lemma_leads_new(
    adj: Seq<Seq<usize>>,
    p: Seq<usize>,
    color: usize,
    mid: Option<usize>,
    b: Best,
)
    requires
        p.len() < adj.len(),
        covers(adj, p, color as int, mid),
        less(b.count, mid),
        leads(adj, p.push(color), any_color(), b),
    ensures
        leads(adj, p, color + 1, b),
{
    reveal(leads);
    reveal(covers);
    assert forall|c: Seq<usize>| #[trigger]
        completes(adj, p, c) && next_below(p, c, color + 1) && within(b.count, span(c)) && span(c)
            <= b.count.unwrap() implies lex_le(b.coloring, c) by {
        lemma_branch(adj, p, c);
    }
}

/// Going through the candidates with the next colour `color`, after those with
/// a smaller one.
pub proof fn lemma_search_step(
    adj: Seq<Seq<usize>>,
    p: Seq<usize>,
    color: usize,
    entry: Best,
    mid: Best,
    after: Best,
)
    requires
        p.len() < adj.len(),
        searched(adj, p, color as int, entry, mid),
        searched(adj, p.push(color), any_color(), mid, after),
    ensures
        searched(adj, p, color + 1, entry, after),
{
    lemma_covers_step(adj, p, color, mid.count, after.count);
    if after == mid {
        if mid != entry {
            lemma_leads_keep(adj, p, color, mid);
        }
    } else {
        lemma_branch_up(adj, p, color, after.coloring);
        lemma_leads_new(adj, p, color, mid.count, after);
    }
}

/// The colours that are not tried hold no candidate that could beat the record:
/// a colour above `span(p)` is not canonical, and one from the record's count
/// minus one on gives at least as many colours as the record.
pub proof fn lemma_search_exit(
    adj: Seq<Seq<usize>>,
    p: Seq<usize>,
    limit: usize,
    entry: Best,
    last: Best,
)
    requires
        p.len() < adj.len(),
        searched(adj, p, limit as int, entry, last),
        limit == span(p) + 1 || (entry.count matches Some(m) && limit + 1 == m),
    ensures
        searched(adj, p, any_color(), entry, last),
{
    reveal(covers);
    reveal(leads);
    assert forall|c: Seq<usize>| #[trigger]
        completes(adj, p, c) && next_below(p, c, any_color()) implies within(
        last.count,
        span(c),
    ) by {
        lemma_branch(adj, p, c);
    }
}

/// In a valid partial colouring the edges of the last vertex break no rule.
pub proof fn lemma_valid_extension_ok(adj: Seq<Seq<usize>>, p: Seq<usize>)
    requires
        p.len() > 0,
        valid_prefix(adj, p),
    ensures
        extension_ok(adj, p, p.len() - 1),
        !joined(adj, p.len() - 1, p.len() - 1),
{
}

/// What a search of the whole graph from an empty record leaves: nothing, if
/// the graph has a loop; else the first minimal colouring.
pub proof fn lemma_search_result(adj: Seq<Seq<usize>>, last: Best)
    requires
        adj.len() <= usize::MAX,
        searched(
            adj,
            Seq::<usize>::empty(),
            any_color(),
            Best { count: None, coloring: Seq::<usize>::empty() },
            last,
        ),
    ensures
        has_loop(adj) ==> last.count is None && last.coloring.len() == 0,
        !has_loop(adj) ==> last.count is Some && first_minimal_coloring(adj, last.coloring)
            && canonical(last.coloring) && color_count(last.coloring) == last.count.unwrap(),
{
    reveal(covers);
    reveal(leads);
    let root = Seq::<usize>::empty();
    if has_loop(adj) {
        if last.count is Some {
            lemma_loop_invalid(adj, last.coloring);
        }
    } else {
        let r = rainbow(adj.len());
        lemma_rainbow_valid(adj);
        assert(r.take(0) =~= root);
        assert(completes(adj, root, r));
        let best = last.coloring;
        lemma_canonical_count(best);
        assert forall|d: Seq<usize>| #[trigger] valid_coloring(adj, d) implies color_count(best)
            <= color_count(d) by {
            let e = relabel(d);
            lemma_relabel(d);
            lemma_same_pattern_valid(adj, d, e);
            assert(e.take(0) =~= root);
            assert(completes(adj, root, e));
        }
        assert forall|d: Seq<usize>| #[trigger]
            valid_coloring(adj, d) && color_count(d) == color_count(best) implies lex_le(
            best,
            d,
        ) by {
            let e = relabel(d);
            lemma_relabel(d);
            lemma_same_pattern_valid(adj, d, e);
            assert(e.take(0) =~= root);
            assert(completes(adj, root, e));
            lemma_relabel_first(d);
            lemma_lex_transitive(best, e, d);
        }
    }
}

} // verus!
