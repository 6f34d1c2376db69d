use crate::harmonious::model::{harmonious, joined, proper, same_pair, valid_prefix};
use vstd::prelude::*;

verus! {

/// Some edge between two of the vertices `0..p.len()` has an end of colour `a`
/// and the other end of colour `b`.
pub open spec fn realized(adj: Seq<Seq<usize>>, p: Seq<usize>, a: int, b: int) -> bool {
    exists|x: int, y: int|
        0 <= x < p.len() && 0 <= y < p.len() && #[trigger] joined(adj, x, y) && p[x] == a && p[y]
            == b
}

/// The last vertex of `p` has an edge to a vertex below `limit` whose ends carry
/// the colours `a` and `b`.
pub open spec fn closes(adj: Seq<Seq<usize>>, p: Seq<usize>, limit: int, a: int, b: int) -> bool {
    exists|w: int|
        0 <= w < limit && #[trigger] joined(adj, p.len() - 1, w) && same_pair(
            a,
            b,
            p[p.len() - 1] as int,
            p[w] as int,
        )
}

/// The edges from the last vertex of `p` to the vertices below `limit` break no
/// rule: no such neighbour has the last vertex's colour, no such edge repeats a
/// pair of colours that the earlier vertices realize, and no two such
/// neighbours share a colour.
pub open spec fn extension_ok(adj: Seq<Seq<usize>>, p: Seq<usize>, limit: int) -> bool {
    &&& forall|w: int|
        0 <= w < limit && #[trigger] joined(adj, p.len() - 1, w) ==> p[w] != p[p.len() - 1]
            && !realized(adj, p.drop_last(), p[p.len() - 1] as int, p[w] as int)
    &&& forall|w: int, u: int|
        0 <= w < limit && 0 <= u < limit && w != u && #[trigger] joined(adj, p.len() - 1, w)
            && #[trigger] joined(adj, p.len() - 1, u) ==> p[w] != p[u]
}

/// The table has `n` rows of `n` cells.
pub open spec fn square(t: Seq<Vec<bool>>, n: nat) -> bool {
    &&& t.len() == n
    &&& forall|a: int| 0 <= a < n ==> (#[trigger] t[a])@.len() == n
}

/// The two tables have the same rows.
pub open spec fn same_cells(t1: Seq<Vec<bool>>, t2: Seq<Vec<bool>>) -> bool {
    &&& t1.len() == t2.len()
    &&& forall|a: int| 0 <= a < t1.len() ==> (#[trigger] t1[a])@ == t2[a]@
}

/// The table marks exactly the pairs of colours that the edges between the
/// vertices `0..p.len()` realize.
pub open spec fn table_of(t: Seq<Vec<bool>>, n: nat, adj: Seq<Seq<usize>>, p: Seq<usize>) -> bool {
    &&& square(t, n)
    &&& forall|a: int, b: int|
        0 <= a < n && 0 <= b < n ==> (#[trigger] t[a]@[b]) == realized(adj, p, a, b)
}

/// The table marks the pairs that the vertices before the last one realize, and
/// those that the last vertex closes with its neighbours below `limit`.
pub open spec fn table_holds(
    t: Seq<Vec<bool>>,
    n: nat,
    adj: Seq<Seq<usize>>,
    p: Seq<usize>,
    limit: int,
) -> bool {
    &&& square(t, n)
    &&& forall|a: int, b: int|
        0 <= a < n && 0 <= b < n ==> (#[trigger] t[a]@[b]) == (realized(adj, p.drop_last(), a, b)
            || closes(adj, p, limit, a, b))
}

/// `t2` is `t1` with the cells of the unordered pair `{a0, b0}` set to `val`.
pub open spec fn table_set(
    t1: Seq<Vec<bool>>,
    t2: Seq<Vec<bool>>,
    n: nat,
    a0: int,
    b0: int,
    val: bool,
) -> bool {
    &&& square(t1, n)
    &&& square(t2, n)
    &&& forall|a: int, b: int|
        0 <= a < n && 0 <= b < n ==> (#[trigger] t2[a]@[b]) == (if same_pair(a, b, a0, b0) {
            val
        } else {
            t1[a]@[b]
        })
}

/// Two tables that mark the pairs of one partial colouring hold the same cells.
pub proof fn lemma_tables_agree(
    t1: Seq<Vec<bool>>,
    t2: Seq<Vec<bool>>,
    n: nat,
    adj: Seq<Seq<usize>>,
    p: Seq<usize>,
)
    requires
        table_of(t1, n, adj, p),
        table_of(t2, n, adj, p),
    ensures
        same_cells(t1, t2),
{
    assert forall|a: int| 0 <= a < t1.len() implies (#[trigger] t1[a])@ == t2[a]@ by {}
}

/// Before any edge of the last vertex is looked at, the table of the earlier
/// vertices is the table of the extension.
pub proof fn lemma_table_start(t: Seq<Vec<bool>>, n: nat, adj: Seq<Seq<usize>>, p: Seq<usize>)
    requires
        p.len() > 0,
        table_of(t, n, adj, p.drop_last()),
    ensures
        table_holds(t, n, adj, p, 0),
        extension_ok(adj, p, 0),
{
}

/// With all edges of the last vertex looked at, the table is that of `p`, and
/// the other way round, if the last vertex is not its own neighbour.
pub proof fn lemma_realized_split(adj: Seq<Seq<usize>>, p: Seq<usize>, a: int, b: int)
    requires
        p.len() > 0,
        !joined(adj, p.len() - 1, p.len() - 1),
    ensures
        realized(adj, p, a, b) <==> (realized(adj, p.drop_last(), a, b) || closes(
            adj,
            p,
            p.len() - 1,
            a,
            b,
        )),
{
    let v = p.len() - 1;
    if realized(adj, p, a, b) {
        let (x, y) = choose|x: int, y: int|
            0 <= x < p.len() && 0 <= y < p.len() && #[trigger] joined(adj, x, y) && p[x] == a
                && p[y] == b;
        if x < v && y == v {
            assert(joined(adj, v, x));
        }
    }
    if closes(adj, p, v, a, b) {
        let w = choose|w: int|
            0 <= w < v && #[trigger] joined(adj, p.len() - 1, w) && same_pair(
                a,
                b,
                p[p.len() - 1] as int,
                p[w] as int,
            );
        if a != p[v] || b != p[w] {
            assert(joined(adj, w, v));
        }
    }
}

/// The two readings of a full table agree.
pub proof fn lemma_table_full(t: Seq<Vec<bool>>, n: nat, adj: Seq<Seq<usize>>, p: Seq<usize>)
    requires
        p.len() > 0,
        !joined(adj, p.len() - 1, p.len() - 1),
    ensures
        table_holds(t, n, adj, p, p.len() - 1) <==> table_of(t, n, adj, p),
{
    assert forall|a: int, b: int| 0 <= a < n && 0 <= b < n implies (realized(adj, p, a, b) <==> (
    realized(adj, p.drop_last(), a, b) || closes(adj, p, p.len() - 1, a, b))) by {
        lemma_realized_split(adj, p, a, b);
    }
}

/// A vertex that is no neighbour of the last vertex changes nothing.
pub proof fn lemma_skip_step(
    t: Seq<Vec<bool>>,
    n: nat,
    adj: Seq<Seq<usize>>,
    p: Seq<usize>,
    w: int,
)
    requires
        p.len() > 0,
        0 <= w < p.len() - 1,
        !joined(adj, p.len() - 1, w),
    ensures
        table_holds(t, n, adj, p, w) <==> table_holds(t, n, adj, p, w + 1),
        extension_ok(adj, p, w) <==> extension_ok(adj, p, w + 1),
{
}

/// What the last vertex closes with its neighbours below `w + 1` is what it
/// closes below `w`, and the pair of its edge to `w`.
pub proof fn lemma_closes_step(adj: Seq<Seq<usize>>, p: Seq<usize>, w: int, a: int, b: int)
    requires
        p.len() > 0,
        0 <= w < p.len() - 1,
        joined(adj, p.len() - 1, w),
    ensures
        closes(adj, p, w + 1, a, b) <==> (closes(adj, p, w, a, b) || same_pair(
            a,
            b,
            p[p.len() - 1] as int,
            p[w] as int,
        )),
{
}

/// An edge of the last vertex whose pair of colours is free can be recorded.
pub proof fn lemma_add_step(
    t1: Seq<Vec<bool>>,
    t2: Seq<Vec<bool>>,
    n: nat,
    adj: Seq<Seq<usize>>,
    p: Seq<usize>,
    w: int,
)
    requires
        p.len() > 0,
        0 <= w < p.len() - 1,
        joined(adj, p.len() - 1, w),
        p[p.len() - 1] < n,
        p[w] < n,
        p[w] != p[p.len() - 1],
        table_holds(t1, n, adj, p, w),
        extension_ok(adj, p, w),
        !t1[p[p.len() - 1] as int]@[p[w] as int],
        table_set(t1, t2, n, p[p.len() - 1] as int, p[w] as int, true),
    ensures
        table_holds(t2, n, adj, p, w + 1),
        extension_ok(adj, p, w + 1),
{
}

/// An edge of the last vertex that was recorded can be taken back.
pub proof fn lemma_remove_step(
    t1: Seq<Vec<bool>>,
    t2: Seq<Vec<bool>>,
    n: nat,
    adj: Seq<Seq<usize>>,
    p: Seq<usize>,
    w: int,
)
    requires
        p.len() > 0,
        0 <= w < p.len() - 1,
        joined(adj, p.len() - 1, w),
        p[p.len() - 1] < n,
        p[w] < n,
        table_holds(t1, n, adj, p, w + 1),
        extension_ok(adj, p, w + 1),
        table_set(t1, t2, n, p[p.len() - 1] as int, p[w] as int, false),
    ensures
        table_holds(t2, n, adj, p, w),
        extension_ok(adj, p, w),
{
    let base = p.drop_last();
    let col = p[p.len() - 1] as int;
    let cw = p[w] as int;
    assert forall|a: int, b: int| 0 <= a < n && 0 <= b < n implies (#[trigger] t2[a]@[b]) == (
    realized(adj, base, a, b) || closes(adj, p, w, a, b)) by {
        lemma_closes_step(adj, p, w, a, b);
        if same_pair(a, b, col, cw) && realized(adj, base, a, b) {
            // the pair would stand in the table of the earlier vertices
            let (x, y) = choose|x: int, y: int|
                0 <= x < base.len() && 0 <= y < base.len() && #[trigger] joined(adj, x, y)
                    && base[x] == a && base[y] == b;
            assert(joined(adj, y, x));
        }
    }
}

/// An edge of the last vertex that joins equal colours, or whose pair of
/// colours is taken, makes the extension invalid.
pub proof fn lemma_collision(
    t: Seq<Vec<bool>>,
    n: nat,
    adj: Seq<Seq<usize>>,
    p: Seq<usize>,
    w: int,
)
    requires
        p.len() > 0,
        0 <= w < p.len() - 1,
        joined(adj, p.len() - 1, w),
        p[p.len() - 1] < n,
        p[w] < n,
        table_holds(t, n, adj, p, w),
        extension_ok(adj, p, w),
        p[w] == p[p.len() - 1] || t[p[p.len() - 1] as int]@[p[w] as int],
    ensures
        !(proper(adj, p) && harmonious(adj, p)),
{
}

/// A valid partial colouring stays valid when the next vertex gets a colour
/// with which none of its edges breaks a rule.
pub proof fn lemma_extension_valid(adj: Seq<Seq<usize>>, p: Seq<usize>)
    requires
        0 < p.len() <= adj.len(),
        valid_prefix(adj, p.drop_last()),
        !joined(adj, p.len() - 1, p.len() - 1),
        extension_ok(adj, p, p.len() - 1),
    ensures
        valid_prefix(adj, p),
{
    let v = p.len() - 1;
    assert forall|x: int, y: int|
        0 <= x < p.len() && 0 <= y < p.len() && #[trigger] joined(adj, x, y) implies p[x]
        != p[y] by {
        if x < v && y == v {
            assert(joined(adj, v, x));
        }
    }
    assert forall|x: int, y: int, s: int, r: int|
        0 <= x < p.len() && 0 <= y < p.len() && 0 <= s < p.len() && 0 <= r < p.len()
            && #[trigger] joined(adj, x, y) && #[trigger] joined(adj, s, r) && same_pair(
            p[x] as int,
            p[y] as int,
            p[s] as int,
            p[r] as int,
        ) implies same_pair(x, y, s, r) by {
        // the end of an edge that is not the last vertex, if the other end is
        let u1 = if x == v {
            y
        } else {
            x
        };
        let u2 = if s == v {
            r
        } else {
            s
        };
        let first_old = x < v && y < v;
        let second_old = s < v && r < v;
        if first_old && !second_old {
            assert(joined(adj, y, x));
        } else if second_old && !first_old {
            assert(joined(adj, v, u1));
            assert(joined(adj, r, s));
        } else if !first_old && !second_old {
            assert(joined(adj, v, u1));
            assert(joined(adj, v, u2));
        }
    }
}

} // verus!
