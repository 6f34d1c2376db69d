use crate::harmonious::model::{
    canonical, color_count, has_loop, joined, lex_le, proper, same_pair, span, valid_coloring,
    valid_prefix,
};
use vstd::prelude::*;

verus! {

/// Every colour of `c` lies below `span(c)`.
pub proof fn lemma_span_above(c: Seq<usize>, i: int)
    requires
        0 <= i < c.len(),
    ensures
        c[i] < span(c),
    decreases c.len(),
{
    if i < c.len() - 1 {
        lemma_span_above(c.drop_last(), i);
    }
}

/// A non-empty sequence holds the colour `span(c) - 1`.
pub proof fn lemma_span_attained(c: Seq<usize>)
    requires
        c.len() > 0,
    ensures
        exists|i: int| 0 <= i < c.len() && #[trigger] c[i] + 1 == span(c),
    decreases c.len(),
{
    if c.last() + 1 <= span(c.drop_last()) {
        lemma_span_attained(c.drop_last());
    }
}

/// Appending one colour raises the span to that colour's successor, if it was lower.
pub proof fn lemma_span_push(p: Seq<usize>, col: usize)
    ensures
        span(p.push(col)) == if col + 1 > span(p) {
            (col + 1) as nat
        } else {
            span(p)
        },
{
    assert(p.push(col).drop_last() =~= p);
}

/// The span of a prefix is at most the span of a longer prefix.
pub proof fn lemma_span_take(c: Seq<usize>, i: int, j: int)
    requires
        0 <= i <= j <= c.len(),
    ensures
        span(c.take(i)) <= span(c.take(j)),
    decreases j - i,
{
    if i < j {
        assert(c.take(j).drop_last() =~= c.take(j - 1));
        lemma_span_take(c, i, j - 1);
    }
}

/// A prefix of a canonical sequence is canonical.
pub proof fn lemma_canonical_take(c: Seq<usize>, k: int)
    requires
        canonical(c),
        0 <= k <= c.len(),
    ensures
        canonical(c.take(k)),
{
    assert forall|i: int| 0 <= i < c.take(k).len() implies (#[trigger] c.take(k)[i]) <= span(
        c.take(k).take(i),
    ) by {
        assert(c.take(k).take(i) =~= c.take(i));
    }
}

/// A canonical sequence stays canonical when it is extended by a colour that
/// it holds already or by the least colour that it does not hold.
pub proof fn lemma_canonical_push(p: Seq<usize>, col: usize)
    requires
        canonical(p),
        col <= span(p),
    ensures
        canonical(p.push(col)),
{
    let c = p.push(col);
    assert forall|i: int| 0 <= i < c.len() implies (#[trigger] c[i]) <= span(c.take(i)) by {
        if i < p.len() {
            assert(c.take(i) =~= p.take(i));
        } else {
            assert(c.take(i) =~= p);
        }
    }
}

/// A canonical sequence has no more colours than entries.
pub proof fn lemma_canonical_span_le_len(c: Seq<usize>)
    requires
        canonical(c),
    ensures
        span(c) <= c.len(),
    decreases c.len(),
{
    if c.len() > 0 {
        let p = c.drop_last();
        lemma_canonical_take(c, c.len() - 1);
        lemma_canonical_span_le_len(p);
    }
}

/// In a canonical sequence no vertex has a colour above its own index.
pub proof fn lemma_canonical_below(c: Seq<usize>, i: int)
    requires
        canonical(c),
        0 <= i < c.len(),
    ensures
        c[i] <= i,
{
    lemma_canonical_take(c, i);
    lemma_canonical_span_le_len(c.take(i));
}

/// In a canonical sequence every colour below the span occurs.
pub proof fn lemma_canonical_onto(c: Seq<usize>, a: usize)
    requires
        canonical(c),
        a < span(c),
    ensures
        exists|i: int| 0 <= i < c.len() && #[trigger] c[i] == a,
    decreases c.len(),
{
    let p = c.drop_last();
    lemma_canonical_take(c, c.len() - 1);
    if a < span(p) {
        lemma_canonical_onto(p, a);
    }
}

/// The colours below `m`.
pub open spec fn below(m: nat) -> Set<usize> {
    Set::new(|a: usize| a < m)
}

/// There are `m` colours below `m`.
pub proof fn lemma_below_len(m: nat)
    requires
        m <= usize::MAX + 1,
    ensures
        below(m).finite(),
        below(m).len() == m,
    decreases m,
{
    if m == 0 {
        assert(below(m) =~= Set::<usize>::empty());
    } else {
        lemma_below_len((m - 1) as nat);
        assert(below(m) =~= below((m - 1) as nat).insert((m - 1) as usize));
    }
}

/// A canonical sequence has exactly `span` distinct colours.
pub proof fn lemma_canonical_count(c: Seq<usize>)
    requires
        canonical(c),
    ensures
        color_count(c) == span(c),
{
    assert(c.to_set() =~= below(span(c))) by {
        assert forall|a: usize| c.to_set().contains(a) <==> below(span(c)).contains(a) by {
            if c.to_set().contains(a) {
                let i = choose|i: int| 0 <= i < c.len() && c[i] == a;
                lemma_span_above(c, i);
            }
            if a < span(c) {
                lemma_canonical_onto(c, a);
            }
        }
    }
    if c.len() > 0 {
        lemma_span_attained(c);
    }
    lemma_below_len(span(c));
}

/// A prefix of a valid partial colouring is valid.
pub proof fn lemma_valid_take(adj: Seq<Seq<usize>>, c: Seq<usize>, k: int)
    requires
        valid_prefix(adj, c),
        0 <= k <= c.len(),
    ensures
        valid_prefix(adj, c.take(k)),
{
}

/// The colouring in which colours are renamed in the order of their first
/// occurrence: the first colour becomes 0, the next new one 1, and so on.
pub open spec fn relabel(c: Seq<usize>) -> Seq<usize>
    decreases c.len(),
{
    if c.len() == 0 {
        Seq::<usize>::empty()
    } else {
        let p = c.drop_last();
        let r = relabel(p);
        if exists|i: int| 0 <= i < p.len() && p[i] == c.last() {
            r.push(r[choose|i: int| 0 <= i < p.len() && p[i] == c.last()])
        } else {
            r.push(span(r) as usize)
        }
    }
}

/// Renaming keeps which vertices share a colour, gives a canonical sequence, and
/// uses the colours below the number of distinct colours of the sequence it renames.
pub proof fn lemma_relabel(c: Seq<usize>)
    requires
        c.len() <= usize::MAX,
    ensures
        relabel(c).len() == c.len(),
        forall|i: int, j: int|
            0 <= i < c.len() && 0 <= j < c.len() ==> ((#[trigger] relabel(c)[i]
                == #[trigger] relabel(c)[j]) <==> c[i] == c[j]),
        canonical(relabel(c)),
        span(relabel(c)) == color_count(c),
    decreases c.len(),
{
    broadcast use vstd::seq_lib::seq_to_set_is_finite;

    if c.len() == 0 {
        assert(c.to_set() =~= Set::<usize>::empty());
    } else {
        let p = c.drop_last();
        let r = relabel(p);
        let rc = relabel(c);
        lemma_relabel(p);
        lemma_canonical_span_le_len(r);
        if exists|i: int| 0 <= i < p.len() && p[i] == c.last() {
            let i0 = choose|i: int| 0 <= i < p.len() && p[i] == c.last();
            lemma_span_above(r, i0);
            lemma_canonical_push(r, r[i0]);
            lemma_span_push(r, r[i0]);
            assert(c.to_set() =~= p.to_set()) by {}
        } else {
            let fresh = span(r) as usize;
            lemma_canonical_push(r, fresh);
            lemma_span_push(r, fresh);
            assert(c.to_set() =~= p.to_set().insert(c.last())) by {
                assert forall|a: usize| c.to_set().contains(a) implies p.to_set().insert(
                    c.last(),
                ).contains(a) by {
                    let k = choose|k: int| 0 <= k < c.len() && c[k] == a;
                    if k < c.len() - 1 {
                        assert(p[k] == a);
                    }
                }
            }
            assert forall|i: int, j: int| 0 <= i < c.len() && 0 <= j < c.len() implies ((
            #[trigger] rc[i] == #[trigger] rc[j]) <==> c[i] == c[j]) by {
                if i < c.len() - 1 {
                    lemma_span_above(r, i);
                }
                if j < c.len() - 1 {
                    lemma_span_above(r, j);
                }
            }
        }
    }
}

/// Renaming does not move a sequence back in the order of a dictionary.
pub proof fn lemma_relabel_first(c: Seq<usize>)
    requires
        c.len() <= usize::MAX,
    ensures
        lex_le(relabel(c), c),
    decreases c.len(),
{
    if c.len() == 0 {
        assert(relabel(c) =~= c);
    } else {
        let p = c.drop_last();
        let r = relabel(p);
        let rc = relabel(c);
        lemma_relabel(p);
        lemma_relabel(c);
        lemma_relabel_first(p);
        if r != p {
            let i = choose|i: int|
                0 <= i < r.len() && i < p.len() && #[trigger] r.take(i) == p.take(i) && r[i] < p[i];
            assert(rc.take(i) =~= r.take(i));
            assert(c.take(i) =~= p.take(i));
        } else if exists|i: int| 0 <= i < p.len() && p[i] == c.last() {
            assert(rc =~= c);
        } else {
            let k = p.len() as int;
            assert(rc.take(k) =~= c.take(k));
            lemma_canonical_span_le_len(p);
            if c[k] < span(p) {
                lemma_canonical_onto(p, c[k]);
            }
            if c[k] == span(p) {
                assert(rc =~= c);
            }
        }
    }
}

/// The order of a dictionary is transitive.
pub proof fn lemma_lex_transitive(a: Seq<usize>, b: Seq<usize>, c: Seq<usize>)
    requires
        lex_le(a, b),
        lex_le(b, c),
    ensures
        lex_le(a, c),
{
    if a != b && b != c {
        let i = choose|i: int|
            0 <= i < a.len() && i < b.len() && #[trigger] a.take(i) == b.take(i) && a[i] < b[i];
        let j = choose|j: int|
            0 <= j < b.len() && j < c.len() && #[trigger] b.take(j) == c.take(j) && b[j] < c[j];
        let k = if i <= j {
            i
        } else {
            j
        };
        assert(a.take(k) =~= c.take(k));
        if i < j {
            assert(b.take(j)[i] == c.take(j)[i]);
        } else if j < i {
            assert(a.take(i)[j] == b.take(i)[j]);
        }
    }
}

/// Two colourings in which the same vertices share a colour are valid together.
pub proof fn lemma_same_pattern_valid(adj: Seq<Seq<usize>>, c: Seq<usize>, d: Seq<usize>)
    requires
        valid_coloring(adj, c),
        d.len() == c.len(),
        forall|i: int, j: int|
            0 <= i < c.len() && 0 <= j < c.len() ==> ((#[trigger] d[i] == #[trigger] d[j]) <==> c[i]
                == c[j]),
    ensures
        valid_coloring(adj, d),
{
}

/// The colouring that gives every vertex a colour of its own.
pub open spec fn rainbow(n: nat) -> Seq<usize> {
    Seq::new(n, |i: int| i as usize)
}

/// A graph without a loop has a harmonious colouring: the rainbow colouring,
/// which is canonical.
pub proof fn lemma_rainbow_valid(adj: Seq<Seq<usize>>)
    requires
        !has_loop(adj),
        adj.len() <= usize::MAX,
    ensures
        valid_coloring(adj, rainbow(adj.len())),
        canonical(rainbow(adj.len())),
{
}

/// A graph with a loop has no harmonious colouring, not even a proper one.
pub proof fn lemma_loop_invalid(adj: Seq<Seq<usize>>, c: Seq<usize>)
    requires
        has_loop(adj),
        c.len() == adj.len(),
    ensures
        !proper(adj, c),
        !valid_coloring(adj, c),
{
}

} // verus!
