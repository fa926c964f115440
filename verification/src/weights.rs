//! The mathematical model of a weighted digraph: a square matrix of
//! non-negative weights, together with the degrees derived from it.

use vstd::prelude::*;

verus! {

/// The largest weight a single edge can accumulate.
pub const MAX_WEIGHT: i32 = 0x7fff_ffff;

/// The sum of the entries of `s`.
pub open spec fn sum(s: Seq<int>) -> int
    decreases s.len(),
{
    if s.len() == 0 {
        0
    } else {
        sum(s.drop_last()) + s.last()
    }
}

/// Every row of `m` has as many entries as `m` has rows.
pub open spec fn is_square(m: Seq<Seq<int>>) -> bool {
    forall|i: int| 0 <= i < m.len() ==> (#[trigger] m[i]).len() == m.len()
}

/// A weight matrix is valid when it is square and every entry is a
/// non-negative weight no larger than `MAX_WEIGHT`.
pub open spec fn valid_weights(m: Seq<Seq<int>>) -> bool {
    &&& is_square(m)
    &&& forall|i: int, j: int|
        0 <= i < m.len() && 0 <= j < m.len() ==> 0 <= #[trigger] m[i][j] <= MAX_WEIGHT
}

/// The matrix of `n` nodes without any edge.
pub open spec fn empty_weights(n: nat) -> Seq<Seq<int>> {
    Seq::new(n, |i: int| Seq::new(n, |j: int| 0int))
}

/// The matrix `m` after `w` has been added to the weight of the edge `i -> j`.
pub open spec fn with_added_weight(m: Seq<Seq<int>>, i: int, j: int, w: int) -> Seq<Seq<int>> {
    m.update(i, m[i].update(j, m[i][j] + w))
}

/// The weights of the edges that end in `node`, indexed by their source.
pub open spec fn incoming(m: Seq<Seq<int>>, node: int) -> Seq<int> {
    Seq::new(m.len(), |i: int| m[i][node])
}

/// The total weight of the edges that end in `node`.
pub open spec fn in_degree(m: Seq<Seq<int>>, node: int) -> int {
    sum(incoming(m, node))
}

/// The total weight of the edges that start in `node`.
pub open spec fn out_degree(m: Seq<Seq<int>>, node: int) -> int {
    sum(m[node])
}

/// The in-degree of every node, in node order.
pub open spec fn in_degrees(m: Seq<Seq<int>>) -> Seq<int> {
    Seq::new(m.len(), |i: int| in_degree(m, i))
}

/// The out-degree of every node, in node order.
pub open spec fn out_degrees(m: Seq<Seq<int>>) -> Seq<int> {
    Seq::new(m.len(), |i: int| out_degree(m, i))
}

/// The total accumulated weight of all edges: the sum of all entries of `m`.
pub open spec fn total_weight(m: Seq<Seq<int>>) -> int {
    sum(m.flatten())
}

/// The sum of a concatenation is the sum of the sums of its parts.
pub proof fn lemma_sum_concat(a: Seq<int>, b: Seq<int>)
    ensures
        sum(a + b) == sum(a) + sum(b),
    decreases b.len(),
{
    if b.len() == 0 {
        assert(a + b =~= a);
    } else {
        assert((a + b).drop_last() =~= a + b.drop_last());
        lemma_sum_concat(a, b.drop_last());
    }
}

/// Replacing one entry changes the sum by the difference of the entries.
pub proof fn lemma_sum_update(s: Seq<int>, k: int, x: int)
    requires
        0 <= k < s.len(),
    ensures
        sum(s.update(k, x)) == sum(s) - s[k] + x,
    decreases s.len(),
{
    if k == s.len() - 1 {
        assert(s.update(k, x).drop_last() =~= s.drop_last());
    } else {
        assert(s.update(k, x).drop_last() =~= s.drop_last().update(k, x));
        lemma_sum_update(s.drop_last(), k, x);
    }
}

/// The sum of a sequence of zeros is zero.
pub proof fn lemma_sum_zeros(s: Seq<int>)
    requires
        forall|k: int| 0 <= k < s.len() ==> s[k] == 0,
    ensures
        sum(s) == 0,
    decreases s.len(),
{
    if s.len() > 0 {
        lemma_sum_zeros(s.drop_last());
    }
}

/// The sum of non-negative entries is at least each single entry, and each
/// prefix of such a sequence sums to at most the whole.
pub proof fn lemma_sum_bounds(s: Seq<int>, k: int)
    requires
        forall|i: int| 0 <= i < s.len() ==> 0 <= s[i],
        0 <= k <= s.len(),
    ensures
        0 <= sum(s.take(k)) <= sum(s),
        k < s.len() ==> s[k] <= sum(s),
    decreases s.len() - k,
{
    if k == s.len() {
        assert(s.take(k) =~= s);
        lemma_sum_nonnegative(s);
    } else {
        lemma_sum_bounds(s, k + 1);
        assert(s.take(k + 1).drop_last() =~= s.take(k));
        lemma_sum_nonnegative(s.take(k));
    }
}

/// The sum of non-negative entries is non-negative.
pub proof fn lemma_sum_nonnegative(s: Seq<int>)
    requires
        forall|i: int| 0 <= i < s.len() ==> 0 <= s[i],
    ensures
        0 <= sum(s),
    decreases s.len(),
{
    if s.len() > 0 {
        lemma_sum_nonnegative(s.drop_last());
    }
}

/// The sum of the entry-wise sum of two sequences is the sum of their sums.
proof fn lemma_sum_entrywise(a: Seq<int>, b: Seq<int>, c: Seq<int>)
    requires
        a.len() == b.len(),
        c.len() == a.len(),
        forall|k: int| 0 <= k < c.len() ==> c[k] == a[k] + b[k],
    ensures
        sum(c) == sum(a) + sum(b),
    decreases c.len(),
{
    if c.len() > 0 {
        lemma_sum_entrywise(a.drop_last(), b.drop_last(), c.drop_last());
    }
}

/// The sums of the rows of `rows`, in row order.
spec fn row_sums(rows: Seq<Seq<int>>) -> Seq<int> {
    Seq::new(rows.len(), |i: int| sum(rows[i]))
}

/// The sums of the first `width` columns of `rows`, in column order.
spec fn column_sums(rows: Seq<Seq<int>>, width: nat) -> Seq<int> {
    Seq::new(width, |j: int| sum(Seq::new(rows.len(), |i: int| rows[i][j])))
}

/// The entries of a table add up to the sum of its row sums.
proof fn lemma_flatten_sum(rows: Seq<Seq<int>>)
    ensures
        sum(rows.flatten()) == sum(row_sums(rows)),
    decreases rows.len(),
{
    rows.lemma_flatten_and_flatten_alt_are_equivalent();
    if rows.len() == 0 {
        assert(rows.flatten_alt() =~= Seq::<int>::empty());
    } else {
        let front = rows.drop_last();
        front.lemma_flatten_and_flatten_alt_are_equivalent();
        lemma_flatten_sum(front);
        lemma_sum_concat(front.flatten_alt(), rows.last());
        assert(row_sums(rows).drop_last() =~= row_sums(front));
    }
}

/// In a table whose rows all have `width` entries, the column sums add up to
/// the same total as the row sums.
proof fn lemma_column_sums(rows: Seq<Seq<int>>, width: nat)
    requires
        forall|i: int| 0 <= i < rows.len() ==> (#[trigger] rows[i]).len() == width,
    ensures
        sum(column_sums(rows, width)) == sum(row_sums(rows)),
    decreases rows.len(),
{
    if rows.len() == 0 {
        assert forall|j: int| 0 <= j < width implies column_sums(rows, width)[j] == 0 by {
            assert(Seq::new(rows.len(), |i: int| rows[i][j]) =~= Seq::<int>::empty());
        }
        lemma_sum_zeros(column_sums(rows, width));
        assert(row_sums(rows) =~= Seq::<int>::empty());
    } else {
        let front = rows.drop_last();
        let last = rows.last();
        lemma_column_sums(front, width);
        assert forall|j: int| 0 <= j < width implies column_sums(rows, width)[j] == column_sums(
            front,
            width,
        )[j] + last[j] by {
            let column = Seq::new(rows.len(), |i: int| rows[i][j]);
            assert(column.drop_last() =~= Seq::new(front.len(), |i: int| front[i][j]));
        }
        lemma_sum_entrywise(column_sums(front, width), last, column_sums(rows, width));
        assert(row_sums(rows).drop_last() =~= row_sums(front));
    }
}

/// The in-degrees of all nodes, the out-degrees of all nodes, and the
/// entries of the matrix each add up to the total accumulated weight.
pub proof fn lemma_degree_sums(m: Seq<Seq<int>>)
    requires
        is_square(m),
    ensures
        sum(in_degrees(m)) == total_weight(m),
        sum(out_degrees(m)) == total_weight(m),
{
    lemma_flatten_sum(m);
    lemma_column_sums(m, m.len());
    assert(out_degrees(m) =~= row_sums(m));
    assert(in_degrees(m) =~= column_sums(m, m.len()));
}

/// A graph without edges has no accumulated weight.
pub proof fn lemma_total_weight_empty(n: nat)
    ensures
        valid_weights(empty_weights(n)),
        total_weight(empty_weights(n)) == 0,
{
    let m = empty_weights(n);
    lemma_flatten_sum(m);
    assert forall|i: int| 0 <= i < n implies row_sums(m)[i] == 0 by {
        lemma_sum_zeros(m[i]);
    }
    lemma_sum_zeros(row_sums(m));
}

/// Adding `w` to the edge `i -> j` changes no weight but that of the edge,
/// and adds `w` to the total accumulated weight, to the out-degree of `i`
/// and to the in-degree of `j`; all other degrees stay as they are.
pub proof fn lemma_added_weight(m: Seq<Seq<int>>, i: int, j: int, w: int)
    requires
        is_square(m),
        0 <= i < m.len(),
        0 <= j < m.len(),
    ensures
        is_square(with_added_weight(m, i, j, w)),
        with_added_weight(m, i, j, w).len() == m.len(),
        with_added_weight(m, i, j, w)[i][j] == m[i][j] + w,
        forall|a: int, b: int|
            0 <= a < m.len() && 0 <= b < m.len() && (a != i || b != j) ==> with_added_weight(
                m,
                i,
                j,
                w,
            )[a][b] == m[a][b],
        total_weight(with_added_weight(m, i, j, w)) == total_weight(m) + w,
        forall|node: int|
            0 <= node < m.len() ==> #[trigger] out_degree(with_added_weight(m, i, j, w), node)
                == out_degree(m, node) + if node == i {
                w
            } else {
                0
            },
        forall|node: int|
            0 <= node < m.len() ==> #[trigger] in_degree(with_added_weight(m, i, j, w), node)
                == in_degree(m, node) + if node == j {
                w
            } else {
                0
            },
{
    let m2 = with_added_weight(m, i, j, w);
    lemma_flatten_sum(m);
    lemma_flatten_sum(m2);
    lemma_sum_update(m[i], j, m[i][j] + w);
    assert(row_sums(m2) =~= row_sums(m).update(i, sum(m[i]) + w));
    lemma_sum_update(row_sums(m), i, sum(m[i]) + w);
    assert forall|node: int| 0 <= node < m.len() implies #[trigger] in_degree(m2, node)
        == in_degree(m, node) + if node == j {
        w
    } else {
        0
    } by {
        if node == j {
            assert(incoming(m2, j) =~= incoming(m, j).update(i, m[i][j] + w));
            lemma_sum_update(incoming(m, j), i, m[i][j] + w);
        } else {
            assert(incoming(m2, node) =~= incoming(m, node));
        }
    }
}

/// Weights added to the same edge accumulate: after two additions the edge
/// carries its earlier weight and both amounts.
pub proof fn lemma_weights_accumulate(m: Seq<Seq<int>>, i: int, j: int, w1: int, w2: int)
    requires
        is_square(m),
        0 <= i < m.len(),
        0 <= j < m.len(),
    ensures
        with_added_weight(with_added_weight(m, i, j, w1), i, j, w2)[i][j] == m[i][j] + w1 + w2,
        with_added_weight(with_added_weight(m, i, j, w1), i, j, w2) == with_added_weight(
            m,
            i,
            j,
            w1 + w2,
        ),
        m[i][j] == 0 ==> with_added_weight(with_added_weight(m, i, j, w1), i, j, w2)[i][j] == w1
            + w2,
{
    assert(with_added_weight(with_added_weight(m, i, j, w1), i, j, w2) =~~= with_added_weight(
        m,
        i,
        j,
        w1 + w2,
    ));
}

/// In a valid matrix no degree is negative and no degree exceeds the total
/// accumulated weight.
pub proof fn lemma_degree_bounds(m: Seq<Seq<int>>, node: int)
    requires
        valid_weights(m),
        0 <= node < m.len(),
    ensures
        0 <= in_degree(m, node) <= total_weight(m),
        0 <= out_degree(m, node) <= total_weight(m),
{
    lemma_degree_sums(m);
    assert forall|i: int| 0 <= i < m.len() implies 0 <= #[trigger] in_degrees(m)[i] by {
        lemma_sum_nonnegative(incoming(m, i));
    }
    assert forall|i: int| 0 <= i < m.len() implies 0 <= #[trigger] out_degrees(m)[i] by {
        lemma_sum_nonnegative(m[i]);
    }
    lemma_sum_bounds(in_degrees(m), node);
    lemma_sum_bounds(out_degrees(m), node);
}

/// Entries between zero and `MAX_WEIGHT` sum to at most `MAX_WEIGHT` per entry.
proof fn lemma_sum_of_weights(s: Seq<int>)
    requires
        forall|i: int| 0 <= i < s.len() ==> 0 <= #[trigger] s[i] <= MAX_WEIGHT,
    ensures
        0 <= sum(s) <= s.len() * MAX_WEIGHT,
    decreases s.len(),
{
    if s.len() > 0 {
        lemma_sum_of_weights(s.drop_last());
    }
}

/// In a valid matrix no degree exceeds what one edge of the largest weight
/// from or to every node would add up to.
pub proof fn lemma_degree_within(m: Seq<Seq<int>>, node: int)
    requires
        valid_weights(m),
        0 <= node < m.len(),
    ensures
        0 <= in_degree(m, node) <= m.len() * MAX_WEIGHT,
        0 <= out_degree(m, node) <= m.len() * MAX_WEIGHT,
{
    lemma_sum_of_weights(m[node]);
    lemma_sum_of_weights(incoming(m, node));
}

/// An edge counts towards the out-degree of the node it starts in and the
/// in-degree of the node it ends in: both are at least its weight, and so
/// positive.
pub proof fn lemma_edge_gives_degree(m: Seq<Seq<int>>, from: int, to: int)
    requires
        valid_weights(m),
        0 <= from < m.len(),
        0 <= to < m.len(),
        m[from][to] > 0,
    ensures
        out_degree(m, from) >= m[from][to],
        in_degree(m, to) >= m[from][to],
{
    lemma_sum_bounds(m[from], to);
    lemma_sum_bounds(incoming(m, to), from);
}

} // verus!
