//! Properties of the split as a whole.
use vstd::prelude::*;
use vstd::multiset::Multiset;
use crate::assign::{assignment, group_sizes, lemma_walk_bounds, piece_rows, walk};
use crate::group::{
    groups_of, key_of, key_order, lemma_absent_key_has_no_rows, lemma_key_order_distinct,
    rows_with_key, Group,
};
use crate::split::{pieces_assignment, sizes_of, split_spec};

verus! {

broadcast use vstd::seq_lib::group_to_multiset_ensures;

/// Every piece starts with the header row, also a piece that holds no data
/// rows.
pub proof fn lemma_header_first(header: Seq<Seq<char>>, rows: Seq<Seq<Seq<char>>>, n: int)
    requires
        n >= 1,
    ensures
        split_spec(header, rows, n).len() == n,
        forall|p: int| 0 <= p < n ==> (#[trigger] split_spec(header, rows, n)[p])[0] == header,
{
}

/// The assignment depends on nothing but the group sizes, in their order, the
/// row count and the piece count: the same grouping gives the same assignment.
pub proof fn lemma_assignment_repeatable(g1: Seq<Group>, g2: Seq<Group>, total: int, n: int)
    requires
        group_sizes(g1) == group_sizes(g2),
    ensures
        assignment(group_sizes(g1), total, n) == assignment(group_sizes(g2), total, n),
{
}

/// A piece past the last group holds no rows.
proof fn lemma_late_piece_empty(g: Seq<Seq<Seq<Seq<char>>>>, a: Seq<int>, p: int)
    requires
        a.len() == g.len(),
        p >= g.len(),
        forall|j: int| 0 <= j < a.len() ==> #[trigger] a[j] <= j,
    ensures
        piece_rows(g, a, p) == Seq::<Seq<Seq<char>>>::empty(),
    decreases g.len(),
{
    if g.len() > 0 {
        lemma_late_piece_empty(g.drop_last(), a.drop_last(), p);
        assert(a.last() <= g.len() - 1);
        assert(piece_rows(g, a, p) =~= Seq::<Seq<Seq<char>>>::empty());
    }
}

/// With more pieces than groups there are still `n` pieces, and the pieces
/// past the last group hold the header row alone.
pub proof fn lemma_trailing_pieces_header_only(
    header: Seq<Seq<char>>,
    rows: Seq<Seq<Seq<char>>>,
    n: int,
)
    requires
        n >= 1,
    ensures
        split_spec(header, rows, n).len() == n,
        forall|p: int|
            key_order(rows).len() <= p < n ==> #[trigger] split_spec(header, rows, n)[p] == seq![
                header,
            ],
{
    let g = groups_of(rows);
    let a = pieces_assignment(rows, n);
    lemma_walk_bounds(sizes_of(rows), rows.len() as int / n, n);
    assert forall|p: int| key_order(rows).len() <= p < n implies #[trigger] split_spec(
        header,
        rows,
        n,
    )[p] == seq![header] by {
        lemma_late_piece_empty(g, a, p);
        assert(split_spec(header, rows, n)[p] =~= seq![header]);
    }
}

/// The rows of a sequence of groups, as a multiset.
pub open spec fn groups_multiset(g: Seq<Seq<Seq<Seq<char>>>>) -> Multiset<Seq<Seq<char>>>
    decreases g.len(),
{
    if g.len() == 0 {
        Multiset::empty()
    } else {
        groups_multiset(g.drop_last()).add(g.last().to_multiset())
    }
}

/// The data rows of the first `m` pieces, the header row left out, as a
/// multiset.
pub open spec fn pieces_data_multiset(pieces: Seq<Seq<Seq<Seq<char>>>>, m: int) -> Multiset<
    Seq<Seq<char>>,
>
    decreases m,
{
    if m <= 0 {
        Multiset::empty()
    } else {
        pieces_data_multiset(pieces, m - 1).add(pieces[m - 1].skip(1).to_multiset())
    }
}

/// The rows assigned to the first `m` pieces, as a multiset.
spec fn assigned_multiset(g: Seq<Seq<Seq<Seq<char>>>>, a: Seq<int>, m: int) -> Multiset<
    Seq<Seq<char>>,
>
    decreases m,
{
    if m <= 0 {
        Multiset::empty()
    } else {
        assigned_multiset(g, a, m - 1).add(piece_rows(g, a, m - 1).to_multiset())
    }
}

proof fn lemma_assigned_nothing(g: Seq<Seq<Seq<Seq<char>>>>, a: Seq<int>, m: int)
    requires
        g.len() == 0,
    ensures
        assigned_multiset(g, a, m) == Multiset::<Seq<Seq<char>>>::empty(),
    decreases m,
{
    if m > 0 {
        lemma_assigned_nothing(g, a, m - 1);
        assert(piece_rows(g, a, m - 1).to_multiset() =~= Multiset::<Seq<Seq<char>>>::empty());
        assert(assigned_multiset(g, a, m) =~= Multiset::<Seq<Seq<char>>>::empty());
    }
}

proof fn lemma_assigned_last_group(g: Seq<Seq<Seq<Seq<char>>>>, a: Seq<int>, m: int)
    requires
        g.len() > 0,
        a.len() == g.len(),
        m >= 0,
    ensures
        assigned_multiset(g, a, m) == assigned_multiset(g.drop_last(), a.drop_last(), m).add(
            if 0 <= a.last() < m {
                g.last().to_multiset()
            } else {
                Multiset::empty()
            },
        ),
    decreases m,
{
    if m > 0 {
        lemma_assigned_last_group(g, a, m - 1);
        let prev = piece_rows(g.drop_last(), a.drop_last(), m - 1);
        let extra = if a.last() == m - 1 {
            g.last()
        } else {
            Seq::empty()
        };
        assert(piece_rows(g, a, m - 1) == prev + extra);
        vstd::seq_lib::lemma_multiset_commutative(prev, extra);
        assert(extra.to_multiset() =~= (if a.last() == m - 1 {
            g.last().to_multiset()
        } else {
            Multiset::empty()
        }));
        assert(assigned_multiset(g, a, m) =~= assigned_multiset(g.drop_last(), a.drop_last(), m).add(
            if 0 <= a.last() < m {
                g.last().to_multiset()
            } else {
                Multiset::empty()
            },
        ));
    } else {
        assert(assigned_multiset(g, a, m) =~= assigned_multiset(g.drop_last(), a.drop_last(), m).add(
            Multiset::empty(),
        ));
    }
}

proof fn lemma_assigned_all(g: Seq<Seq<Seq<Seq<char>>>>, a: Seq<int>, n: int)
    requires
        a.len() == g.len(),
        n >= 0,
        forall|j: int| 0 <= j < a.len() ==> 0 <= #[trigger] a[j] < n,
    ensures
        assigned_multiset(g, a, n) == groups_multiset(g),
    decreases g.len(),
{
    if g.len() == 0 {
        lemma_assigned_nothing(g, a, n);
    } else {
        lemma_assigned_last_group(g, a, n);
        lemma_assigned_all(g.drop_last(), a.drop_last(), n);
        assert(a.last() == a[a.len() - 1]);
    }
}

proof fn lemma_groups_multiset_push_into(g: Seq<Seq<Seq<Seq<char>>>>, t: int, r: Seq<Seq<char>>)
    requires
        0 <= t < g.len(),
    ensures
        groups_multiset(g.update(t, g[t].push(r))) == groups_multiset(g).insert(r),
    decreases g.len(),
{
    let h = g.update(t, g[t].push(r));
    if t == g.len() - 1 {
        assert(h.drop_last() =~= g.drop_last());
        assert(h.last() == g.last().push(r));
        assert(groups_multiset(h) =~= groups_multiset(g).insert(r));
    } else {
        lemma_groups_multiset_push_into(g.drop_last(), t, r);
        assert(h.drop_last() =~= g.drop_last().update(t, g[t].push(r)));
        assert(groups_multiset(h) =~= groups_multiset(g).insert(r));
    }
}

/// The groups of a table hold its rows, each exactly once.
pub proof fn lemma_groups_hold_rows(rows: Seq<Seq<Seq<char>>>)
    ensures
        groups_multiset(groups_of(rows)) == rows.to_multiset(),
    decreases rows.len(),
{
    if rows.len() > 0 {
        let pre = rows.drop_last();
        let r = rows.last();
        let k = key_of(r);
        let ks = key_order(pre);
        assert(rows =~= pre.push(r));
        lemma_groups_hold_rows(pre);
        lemma_key_order_distinct(pre);
        assert forall|k2: Seq<char>| k2 != k implies #[trigger] rows_with_key(rows, k2)
            == rows_with_key(pre, k2) by {
            pre.lemma_filter_push(r, |x: Seq<Seq<char>>| key_of(x) == k2);
        }
        pre.lemma_filter_push(r, |x: Seq<Seq<char>>| key_of(x) == k);
        if ks.contains(k) {
            let t = choose|t: int| 0 <= t < ks.len() && ks[t] == k;
            let g0 = groups_of(pre);
            assert(groups_of(rows) =~= g0.update(t, g0[t].push(r)));
            lemma_groups_multiset_push_into(g0, t, r);
        } else {
            lemma_absent_key_has_no_rows(pre, k);
            assert(groups_of(rows) =~= groups_of(pre).push(seq![r]));
            assert(seq![r] =~= Seq::<Seq<Seq<char>>>::empty().push(r));
            assert(groups_of(rows).drop_last() =~= groups_of(pre));
            assert(Seq::<Seq<Seq<char>>>::empty().to_multiset() =~= Multiset::empty());
            assert(seq![r].to_multiset() =~= Multiset::empty().insert(r));
            assert(groups_multiset(groups_of(rows)) =~= rows.to_multiset());
        }
    }
}

/// Splitting loses and duplicates nothing: the data rows of all pieces
/// together are the input rows, as a multiset.
pub proof fn lemma_split_complete(header: Seq<Seq<char>>, rows: Seq<Seq<Seq<char>>>, n: int)
    requires
        n >= 1,
    ensures
        pieces_data_multiset(split_spec(header, rows, n), n) == rows.to_multiset(),
{
    let g = groups_of(rows);
    let a = pieces_assignment(rows, n);
    lemma_walk_bounds(sizes_of(rows), rows.len() as int / n, n);
    assert forall|m: int| 0 <= m <= n implies #[trigger] pieces_data_multiset(
        split_spec(header, rows, n),
        m,
    ) == assigned_multiset(g, a, m) by {
        lemma_data_is_assigned(header, rows, n, m);
    }
    lemma_assigned_all(g, a, n);
    lemma_groups_hold_rows(rows);
}

proof fn lemma_data_is_assigned(header: Seq<Seq<char>>, rows: Seq<Seq<Seq<char>>>, n: int, m: int)
    requires
        0 <= m <= n,
    ensures
        pieces_data_multiset(split_spec(header, rows, n), m) == assigned_multiset(
            groups_of(rows),
            pieces_assignment(rows, n),
            m,
        ),
    decreases m,
{
    if m > 0 {
        lemma_data_is_assigned(header, rows, n, m - 1);
        assert(split_spec(header, rows, n)[m - 1].skip(1) =~= piece_rows(
            groups_of(rows),
            pieces_assignment(rows, n),
            m - 1,
        ));
    }
}

/// A row of a piece comes from a group assigned to that piece.
proof fn lemma_row_from_assigned_group(
    g: Seq<Seq<Seq<Seq<char>>>>,
    a: Seq<int>,
    p: int,
    x: Seq<Seq<char>>,
) -> (j: int)
    requires
        a.len() == g.len(),
        piece_rows(g, a, p).contains(x),
    ensures
        0 <= j < g.len(),
        a[j] == p,
        g[j].contains(x),
    decreases g.len(),
{
    let prev = piece_rows(g.drop_last(), a.drop_last(), p);
    let extra = if a.last() == p {
        g.last()
    } else {
        Seq::empty()
    };
    assert(piece_rows(g, a, p) == prev + extra);
    let i = choose|i: int| 0 <= i < (prev + extra).len() && (prev + extra)[i] == x;
    if i < prev.len() {
        assert(prev[i] == x);
        lemma_row_from_assigned_group(g.drop_last(), a.drop_last(), p, x)
    } else {
        assert(extra[i - prev.len()] == x);
        g.len() - 1
    }
}

/// Groups stay whole: two data rows that share a key are in the same piece,
/// so all rows of one key are in exactly one piece.
pub proof fn lemma_key_in_one_piece(
    header: Seq<Seq<char>>,
    rows: Seq<Seq<Seq<char>>>,
    n: int,
    p: int,
    q: int,
    x: Seq<Seq<char>>,
    y: Seq<Seq<char>>,
)
    requires
        n >= 1,
        0 <= p < n,
        0 <= q < n,
        split_spec(header, rows, n)[p].skip(1).contains(x),
        split_spec(header, rows, n)[q].skip(1).contains(y),
        key_of(x) == key_of(y),
    ensures
        p == q,
{
    let g = groups_of(rows);
    let a = pieces_assignment(rows, n);
    let ks = key_order(rows);
    lemma_walk_bounds(sizes_of(rows), rows.len() as int / n, n);
    assert(split_spec(header, rows, n)[p].skip(1) =~= piece_rows(g, a, p));
    assert(split_spec(header, rows, n)[q].skip(1) =~= piece_rows(g, a, q));
    let jx = lemma_row_from_assigned_group(g, a, p, x);
    let jy = lemma_row_from_assigned_group(g, a, q, y);
    let ix = choose|i: int| 0 <= i < g[jx].len() && g[jx][i] == x;
    let iy = choose|i: int| 0 <= i < g[jy].len() && g[jy][i] == y;
    rows.lemma_filter_pred(|r: Seq<Seq<char>>| key_of(r) == ks[jx], ix);
    rows.lemma_filter_pred(|r: Seq<Seq<char>>| key_of(r) == ks[jy], iy);
    lemma_key_order_distinct(rows);
}

/// How many entries of `a` are `p`.
pub open spec fn count_in(a: Seq<int>, p: int) -> int
    decreases a.len(),
{
    if a.len() == 0 {
        0
    } else {
        count_in(a.drop_last(), p) + if a.last() == p {
            1int
        } else {
            0int
        }
    }
}

proof fn lemma_unit_groups_piece_len(g: Seq<Seq<Seq<Seq<char>>>>, a: Seq<int>, p: int)
    requires
        a.len() == g.len(),
        forall|j: int| 0 <= j < g.len() ==> (#[trigger] g[j]).len() == 1,
    ensures
        piece_rows(g, a, p).len() == count_in(a, p),
    decreases g.len(),
{
    if g.len() > 0 {
        lemma_unit_groups_piece_len(g.drop_last(), a.drop_last(), p);
        assert(g.last() == g[g.len() - 1]);
    }
}

/// With distinct keys every row is a group of its own.
proof fn lemma_distinct_keys_unit_groups(rows: Seq<Seq<Seq<char>>>)
    requires
        forall|i: int, j: int| 0 <= i < j < rows.len() ==> key_of(rows[i]) != key_of(rows[j]),
    ensures
        key_order(rows) == rows.map_values(|r: Seq<Seq<char>>| key_of(r)),
        forall|j: int|
            0 <= j < rows.len() ==> #[trigger] rows_with_key(rows, key_of(rows[j])) == seq![
                rows[j],
            ],
    decreases rows.len(),
{
    if rows.len() > 0 {
        let pre = rows.drop_last();
        let r = rows.last();
        assert(rows =~= pre.push(r));
        lemma_distinct_keys_unit_groups(pre);
        let ks = key_order(pre);
        assert(!ks.contains(key_of(r))) by {
            if ks.contains(key_of(r)) {
                let t = choose|t: int| 0 <= t < ks.len() && ks[t] == key_of(r);
                assert(key_of(rows[t]) == key_of(rows[rows.len() - 1]));
            }
        }
        assert(key_order(rows) =~= rows.map_values(|r: Seq<Seq<char>>| key_of(r)));
        lemma_absent_key_has_no_rows(pre, key_of(r));
        assert forall|j: int| 0 <= j < rows.len() implies #[trigger] rows_with_key(
            rows,
            key_of(rows[j]),
        ) == seq![rows[j]] by {
            let k = key_of(rows[j]);
            pre.lemma_filter_push(r, |x: Seq<Seq<char>>| key_of(x) == k);
            if j < rows.len() - 1 {
                assert(rows[j] == pre[j]);
                assert(rows_with_key(pre, key_of(pre[j])) == seq![pre[j]]);
            } else {
                assert(seq![r] =~= Seq::<Seq<Seq<char>>>::empty().push(r));
            }
        }
    }
}

/// The walk over single-row groups with a target `t` of at least one: pieces
/// before the current one hold `t` groups, later ones none, and the current
/// one the rest.
proof fn lemma_unit_walk(s: Seq<int>, t: int, n: int)
    requires
        t >= 1,
        n >= 1,
        forall|j: int| 0 <= j < s.len() ==> #[trigger] s[j] == 1,
    ensures
        ({
            let (a, p, w) = walk(s, t, n);
            &&& 0 <= p < n
            &&& forall|q: int| 0 <= q < p ==> #[trigger] count_in(a, q) == t
            &&& forall|q: int| p < q ==> #[trigger] count_in(a, q) == 0
            &&& count_in(a, p) == s.len() - p * t
            &&& count_in(a, p) >= 0
            &&& p < n - 1 ==> w == s.len() - p * t && w < t
        }),
    decreases s.len(),
{
    if s.len() > 0 {
        lemma_unit_walk(s.drop_last(), t, n);
        let (a0, p0, w0) = walk(s.drop_last(), t, n);
        let (a, p, w) = walk(s, t, n);
        assert(s.last() == 1);
        assert(a == a0.push(p0));
        assert(a.drop_last() == a0);
        assert((p0 + 1) * t == p0 * t + t) by (nonlinear_arith);
        assert forall|q: int| 0 <= q < p implies #[trigger] count_in(a, q) == t by {
            assert(count_in(a, q) == count_in(a0, q) + if p0 == q {
                1int
            } else {
                0int
            });
        }
        assert forall|q: int| p < q implies #[trigger] count_in(a, q) == 0 by {
            assert(count_in(a, q) == count_in(a0, q) + if p0 == q {
                1int
            } else {
                0int
            });
        }
        assert(count_in(a, p) == count_in(a0, p) + if p0 == p {
            1int
        } else {
            0int
        });
    }
}

/// The walk over single-row groups with a target of zero: each group has a
/// piece of its own, while pieces last.
proof fn lemma_unit_walk_zero(s: Seq<int>, n: int)
    requires
        n >= 1,
        s.len() < n,
        forall|j: int| 0 <= j < s.len() ==> #[trigger] s[j] == 1,
    ensures
        ({
            let (a, p, w) = walk(s, 0, n);
            &&& p == s.len()
            &&& w == 0
            &&& forall|q: int| 0 <= q < s.len() ==> #[trigger] count_in(a, q) == 1
            &&& forall|q: int| s.len() <= q ==> #[trigger] count_in(a, q) == 0
        }),
    decreases s.len(),
{
    if s.len() > 0 {
        lemma_unit_walk_zero(s.drop_last(), n);
        let (a0, p0, w0) = walk(s.drop_last(), 0, n);
        let (a, p, w) = walk(s, 0, n);
        assert(s.last() == 1);
        assert(a.drop_last() == a0);
        assert forall|q: int| 0 <= q < s.len() implies #[trigger] count_in(a, q) == 1 by {
            assert(count_in(a, q) == count_in(a0, q) + if p0 == q {
                1int
            } else {
                0int
            });
        }
        assert forall|q: int| s.len() <= q implies #[trigger] count_in(a, q) == 0 by {
            assert(count_in(a, q) == count_in(a0, q) + if p0 == q {
                1int
            } else {
                0int
            });
        }
    }
}

/// Where every group is a single row (all keys distinct), piece sizes differ
/// by at most one, provided there are fewer rows than pieces or the rows
/// leave a remainder of at most one when divided by the piece count. (With a
/// larger remainder the last piece takes all of it.)
pub proof fn lemma_singletons_balanced(
    header: Seq<Seq<char>>,
    rows: Seq<Seq<Seq<char>>>,
    n: int,
    p: int,
    q: int,
)
    requires
        n >= 1,
        0 <= p < n,
        0 <= q < n,
        forall|i: int, j: int| 0 <= i < j < rows.len() ==> key_of(rows[i]) != key_of(rows[j]),
        rows.len() < n || (rows.len() as int) % n <= 1,
    ensures
        split_spec(header, rows, n)[p].len() <= split_spec(header, rows, n)[q].len() + 1,
{
    let total = rows.len() as int;
    let t = total / n;
    lemma_distinct_keys_unit_groups(rows);
    let g = groups_of(rows);
    let sizes = sizes_of(rows);
    assert forall|j: int| 0 <= j < g.len() implies (#[trigger] g[j]).len() == 1 by {
        assert(key_order(rows)[j] == key_of(rows[j]));
    }
    assert forall|j: int| 0 <= j < sizes.len() implies #[trigger] sizes[j] == 1 by {
        assert(g[j].len() == 1);
    }
    let a = pieces_assignment(rows, n);
    lemma_walk_bounds(sizes, t, n);
    lemma_unit_groups_piece_len(g, a, p);
    lemma_unit_groups_piece_len(g, a, q);
    assert(split_spec(header, rows, n)[p].len() == 1 + count_in(a, p));
    assert(split_spec(header, rows, n)[q].len() == 1 + count_in(a, q));
    assert(total == n * t + total % n) by (nonlinear_arith)
        requires
            t == total / n,
            n >= 1,
    ;
    assert(sizes.len() == total);
    assert(0 <= total % n < n) by (nonlinear_arith)
        requires
            n >= 1,
    ;
    if t == 0 {
        assert(n * t == 0) by (nonlinear_arith)
            requires
                t == 0,
        ;
        assert(total < n);
        lemma_unit_walk_zero(sizes, n);
        assert(0 <= count_in(a, p) <= 1);
        assert(0 <= count_in(a, q) <= 1);
    } else {
        lemma_unit_walk(sizes, t, n);
        let last = walk(sizes, t, n).1;
        assert(last == n - 1) by {
            if last < n - 1 {
                assert(last * t + t <= (n - 1) * t) by (nonlinear_arith)
                    requires
                        last < n - 1,
                        t >= 1,
                ;
                assert(n * t == (n - 1) * t + t) by (nonlinear_arith);
            }
        }
        assert(n * t == (n - 1) * t + t) by (nonlinear_arith);
        assert(total >= n) by {
            assert(n * t >= n) by (nonlinear_arith)
                requires
                    t >= 1,
                    n >= 1,
            ;
        }
        assert(count_in(a, n - 1) == t + total % n);
        assert(t <= count_in(a, p) <= t + 1);
        assert(t <= count_in(a, q) <= t + 1);
    }
}

/// How many rows the groups assigned to `p` hold together.
pub open spec fn size_in(sizes: Seq<int>, a: Seq<int>, p: int) -> int
    decreases a.len(),
{
    if a.len() == 0 || sizes.len() == 0 {
        0
    } else {
        size_in(sizes.drop_last(), a.drop_last(), p) + if a.last() == p {
            sizes.last()
        } else {
            0int
        }
    }
}

/// The most rows that a piece short of the target can hold before it takes
/// one more group.
pub open spec fn below_target(t: int) -> int {
    if t > 0 {
        t - 1
    } else {
        0
    }
}

proof fn lemma_piece_len_is_size(g: Seq<Seq<Seq<Seq<char>>>>, a: Seq<int>, p: int)
    requires
        a.len() == g.len(),
    ensures
        piece_rows(g, a, p).len() == size_in(
            g.map_values(|x: Seq<Seq<Seq<char>>>| x.len() as int),
            a,
            p,
        ),
    decreases g.len(),
{
    if g.len() > 0 {
        lemma_piece_len_is_size(g.drop_last(), a.drop_last(), p);
        assert(g.map_values(|x: Seq<Seq<Seq<char>>>| x.len() as int).drop_last() =~= g.drop_last().map_values(
            |x: Seq<Seq<Seq<char>>>| x.len() as int,
        ));
    }
}

proof fn lemma_walk_closed_pieces(s: Seq<int>, t: int, n: int, m: int)
    requires
        t >= 0,
        n >= 1,
        forall|j: int| 0 <= j < s.len() ==> 0 <= #[trigger] s[j] <= m,
    ensures
        ({
            let (a, p, w) = walk(s, t, n);
            &&& 0 <= p < n
            &&& 0 <= w <= below_target(t)
            &&& forall|q: int| 0 <= q < p && q < n - 1 ==> #[trigger] size_in(s, a, q) <= below_target(t) + m
            &&& p < n - 1 ==> size_in(s, a, p) == w
            &&& forall|q: int| p < q ==> #[trigger] size_in(s, a, q) == 0
        }),
    decreases s.len(),
{
    if s.len() > 0 {
        let s0 = s.drop_last();
        lemma_walk_closed_pieces(s0, t, n, m);
        let (a0, p0, w0) = walk(s0, t, n);
        let (a, p, w) = walk(s, t, n);
        assert(s.last() == s[s.len() - 1]);
        assert(a.drop_last() == a0);
        assert forall|q: int| #![trigger size_in(s, a, q)] size_in(s, a, q) == size_in(s0, a0, q) + if p0 == q {
            s.last()
        } else {
            0int
        } by {}
    }
}

/// Groups larger than the target make pieces uneven only by their own size:
/// every piece but the last holds at most `t - 1` rows (none when the target
/// `t` is zero) plus one group, where `t` is the row count divided by the
/// piece count. The last piece takes what remains.
pub proof fn lemma_pieces_bounded_by_largest_group(
    header: Seq<Seq<char>>,
    rows: Seq<Seq<Seq<char>>>,
    n: int,
    m: int,
    p: int,
)
    requires
        n >= 1,
        0 <= p < n - 1,
        m >= 0,
        forall|j: int| 0 <= j < groups_of(rows).len() ==> (#[trigger] groups_of(rows)[j]).len() <= m,
    ensures
        split_spec(header, rows, n)[p].len() - 1 <= below_target(rows.len() as int / n) + m,
{
    let t = rows.len() as int / n;
    let g = groups_of(rows);
    let sizes = sizes_of(rows);
    let a = pieces_assignment(rows, n);
    assert(t >= 0) by (nonlinear_arith)
        requires
            n >= 1,
            t == rows.len() as int / n,
    ;
    assert forall|j: int| 0 <= j < sizes.len() implies 0 <= #[trigger] sizes[j] <= m by {
        assert(sizes[j] == g[j].len());
    }
    lemma_walk_bounds(sizes, t, n);
    lemma_walk_closed_pieces(sizes, t, n, m);
    lemma_piece_len_is_size(g, a, p);
    assert(g.map_values(|x: Seq<Seq<Seq<char>>>| x.len() as int) =~= sizes);
    assert(split_spec(header, rows, n)[p].len() == 1 + piece_rows(g, a, p).len());
    let last = walk(sizes, t, n).1;
    if p < last {
        assert(size_in(sizes, a, p) <= below_target(t) + m);
    } else if p > last {
        assert(size_in(sizes, a, p) == 0);
    }
}

} // verus!
