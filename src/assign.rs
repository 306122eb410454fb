//! Assignment of whole groups to pieces, and the pieces that result.
use vstd::prelude::*;
use crate::group::{Group, clone_row, fields_view, rows_view};

verus! {

/// The number of rows in each group.
pub open spec fn group_sizes(groups: Seq<Group>) -> Seq<int> {
    groups.map_values(|g: Group| g.rows@.len() as int)
}

/// The rows of each group.
pub open spec fn group_rows(groups: Seq<Group>) -> Seq<Seq<Seq<Seq<char>>>> {
    groups.map_values(|g: Group| g.rows_spec())
}

/// The walk over the groups, in order: the piece of each group so far, the
/// current piece, and the rows written to it. A group goes wholly to the
/// current piece; after it, once the current piece holds `threshold` rows or
/// more, the walk moves on to the next piece and starts counting anew. It never
/// moves past the last piece, `n - 1`.
pub open spec fn walk(sizes: Seq<int>, threshold: int, n: int) -> (Seq<int>, int, int)
    decreases sizes.len(),
{
    if sizes.len() == 0 {
        (Seq::empty(), 0, 0)
    } else {
        let (a, p, w) = walk(sizes.drop_last(), threshold, n);
        if w + sizes.last() >= threshold {
            (a.push(p), if p + 1 < n { p + 1 } else { p }, 0)
        } else {
            (a.push(p), p, w + sizes.last())
        }
    }
}

/// The piece of each group, for groups of the given sizes and a target of
/// `total / n` rows per piece.
pub open spec fn assignment(sizes: Seq<int>, total: int, n: int) -> Seq<int> {
    walk(sizes, total / n, n).0
}

/// The rows that go to piece `p`: the groups assigned to it, in group order.
pub open spec fn piece_rows(groups: Seq<Seq<Seq<Seq<char>>>>, a: Seq<int>, p: int) -> Seq<Seq<Seq<char>>>
    decreases groups.len(),
{
    if groups.len() == 0 {
        Seq::empty()
    } else {
        piece_rows(groups.drop_last(), a.drop_last(), p) + if a.last() == p {
            groups.last()
        } else {
            Seq::empty()
        }
    }
}

/// Every piece index is below `n`, and no group lands on a piece past its own
/// position.
pub proof fn lemma_walk_bounds(sizes: Seq<int>, threshold: int, n: int)
    requires
        n > 0,
    ensures
        walk(sizes, threshold, n).0.len() == sizes.len(),
        0 <= walk(sizes, threshold, n).1 < n,
        walk(sizes, threshold, n).1 <= sizes.len(),
        forall|j: int|
            0 <= j < sizes.len() ==> 0 <= #[trigger] walk(sizes, threshold, n).0[j] < n
                && walk(sizes, threshold, n).0[j] <= j,
    decreases sizes.len(),
{
    if sizes.len() > 0 {
        lemma_walk_bounds(sizes.drop_last(), threshold, n);
    }
}

/// Assigns each group to a piece in `[0, num_pieces)`, in group order, with a
/// target of `total_records / num_pieces` rows per piece. Groups are never
/// split: a piece is closed only after a whole group, once it has reached the
/// target. Groups past the last piece stay in the last piece.
pub fn assign_pieces(groups: &Vec<Group>, total_records: usize, num_pieces: usize) -> (r: Vec<usize>)
    requires
        num_pieces > 0,
    ensures
        r@.len() == groups@.len(),
        r@.map_values(|x: usize| x as int) == assignment(
            group_sizes(groups@),
            total_records as int,
            num_pieces as int,
        ),
        forall|j: int| 0 <= j < r@.len() ==> #[trigger] r@[j] < num_pieces,
{
    let ghost sizes = group_sizes(groups@);
    let threshold = total_records / num_pieces;
    let mut r: Vec<usize> = Vec::new();
    let mut piece: usize = 0;
    let mut written: usize = 0;
    let mut j: usize = 0;
    while j < groups.len()
        invariant
            j <= groups.len(),
            sizes == group_sizes(groups@),
            threshold == total_records / num_pieces,
            num_pieces > 0,
            walk(sizes.take(j as int), threshold as int, num_pieces as int) == (
                r@.map_values(|x: usize| x as int),
                piece as int,
                written as int,
            ),
            written <= threshold,
            piece < num_pieces,
        decreases groups.len() - j,
    {
        let ghost pre = sizes.take(j as int);
        proof {
            assert(sizes.take(j + 1).drop_last() =~= pre);
        }
        let size = groups[j].len();
        r.push(piece);
        if size >= threshold - written {
            if piece + 1 < num_pieces {
                piece = piece + 1;
            }
            written = 0;
        } else {
            written = written + size;
        }
        proof {
            assert(r@.map_values(|x: usize| x as int) =~= walk(pre, threshold as int, num_pieces as int).0.push(
                r@.last() as int));
        }
        j = j + 1;
    }
    proof {
        assert(sizes.take(groups.len() as int) =~= sizes);
        lemma_walk_bounds(sizes, threshold as int, num_pieces as int);
        assert forall|j: int| 0 <= j < r@.len() implies #[trigger] r@[j] < num_pieces by {
            assert(r@.map_values(|x: usize| x as int)[j] == r@[j] as int);
        }
    }
    r
}

/// A piece as written out: the header row, then the rows of the groups
/// assigned to it.
pub open spec fn piece_table(
    header: Seq<Seq<char>>,
    groups: Seq<Seq<Seq<Seq<char>>>>,
    a: Seq<int>,
    p: int,
) -> Seq<Seq<Seq<char>>> {
    seq![header] + piece_rows(groups, a, p)
}

/// Builds `num_pieces` pieces, each starting with `header`, and appends the
/// rows of group `j` to piece `assignment[j]`.
pub fn build_pieces(
    header: &Vec<String>,
    groups: &Vec<Group>,
    assignment: &Vec<usize>,
    num_pieces: usize,
) -> (pieces: Vec<Vec<Vec<String>>>)
    requires
        assignment@.len() == groups@.len(),
        forall|j: int| 0 <= j < assignment@.len() ==> #[trigger] assignment@[j] < num_pieces,
    ensures
        pieces@.len() == num_pieces,
        forall|p: int|
            0 <= p < num_pieces ==> rows_view(#[trigger] pieces@[p]@) == piece_table(
                fields_view(header@),
                group_rows(groups@),
                assignment@.map_values(|x: usize| x as int),
                p,
            ),
{
    let ghost g = group_rows(groups@);
    let ghost a = assignment@.map_values(|x: usize| x as int);
    let mut pieces: Vec<Vec<Vec<String>>> = Vec::new();
    let mut p: usize = 0;
    while p < num_pieces
        invariant
            p <= num_pieces,
            pieces@.len() == p,
            forall|q: int| 0 <= q < p ==> rows_view(#[trigger] pieces@[q]@) == seq![fields_view(header@)],
        decreases num_pieces - p,
    {
        let mut piece: Vec<Vec<String>> = Vec::new();
        piece.push(clone_row(header));
        proof {
            assert(rows_view(piece@) =~= seq![fields_view(header@)]);
        }
        pieces.push(piece);
        p = p + 1;
    }
    let mut j: usize = 0;
    while j < groups.len()
        invariant
            j <= groups.len(),
            g == group_rows(groups@),
            a == assignment@.map_values(|x: usize| x as int),
            assignment@.len() == groups@.len(),
            forall|j: int| 0 <= j < assignment@.len() ==> #[trigger] assignment@[j] < num_pieces,
            pieces@.len() == num_pieces,
            forall|q: int|
                0 <= q < num_pieces ==> rows_view(#[trigger] pieces@[q]@) == seq![fields_view(header@)]
                    + piece_rows(g.take(j as int), a.take(j as int), q),
        decreases groups.len() - j,
    {
        let target = assignment[j];
        let rows = &groups[j].rows;
        let ghost before = pieces@;
        let mut k: usize = 0;
        while k < rows.len()
            invariant
                k <= rows.len(),
                target < num_pieces,
                pieces@.len() == num_pieces,
                forall|q: int|
                    0 <= q < num_pieces && q != target ==> (#[trigger] pieces@[q]) == before[q],
                rows_view(pieces@[target as int]@) == rows_view(before[target as int]@) + rows_view(
                    rows@.take(k as int),
                ),
            decreases rows.len() - k,
        {
            let row = clone_row(&rows[k]);
            let ghost old_piece = pieces@[target as int];
            pieces[target].push(row);
            proof {
                assert(rows_view(rows@.take(k + 1)) =~= rows_view(rows@.take(k as int)).push(
                    fields_view(rows@[k as int]@),
                ));
                assert(rows_view(pieces@[target as int]@) =~= rows_view(old_piece@).push(
                    fields_view(rows@[k as int]@),
                ));
            }
            k = k + 1;
        }
        proof {
            assert(rows@.take(rows@.len() as int) =~= rows@);
            assert(g.take(j + 1).drop_last() =~= g.take(j as int));
            assert(a.take(j + 1).drop_last() =~= a.take(j as int));
            assert(g[j as int] == rows_view(rows@));
            assert forall|q: int| 0 <= q < num_pieces implies rows_view(#[trigger] pieces@[q]@)
                == seq![fields_view(header@)] + piece_rows(g.take(j + 1), a.take(j + 1), q) by {
                if q == target {
                    assert(rows_view(pieces@[q]@) =~= seq![fields_view(header@)] + piece_rows(
                        g.take(j + 1),
                        a.take(j + 1),
                        q,
                    ));
                } else {
                    assert(seq![fields_view(header@)] + piece_rows(g.take(j as int), a.take(j as int), q)
                        =~= seq![fields_view(header@)] + piece_rows(g.take(j + 1), a.take(j + 1), q));
                }
            }
        }
        j = j + 1;
    }
    proof {
        assert(g.take(groups@.len() as int) =~= g);
        assert(a.take(groups@.len() as int) =~= a);
    }
    pieces
}

} // verus!
