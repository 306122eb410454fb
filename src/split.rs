//! The whole split: group the rows, assign the groups to pieces, and lay the
//! pieces out.
use vstd::prelude::*;
use crate::assign::{assign_pieces, assignment, build_pieces, group_rows, group_sizes, piece_table};
use crate::group::{clone_row, fields_view, group_records, groups_of, rows_view};
use crate::table::{csv_encoding_of, csv_table_of, read_table, write_table};

verus! {

/// Why a split did not happen.
#[derive(Debug)]
pub enum SplitError {
    /// The piece count was zero.
    ZeroPieces,
    /// The input could not be read as a table.
    Input(csv::Error),
    /// A piece could not be encoded.
    Output(csv::Error),
}

/// The size of each group of `rows`, in key order.
pub open spec fn sizes_of(rows: Seq<Seq<Seq<char>>>) -> Seq<int> {
    groups_of(rows).map_values(|g: Seq<Seq<Seq<char>>>| g.len() as int)
}

/// The piece of each group of `rows`, in key order, for `n` pieces.
pub open spec fn pieces_assignment(rows: Seq<Seq<Seq<char>>>, n: int) -> Seq<int> {
    assignment(sizes_of(rows), rows.len() as int, n)
}

/// The `n` pieces of a table with this header and these rows, each as the
/// rows it holds, header first.
pub open spec fn split_spec(header: Seq<Seq<char>>, rows: Seq<Seq<Seq<char>>>, n: int) -> Seq<
    Seq<Seq<Seq<char>>>,
> {
    Seq::new(n as nat, |p: int| piece_table(header, groups_of(rows), pieces_assignment(rows, n), p))
}

/// The pieces of the table that `input` encodes, or `None` where it does not
/// read as a table.
pub open spec fn pieces_of_input(input: Seq<u8>, n: int) -> Option<Seq<Seq<Seq<Seq<char>>>>> {
    match csv_table_of(input) {
        Some((h, rows)) => Some(split_spec(h, rows, n)),
        None => None,
    }
}

/// The input reads as a table, and one of its `n` pieces cannot be encoded.
pub open spec fn some_piece_unencodable(input: Seq<u8>, n: int) -> bool {
    match pieces_of_input(input, n) {
        Some(t) => exists|p: int| 0 <= p < n && (#[trigger] csv_encoding_of(t[p])) is None,
        None => false,
    }
}

/// Splits the rows of a table into `num_pieces` pieces, each starting with
/// `header`. Rows that share a key go to one piece together.
pub fn split_rows(header: &Vec<String>, rows: &Vec<Vec<String>>, num_pieces: usize) -> (r: Result<
    Vec<Vec<Vec<String>>>,
    SplitError,
>)
    ensures
        r is Err <==> num_pieces == 0,
        r matches Err(e) ==> e is ZeroPieces,
        r matches Ok(pieces) ==> {
            &&& pieces@.len() == num_pieces
            &&& forall|p: int|
                0 <= p < num_pieces ==> rows_view(#[trigger] pieces@[p]@) == split_spec(
                    fields_view(header@),
                    rows_view(rows@),
                    num_pieces as int,
                )[p]
        },
{
    if num_pieces == 0 {
        return Err(SplitError::ZeroPieces);
    }
    let ghost all = rows_view(rows@);
    let groups = group_records(rows);
    let a = assign_pieces(&groups, rows.len(), num_pieces);
    let pieces = build_pieces(header, &groups, &a, num_pieces);
    proof {
        assert(group_rows(groups@) =~= groups_of(all));
        assert(group_sizes(groups@) =~= sizes_of(all));
    }
    Ok(pieces)
}

/// Reads a table from `input`, splits it into `num_pieces` pieces and encodes
/// each piece the same way. A zero piece count is refused before the input is
/// read.
pub fn split_table(input: &[u8], num_pieces: usize) -> (r: Result<Vec<Vec<u8>>, SplitError>)
    ensures
        r matches Err(SplitError::ZeroPieces) <==> num_pieces == 0,
        num_pieces > 0 ==> (r matches Err(SplitError::Input(_)) <==> pieces_of_input(
            input@,
            num_pieces as int,
        ) is None),
        r matches Err(SplitError::Output(_)) <==> num_pieces > 0 && some_piece_unencodable(
            input@,
            num_pieces as int,
        ),
        r matches Ok(out) ==> {
            &&& num_pieces > 0
            &&& pieces_of_input(input@, num_pieces as int) matches Some(t)
            &&& out@.len() == num_pieces
            &&& forall|p: int|
                0 <= p < num_pieces ==> csv_encoding_of(t[p]) == Some(#[trigger] out@[p]@)
        },
{
    if num_pieces == 0 {
        return Err(SplitError::ZeroPieces);
    }
    let (header, rows) = match read_table(input) {
        Ok(t) => t,
        Err(e) => {
            return Err(SplitError::Input(e));
        },
    };
    let pieces = match split_rows(&header, &rows, num_pieces) {
        Ok(p) => p,
        Err(e) => {
            return Err(e);
        },
    };
    let ghost t = split_spec(fields_view(header@), rows_view(rows@), num_pieces as int);
    assert(pieces_of_input(input@, num_pieces as int) == Some(t));
    let mut out: Vec<Vec<u8>> = Vec::new();
    let mut p: usize = 0;
    while p < pieces.len()
        invariant
            p <= pieces@.len(),
            pieces@.len() == num_pieces,
            out@.len() == p,
            t.len() == num_pieces,
            pieces_of_input(input@, num_pieces as int) == Some(t),
            forall|q: int| 0 <= q < num_pieces ==> rows_view(#[trigger] pieces@[q]@) == t[q],
            forall|q: int| 0 <= q < p ==> csv_encoding_of(t[q]) == Some(#[trigger] out@[q]@),
        decreases pieces.len() - p,
    {
        match write_table(&pieces[p]) {
            Ok(b) => {
                out.push(b);
            },
            Err(e) => {
                assert(csv_encoding_of(t[p as int]) is None);
                assert(some_piece_unencodable(input@, num_pieces as int));
                return Err(SplitError::Output(e));
            },
        }
        p = p + 1;
    }
    assert(!some_piece_unencodable(input@, num_pieces as int)) by {
        assert forall|q: int| 0 <= q < num_pieces implies !(#[trigger] csv_encoding_of(t[q]) is None) by {
            assert(csv_encoding_of(t[q]) == Some(out@[q]@));
        }
    }
    Ok(out)
}

/// How rows are dealt out to pieces.
#[derive(Clone, Copy, Debug, PartialEq, Eq)]
pub enum Policy {
    /// Whole groups of one key go to one piece, pieces filled in turn up to
    /// the target size.
    KeepGroups,
    /// Row `i` goes to piece `i % n`, whatever its key.
    RoundRobin,
}

/// The rows that piece `p` of `n` gets when rows are dealt out in turn.
pub open spec fn round_robin_rows(rows: Seq<Seq<Seq<char>>>, n: int, p: int) -> Seq<Seq<Seq<char>>>
    decreases rows.len(),
{
    if rows.len() == 0 {
        Seq::empty()
    } else {
        let pre = round_robin_rows(rows.drop_last(), n, p);
        if (rows.len() - 1) % n == p {
            pre.push(rows.last())
        } else {
            pre
        }
    }
}

/// Deals the rows out to `num_pieces` pieces in turn, each piece starting
/// with `header`.
pub fn split_rows_round_robin(header: &Vec<String>, rows: &Vec<Vec<String>>, num_pieces: usize) -> (r:
    Result<Vec<Vec<Vec<String>>>, SplitError>)
    ensures
        r is Err <==> num_pieces == 0,
        r matches Err(e) ==> e is ZeroPieces,
        r matches Ok(pieces) ==> {
            &&& pieces@.len() == num_pieces
            &&& forall|p: int|
                0 <= p < num_pieces ==> rows_view(#[trigger] pieces@[p]@) == seq![fields_view(header@)]
                    + round_robin_rows(rows_view(rows@), num_pieces as int, p)
        },
{
    if num_pieces == 0 {
        return Err(SplitError::ZeroPieces);
    }
    let ghost all = rows_view(rows@);
    let ghost h = fields_view(header@);
    let mut pieces: Vec<Vec<Vec<String>>> = Vec::new();
    let mut p: usize = 0;
    while p < num_pieces
        invariant
            p <= num_pieces,
            h == fields_view(header@),
            pieces@.len() == p,
            forall|q: int| 0 <= q < p ==> rows_view(#[trigger] pieces@[q]@) == seq![h],
        decreases num_pieces - p,
    {
        let mut piece: Vec<Vec<String>> = Vec::new();
        piece.push(clone_row(header));
        proof {
            assert(rows_view(piece@) =~= seq![h]);
        }
        pieces.push(piece);
        p = p + 1;
    }
    let mut i: usize = 0;
    while i < rows.len()
        invariant
            i <= rows.len(),
            num_pieces > 0,
            all == rows_view(rows@),
            pieces@.len() == num_pieces,
            forall|q: int|
                0 <= q < num_pieces ==> rows_view(#[trigger] pieces@[q]@) == seq![h] + round_robin_rows(
                    all.take(i as int),
                    num_pieces as int,
                    q,
                ),
        decreases rows.len() - i,
    {
        let target = i % num_pieces;
        let row = clone_row(&rows[i]);
        let ghost before = pieces@;
        pieces[target].push(row);
        proof {
            let pre = all.take(i as int);
            let post = all.take(i + 1);
            assert(post.drop_last() =~= pre);
            assert(post.last() == fields_view(row@));
            assert forall|q: int| 0 <= q < num_pieces implies rows_view(#[trigger] pieces@[q]@)
                == seq![h] + round_robin_rows(post, num_pieces as int, q) by {
                if q == target {
                    assert(rows_view(pieces@[q]@) =~= rows_view(before[q]@).push(fields_view(row@)));
                    assert(seq![h] + round_robin_rows(post, num_pieces as int, q) =~= (seq![h]
                        + round_robin_rows(pre, num_pieces as int, q)).push(fields_view(row@)));
                } else {
                    assert(pieces@[q] == before[q]);
                }
            }
        }
        i = i + 1;
    }
    proof {
        assert(all.take(rows.len() as int) =~= all);
    }
    Ok(pieces)
}

/// Splits the rows of a table into `num_pieces` pieces by the given policy.
pub fn split_rows_by(
    policy: Policy,
    header: &Vec<String>,
    rows: &Vec<Vec<String>>,
    num_pieces: usize,
) -> (r: Result<Vec<Vec<Vec<String>>>, SplitError>)
    ensures
        r is Err <==> num_pieces == 0,
        r matches Err(e) ==> e is ZeroPieces,
        r matches Ok(pieces) ==> {
            &&& pieces@.len() == num_pieces
            &&& forall|p: int|
                0 <= p < num_pieces ==> rows_view(#[trigger] pieces@[p]@) == match policy {
                    Policy::KeepGroups => split_spec(
                        fields_view(header@),
                        rows_view(rows@),
                        num_pieces as int,
                    )[p],
                    Policy::RoundRobin => seq![fields_view(header@)] + round_robin_rows(
                        rows_view(rows@),
                        num_pieces as int,
                        p,
                    ),
                }
        },
{
    match policy {
        Policy::KeepGroups => split_rows(header, rows, num_pieces),
        Policy::RoundRobin => split_rows_round_robin(header, rows, num_pieces),
    }
}

} // verus!
