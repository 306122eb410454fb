//! Grouping of rows by their key, the first field.
use vstd::prelude::*;

verus! {

/// The key of a row: its first field, or the empty string when it has none.
pub open spec fn key_of(row: Seq<Seq<char>>) -> Seq<char> {
    if row.len() > 0 {
        row[0]
    } else {
        Seq::empty()
    }
}

/// A row seen as the text of its fields.
pub open spec fn fields_view(row: Seq<String>) -> Seq<Seq<char>> {
    row.map_values(|f: String| f@)
}

/// Rows seen as the text of their fields.
pub open spec fn rows_view(rows: Seq<Vec<String>>) -> Seq<Seq<Seq<char>>> {
    rows.map_values(|r: Vec<String>| fields_view(r@))
}

/// The distinct keys of `rows`, in the order in which each first appears.
pub open spec fn key_order(rows: Seq<Seq<Seq<char>>>) -> Seq<Seq<char>>
    decreases rows.len(),
{
    if rows.len() == 0 {
        Seq::empty()
    } else {
        let ks = key_order(rows.drop_last());
        if ks.contains(key_of(rows.last())) {
            ks
        } else {
            ks.push(key_of(rows.last()))
        }
    }
}

/// The rows whose key is `k`, in their original order.
pub open spec fn rows_with_key(rows: Seq<Seq<Seq<char>>>, k: Seq<char>) -> Seq<Seq<Seq<char>>> {
    rows.filter(|r: Seq<Seq<char>>| key_of(r) == k)
}

/// All rows that share one key.
pub struct Group {
    pub key: String,
    pub rows: Vec<Vec<String>>,
}

impl Group {
    /// The rows of the group, as the text of their fields.
    pub open spec fn rows_spec(&self) -> Seq<Seq<Seq<char>>> {
        rows_view(self.rows@)
    }

    /// Number of rows in the group.
    pub fn len(&self) -> (r: usize)
        ensures
            r == self.rows_spec().len(),
    {
        self.rows.len()
    }
}

/// The groups of `rows` as a sequence of row sequences, in key order.
pub open spec fn groups_of(rows: Seq<Seq<Seq<char>>>) -> Seq<Seq<Seq<Seq<char>>>> {
    key_order(rows).map_values(|k: Seq<char>| rows_with_key(rows, k))
}

/// What a computed grouping holds: one group per distinct key, in order of
/// first appearance, each with exactly the rows of that key.
pub open spec fn is_grouping_of(groups: Seq<Group>, rows: Seq<Seq<Seq<char>>>) -> bool {
    &&& groups.len() == key_order(rows).len()
    &&& forall|j: int|
        0 <= j < groups.len() ==> {
            &&& (#[trigger] groups[j]).key@ == key_order(rows)[j]
            &&& groups[j].rows_spec() == rows_with_key(rows, key_order(rows)[j])
        }
}

/// The distinct keys are indeed distinct.
pub proof fn lemma_key_order_distinct(rows: Seq<Seq<Seq<char>>>)
    ensures
        key_order(rows).no_duplicates(),
    decreases rows.len(),
{
    if rows.len() > 0 {
        lemma_key_order_distinct(rows.drop_last());
    }
}

/// A key that does not occur among the distinct keys has no rows.
pub proof fn lemma_absent_key_has_no_rows(rows: Seq<Seq<Seq<char>>>, k: Seq<char>)
    requires
        !key_order(rows).contains(k),
    ensures
        rows_with_key(rows, k) == Seq::<Seq<Seq<char>>>::empty(),
    decreases rows.len(),
{
    if rows.len() > 0 {
        let pre = rows.drop_last();
        assert(rows =~= pre.push(rows.last()));
        if key_order(pre).contains(k) {
            let t = choose|t: int| 0 <= t < key_order(pre).len() && key_order(pre)[t] == k;
            if !key_order(pre).contains(key_of(rows.last())) {
                assert(key_order(rows)[t] == k);
            }
        }
        lemma_absent_key_has_no_rows(pre, k);
        pre.lemma_filter_push(rows.last(), |r: Seq<Seq<char>>| key_of(r) == k);
        if key_of(rows.last()) == k {
            if key_order(pre).contains(k) {
            } else {
                assert(key_order(rows).last() == k);
            }
        }
    }
}

/// The key of a row, as an owned string.
pub fn row_key(row: &Vec<String>) -> (k: String)
    ensures
        k@ == key_of(fields_view(row@)),
{
    if row.len() > 0 {
        row[0].clone()
    } else {
        String::new()
    }
}

/// A copy of a row.
pub(crate) fn clone_row(row: &Vec<String>) -> (r: Vec<String>)
    ensures
        r@ == row@,
{
    let r = row.clone();
    proof {
        assert forall|i: int| 0 <= i < r@.len() implies r@[i] == row@[i] by {
            assert(cloned(row@[i], r@[i]));
        }
        assert(r@ =~= row@);
    }
    r
}

/// Groups `rows` by key. Keys come in the order in which they first appear,
/// and each group keeps its rows in input order.
pub fn group_records(rows: &Vec<Vec<String>>) -> (groups: Vec<Group>)
    ensures
        is_grouping_of(groups@, rows_view(rows@)),
{
    let ghost all = rows_view(rows@);
    let mut groups: Vec<Group> = Vec::new();
    let mut i: usize = 0;
    while i < rows.len()
        invariant
            i <= rows.len(),
            all == rows_view(rows@),
            is_grouping_of(groups@, all.take(i as int)),
        decreases rows.len() - i,
    {
        let ghost pre = all.take(i as int);
        let ghost post = all.take(i + 1);
        assert(post.drop_last() =~= pre);
        assert(post.last() == fields_view(rows@[i as int]@));
        let key = row_key(&rows[i]);
        let mut j: usize = 0;
        let mut found = false;
        while j < groups.len()
            invariant_except_break
                !found,
            invariant
                j <= groups.len(),
                forall|jj: int| 0 <= jj < j ==> (#[trigger] groups@[jj]).key@ != key@,
            ensures
                found ==> j < groups.len() && groups@[j as int].key@ == key@,
                !found ==> j == groups.len(),
            decreases groups.len() - j,
        {
            if groups[j].key == key {
                found = true;
                break;
            }
            j = j + 1;
        }
        let ghost old_groups = groups@;
        let row = clone_row(&rows[i]);
        let ghost r = fields_view(row@);
        proof {
            assert(post =~= pre.push(r));
            assert forall|k: Seq<char>| k != key@ implies #[trigger] rows_with_key(post, k)
                == rows_with_key(pre, k) by {
                pre.lemma_filter_push(r, |x: Seq<Seq<char>>| key_of(x) == k);
            }
            pre.lemma_filter_push(r, |x: Seq<Seq<char>>| key_of(x) == key@);
        }
        if found {
            groups[j].rows.push(row);
            proof {
                assert(key_order(pre)[j as int] == key@);
                lemma_key_order_distinct(pre);
                assert(key_order(post) == key_order(pre));
                assert(groups@[j as int].rows_spec() =~= old_groups[j as int].rows_spec().push(r));
                assert forall|jj: int| 0 <= jj < groups@.len() && jj != j implies
                    (#[trigger] groups@[jj]) == old_groups[jj] by {}
                assert forall|jj: int| 0 <= jj < groups@.len() implies {
                    &&& (#[trigger] groups@[jj]).key@ == key_order(post)[jj]
                    &&& groups@[jj].rows_spec() == rows_with_key(post, key_order(post)[jj])
                } by {
                    if jj != j {
                        assert(groups@[jj] == old_groups[jj]);
                        assert(key_order(post)[jj] != key@);
                    }
                }
            }
        } else {
            let mut fresh: Vec<Vec<String>> = Vec::new();
            fresh.push(row);
            groups.push(Group { key, rows: fresh });
            proof {
                assert forall|t: int| 0 <= t < key_order(pre).len() implies key_order(pre)[t]
                    != key@ by {
                    assert(old_groups[t].key@ == key_order(pre)[t]);
                }
                assert(!key_order(pre).contains(key@));
                lemma_absent_key_has_no_rows(pre, key@);
                assert(key_order(post) == key_order(pre).push(key@));
                assert(groups@.last().rows_spec() =~= seq![r]);
                assert(seq![r] =~= Seq::<Seq<Seq<char>>>::empty().push(r));
                assert forall|jj: int| 0 <= jj < groups@.len() implies {
                    &&& (#[trigger] groups@[jj]).key@ == key_order(post)[jj]
                    &&& groups@[jj].rows_spec() == rows_with_key(post, key_order(post)[jj])
                } by {
                    if jj < old_groups.len() {
                        assert(groups@[jj] == old_groups[jj]);
                        assert(key_order(post)[jj] != key@);
                    }
                }
            }
        }
        i = i + 1;
    }
    assert(all.take(rows.len() as int) =~= all);
    groups
}

} // verus!
