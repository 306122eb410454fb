use csv_split::assign::{assign_pieces, build_pieces};
use csv_split::group::{group_records, row_key, Group};
use csv_split::split::{split_rows, split_rows_by, split_rows_round_robin, split_table, Policy, SplitError};

fn row(fields: &[&str]) -> Vec<String> {
    fields.iter().map(|f| f.to_string()).collect()
}

fn rows_of_sizes(sizes: &[usize]) -> Vec<Vec<String>> {
    let mut rows = Vec::new();
    for (g, n) in sizes.iter().enumerate() {
        for i in 0..*n {
            rows.push(row(&[&format!("org{}", g), &format!("r{}", i)]));
        }
    }
    rows
}

fn groups_of_sizes(sizes: &[usize]) -> Vec<Group> {
    group_records(&rows_of_sizes(sizes))
}

fn sorted(mut v: Vec<Vec<String>>) -> Vec<Vec<String>> {
    v.sort();
    v
}

#[test]
fn key_is_first_field() {
    assert_eq!(row_key(&row(&["a", "b"])), "a");
    assert_eq!(row_key(&row(&[])), "");
    assert_eq!(row_key(&row(&["", "x"])), "");
}

#[test]
fn groups_keep_first_appearance_and_input_order() {
    let rows = vec![
        row(&["b", "1"]),
        row(&["a", "2"]),
        row(&["b", "3"]),
        row(&["c", "4"]),
        row(&["a", "5"]),
    ];
    let groups = group_records(&rows);
    let keys: Vec<&str> = groups.iter().map(|g| g.key.as_str()).collect();
    assert_eq!(keys, vec!["b", "a", "c"]);
    assert_eq!(groups[0].rows, vec![row(&["b", "1"]), row(&["b", "3"])]);
    assert_eq!(groups[1].rows, vec![row(&["a", "2"]), row(&["a", "5"])]);
    assert_eq!(groups[2].rows, vec![row(&["c", "4"])]);
    assert_eq!(groups[1].len(), 2);
}

#[test]
fn grouping_of_nothing_is_empty() {
    assert!(group_records(&Vec::new()).is_empty());
}

#[test]
fn example_sizes_five_three_two_into_two() {
    let groups = groups_of_sizes(&[5, 3, 2]);
    let a = assign_pieces(&groups, 10, 2);
    assert_eq!(a, vec![0, 1, 1]);
    let pieces = build_pieces(&row(&["org", "v"]), &groups, &a, 2);
    assert_eq!(pieces[0].len() - 1, 5);
    assert_eq!(pieces[1].len() - 1, 5);
}

#[test]
fn large_group_is_not_split() {
    let groups = groups_of_sizes(&[1, 7, 1, 1]);
    let a = assign_pieces(&groups, 10, 2);
    assert_eq!(a, vec![0, 0, 1, 1]);
}

#[test]
fn walk_stays_on_last_piece() {
    let groups = groups_of_sizes(&[1, 1, 1, 1, 1]);
    let a = assign_pieces(&groups, 5, 3);
    assert_eq!(a, vec![0, 1, 2, 2, 2]);
}

#[test]
fn zero_target_gives_one_group_per_piece() {
    let groups = groups_of_sizes(&[2, 1]);
    let a = assign_pieces(&groups, 3, 5);
    assert_eq!(a, vec![0, 1]);
}

#[test]
fn singletons_balance_within_one() {
    let header = row(&["org", "v"]);
    let rows = rows_of_sizes(&[1, 1, 1, 1, 1, 1, 1]);
    let pieces = split_rows(&header, &rows, 3).unwrap();
    let sizes: Vec<usize> = pieces.iter().map(|p| p.len() - 1).collect();
    assert_eq!(sizes, vec![2, 2, 3]);
}

#[test]
fn zero_pieces_is_refused() {
    let header = row(&["org", "v"]);
    let rows = rows_of_sizes(&[2, 1]);
    assert!(matches!(split_rows(&header, &rows, 0), Err(SplitError::ZeroPieces)));
    assert!(matches!(
        split_table(b"org,v\na,1\n", 0),
        Err(SplitError::ZeroPieces)
    ));
}

#[test]
fn pieces_hold_every_row_once_and_start_with_header() {
    let header = row(&["org", "v"]);
    let rows = vec![
        row(&["x", "1"]),
        row(&["y", "2"]),
        row(&["x", "3"]),
        row(&["z", "4"]),
        row(&["y", "5"]),
        row(&["w", "6"]),
    ];
    let pieces = split_rows(&header, &rows, 4).unwrap();
    assert_eq!(pieces.len(), 4);
    let mut all = Vec::new();
    for p in &pieces {
        assert_eq!(p[0], header);
        all.extend(p[1..].iter().cloned());
    }
    assert_eq!(sorted(all), sorted(rows.clone()));
    for key in ["x", "y", "z", "w"] {
        let holding: Vec<usize> = (0..pieces.len())
            .filter(|&i| pieces[i][1..].iter().any(|r| r[0] == key))
            .collect();
        assert_eq!(holding.len(), 1);
    }
}

#[test]
fn more_pieces_than_groups_leaves_header_only_pieces() {
    let header = row(&["org", "v"]);
    let rows = rows_of_sizes(&[2, 3]);
    let pieces = split_rows(&header, &rows, 5).unwrap();
    assert_eq!(pieces.len(), 5);
    assert_eq!(pieces[0].len(), 3);
    assert_eq!(pieces[1].len(), 4);
    for p in &pieces[2..] {
        assert_eq!(p, &vec![header.clone()]);
    }
}

#[test]
fn split_is_repeatable() {
    let header = row(&["org", "v"]);
    let rows = rows_of_sizes(&[3, 1, 4, 1, 5]);
    let first = split_rows(&header, &rows, 3).unwrap();
    let second = split_rows(&header, &rows, 3).unwrap();
    assert_eq!(first, second);
}

#[test]
fn table_is_split_and_encoded() {
    let input = b"org,name\na,1\nb,2\na,3\n";
    let out = split_table(input, 2).unwrap();
    assert_eq!(out.len(), 2);
    assert_eq!(String::from_utf8(out[0].clone()).unwrap(), "org,name\na,1\na,3\n");
    assert_eq!(String::from_utf8(out[1].clone()).unwrap(), "org,name\nb,2\n");
}

#[test]
fn quoted_fields_are_read_and_written_back() {
    let input = b"org,note\n\"a,b\",\"say \"\"hi\"\"\"\nc,plain\n";
    let out = split_table(input, 1).unwrap();
    assert_eq!(out.len(), 1);
    assert_eq!(
        String::from_utf8(out[0].clone()).unwrap(),
        "org,note\n\"a,b\",\"say \"\"hi\"\"\"\nc,plain\n"
    );
}

#[test]
fn header_only_input_gives_header_only_pieces() {
    let out = split_table(b"org,name\n", 3).unwrap();
    assert_eq!(out.len(), 3);
    for p in &out {
        assert_eq!(String::from_utf8(p.clone()).unwrap(), "org,name\n");
    }
}

#[test]
fn malformed_row_is_an_input_error() {
    let input = b"org,name\na,1\nb,2,extra\n";
    assert!(matches!(split_table(input, 2), Err(SplitError::Input(_))));
}

#[test]
fn round_robin_deals_rows_in_turn() {
    let header = row(&["org", "v"]);
    let rows = vec![
        row(&["a", "1"]),
        row(&["a", "2"]),
        row(&["b", "3"]),
        row(&["a", "4"]),
        row(&["c", "5"]),
    ];
    let pieces = split_rows_round_robin(&header, &rows, 2).unwrap();
    assert_eq!(
        pieces[0],
        vec![header.clone(), row(&["a", "1"]), row(&["b", "3"]), row(&["c", "5"])]
    );
    assert_eq!(pieces[1], vec![header.clone(), row(&["a", "2"]), row(&["a", "4"])]);
    assert!(matches!(
        split_rows_round_robin(&header, &rows, 0),
        Err(SplitError::ZeroPieces)
    ));
}

#[test]
fn policy_selects_the_split() {
    let header = row(&["org", "v"]);
    let rows = rows_of_sizes(&[3, 1]);
    assert_eq!(
        split_rows_by(Policy::KeepGroups, &header, &rows, 2).unwrap(),
        split_rows(&header, &rows, 2).unwrap()
    );
    assert_eq!(
        split_rows_by(Policy::RoundRobin, &header, &rows, 2).unwrap(),
        split_rows_round_robin(&header, &rows, 2).unwrap()
    );
    assert_ne!(
        split_rows_by(Policy::KeepGroups, &header, &rows, 2).unwrap(),
        split_rows_by(Policy::RoundRobin, &header, &rows, 2).unwrap()
    );
}

#[test]
fn large_group_bound_on_closed_pieces() {
    let header = row(&["org", "v"]);
    let rows = rows_of_sizes(&[1, 6, 2, 1, 2]);
    let pieces = split_rows(&header, &rows, 3).unwrap();
    let sizes: Vec<usize> = pieces.iter().map(|p| p.len() - 1).collect();
    assert_eq!(sizes, vec![7, 5, 0]);
    for s in &sizes[..2] {
        assert!(*s <= 3 + 6);
    }
}
