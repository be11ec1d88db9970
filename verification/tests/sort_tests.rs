use datagen::hash_map::SampleHashMap;
use datagen::hash_map::arg_unique;
use datagen::io::manipulate::Zip;
use datagen::io::manipulate::hstack;
use datagen::io::manipulate::lex_ordering;
use datagen::io::manipulate::merge_sort;
use datagen::io::manipulate::sort_chunk;
use datagen::io::manipulate::zip;
use datagen::iter::types::KeySet;
use datagen::sort::Selector;
use datagen::sort::cmp_lex;

fn row(fields: &[&[u8]]) -> Vec<Vec<u8>> {
    fields.iter().map(|f| f.to_vec()).collect()
}

/// A one-field record per row, as a column store holds them.
fn column(cells: &[&[u8]]) -> Vec<Vec<Vec<u8>>> {
    cells.iter().map(|c| vec![c.to_vec()]).collect()
}

#[test]
fn zipper_combines_aligned_records() {
    let columns = vec![
        column(&[b"a1", b"a2", b"a3", b"a4", b"a5"]),
        column(&[b"b1", b"b2", b"b3", b"b4", b"b5"]),
        column(&[b"c1", b"c2", b"c3", b"c4", b"c5"]),
    ];
    let mut z: Zip = zip(columns);
    let rows = hstack(&mut z);
    assert_eq!(rows.len(), 5);
    for (i, r) in rows.iter().enumerate() {
        assert_eq!(r.len(), 3);
        assert_eq!(r[0], format!("a{}", i + 1).into_bytes());
        assert_eq!(r[1], format!("b{}", i + 1).into_bytes());
        assert_eq!(r[2], format!("c{}", i + 1).into_bytes());
    }
}

#[test]
fn zipper_terminates_at_shortest_column() {
    let columns = vec![
        column(&[b"a1", b"a2", b"a3", b"a4", b"a5"]),
        column(&[b"b1", b"b2", b"b3"]),
        column(&[b"c1", b"c2", b"c3", b"c4", b"c5"]),
    ];
    let mut z: Zip = zip(columns);
    assert_eq!(z.size_hint(), (3, Some(3)));
    let rows = hstack(&mut z);
    assert_eq!(rows.len(), 3);
    assert_eq!(rows[2], row(&[b"a3", b"b3", b"c3"]));
}

#[test]
fn zipper_next_is_fused() {
    let columns = vec![column(&[b"x"])];
    let mut z: Zip = zip(columns);
    assert!(z.next().is_some());
    assert!(z.next().is_none());
    assert!(z.next().is_none());
}

#[test]
fn sort_chunk_sorts_whole_stream() {
    let columns = vec![column(&[b"pear", b"apple", b"plum", b"fig", b"apple"])];
    let mut z: Zip = zip(columns);
    let sorted = sort_chunk(None, &mut z);
    let expected = vec![
        row(&[b"apple"]),
        row(&[b"apple"]),
        row(&[b"fig"]),
        row(&[b"pear"]),
        row(&[b"plum"]),
    ];
    assert_eq!(sorted, expected);
}

#[test]
fn sort_chunk_takes_at_most_the_cap() {
    let columns = vec![column(&[b"d", b"c", b"b", b"a"])];
    let mut z: Zip = zip(columns);
    let first = sort_chunk(Some(3), &mut z);
    assert_eq!(first, vec![row(&[b"b"]), row(&[b"c"]), row(&[b"d"])]);
    let second = sort_chunk(Some(3), &mut z);
    assert_eq!(second, vec![row(&[b"a"])]);
    let third = sort_chunk(Some(3), &mut z);
    assert!(third.is_empty());
}

#[test]
fn external_sort_matches_in_memory_sort() {
    // Ten rows, forced into runs of two: the merged result must be
    // byte-identical to sorting all ten in memory directly.
    let cells: Vec<&[u8]> = vec![
        b"id007", b"id002", b"id009", b"id001", b"id002", b"id010", b"id004", b"id003", b"id008",
        b"id005",
    ];
    let mut z1: Zip = zip(vec![column(&cells)]);
    let direct = sort_chunk(None, &mut z1);

    let mut z2: Zip = zip(vec![column(&cells)]);
    let mut runs: Vec<Vec<Vec<Vec<u8>>>> = Vec::new();
    loop {
        let run = sort_chunk(Some(2), &mut z2);
        if run.is_empty() {
            break;
        }
        runs.push(run);
    }
    assert_eq!(runs.len(), 5);
    let merged = merge_sort(&runs);
    assert_eq!(merged, direct);
}

#[test]
fn merge_sort_of_uneven_runs() {
    let runs = vec![
        vec![row(&[b"a"]), row(&[b"d"])],
        vec![row(&[b"b"])],
        Vec::new(),
        vec![row(&[b"a"]), row(&[b"c"]), row(&[b"e"])],
    ];
    let merged = merge_sort(&runs);
    let expected = vec![
        row(&[b"a"]),
        row(&[b"a"]),
        row(&[b"b"]),
        row(&[b"c"]),
        row(&[b"d"]),
        row(&[b"e"]),
    ];
    assert_eq!(merged, expected);
}

#[test]
fn lex_ordering_compares_fields_left_to_right() {
    assert_eq!(lex_ordering(&row(&[b"a", b"b"]), &row(&[b"a", b"c"])), std::cmp::Ordering::Less);
    assert_eq!(lex_ordering(&row(&[b"a", b"b"]), &row(&[b"a", b"b"])), std::cmp::Ordering::Equal);
    assert_eq!(lex_ordering(&row(&[b"b"]), &row(&[b"a", b"z"])), std::cmp::Ordering::Greater);
}

#[test]
fn shorter_prefix_sorts_first() {
    assert_eq!(lex_ordering(&row(&[b"a"]), &row(&[b"a", b"b"])), std::cmp::Ordering::Less);
    assert_eq!(cmp_lex(&row(&[b"ab"]), &row(&[b"abc"])), std::cmp::Ordering::Less);
    assert_eq!(cmp_lex(&row(&[b"abc"]), &row(&[b"ab"])), std::cmp::Ordering::Greater);
}

#[test]
fn selector_picks_fields_in_key_order() {
    let r = row(&[b"x", b"y", b"z"]);
    let sel = Selector::new(vec![2, 0]);
    assert_eq!(sel.select(&r), row(&[b"z", b"x"]));
}

#[test]
fn arg_unique_returns_each_distinct_value_once() {
    let items = vec![4u64, 4, 2, 9, 2];
    let mut got = arg_unique(&items, 8);
    got.sort_unstable();
    assert_eq!(got, vec![2, 4, 9]);
}

#[test]
fn sample_hash_map_draws_without_replacement() {
    let items = vec![1u64, 1, 2, 2, 3];
    let picked = <KeySet as SampleHashMap>::sample(&items, 8, 2);
    assert_eq!(picked.len(), 2);
    for v in picked.to_vec() {
        assert!(items.contains(&v));
    }
    let all = <KeySet as SampleHashMap>::sample(&items, 8, 10);
    assert_eq!(all.len(), 3);
}
