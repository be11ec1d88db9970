use datagen::iter::extension::OptionalIterator;
use datagen::iter::extension::SamplingIterator;
use datagen::iter::extension::UniqueValueIterator;
use datagen::iter::multiple_zip::MultipleZip;
use datagen::iter::none::NoneByIndex;
use datagen::iter::none::NoneByValue;
use datagen::iter::none::none_by_index;
use datagen::iter::none::none_by_value;
use datagen::iter::types::KeySet;
use datagen::iter::unique::Unique;
use datagen::iter::unique::UniqueBy;
use datagen::iter::unique::count_new_keys;
use datagen::iter::unique::unique;
use datagen::iter::unique::unique_by;

fn key_set(values: &[u64]) -> KeySet {
    let mut s = KeySet::with_capacity(values.len());
    for &v in values {
        s.insert(v);
    }
    s
}

#[test]
fn unique_keeps_first_occurrences_in_order() {
    let items = vec![3u64, 1, 3, 2, 1, 3];
    assert_eq!(unique(&items), vec![3, 1, 2]);
}

#[test]
fn unique_of_empty_is_empty() {
    let items: Vec<u64> = Vec::new();
    assert_eq!(unique(&items), Vec::<u64>::new());
}

#[test]
fn unique_has_no_duplicates() {
    let items = vec![5u64, 5, 5, 5];
    assert_eq!(items.unique(), vec![5]);
}

#[test]
fn unique_by_keeps_item_of_first_key() {
    let items = vec![10u64, 20, 30, 40];
    let keys = vec![1u64, 2, 1, 3];
    assert_eq!(unique_by(&items, &keys), vec![10, 20, 40]);
}

#[test]
fn unique_filter_is_incremental() {
    let mut f = Unique::new();
    assert_eq!(f.next(4), Some(4));
    assert_eq!(f.next(4), None);
    assert_eq!(f.next(9), Some(9));
    assert_eq!(f.next(4), None);
}

#[test]
fn unique_by_filter_tracks_keys_not_items() {
    let mut f = UniqueBy::new();
    assert_eq!(f.next(100, 1), Some(100));
    assert_eq!(f.next(200, 1), None);
    assert_eq!(f.next(300, 2), Some(300));
}

#[test]
fn count_new_keys_counts_growth_only() {
    let used = key_set(&[1, 2]);
    let keys = vec![2u64, 3, 3, 4];
    assert_eq!(count_new_keys(used, &keys), 2);
}

#[test]
fn none_by_value_blanks_members() {
    let items = vec![1u64, 2, 3, 2];
    let out = items.none_by_value(key_set(&[2]));
    assert_eq!(out, vec![Some(1), None, Some(3), None]);
}

#[test]
fn none_by_index_blanks_positions() {
    let items = vec![5u64, 6, 7, 8];
    let out = items.none_by_index(key_set(&[0, 2]));
    assert_eq!(out, vec![None, Some(6), None, Some(8)]);
}

#[test]
fn na_injection_preserves_length() {
    let items: Vec<u64> = (0..37).collect();
    let by_value = items.none_by_value(key_set(&[4, 9]));
    assert_eq!(by_value.len(), items.len());
    let by_index = items.none_by_index(key_set(&[0, 36, 99]));
    assert_eq!(by_index.len(), items.len());
}

#[test]
fn none_by_index_counter_advances_once_per_item() {
    let mut inj: NoneByIndex = none_by_index(key_set(&[1]));
    assert_eq!(inj.next(10), Some(10));
    assert_eq!(inj.next(11), None);
    assert_eq!(inj.next(12), Some(12));
}

#[test]
fn none_by_value_is_stateless() {
    let inj: NoneByValue = none_by_value(key_set(&[7]));
    assert_eq!(inj.next(7), None);
    assert_eq!(inj.next(8), Some(8));
    assert_eq!(inj.next(7), None);
}

#[test]
fn choose_sample_returns_min_of_amount_and_length() {
    let items: Vec<u64> = (0..10).collect();
    assert_eq!(items.choose_sample(3).len(), 3);
    assert_eq!(items.choose_sample(0).len(), 0);
    assert_eq!(items.choose_sample(10).len(), 10);
    assert_eq!(items.choose_sample(25).len(), 10);
}

#[test]
fn choose_sample_is_subset_of_input() {
    let items: Vec<u64> = vec![100, 200, 300, 400];
    for _ in 0..50 {
        let picked = items.choose_sample(2);
        assert_eq!(picked.len(), 2);
        let got = picked.to_vec();
        for v in got {
            assert!(items.contains(&v));
        }
    }
}

#[test]
fn choose_sample_covers_every_element_eventually() {
    let items: Vec<u64> = vec![1, 2, 3, 4];
    let mut seen = [false; 4];
    for _ in 0..200 {
        for v in items.choose_sample(2).to_vec() {
            seen[(v - 1) as usize] = true;
        }
    }
    assert!(seen.iter().all(|&b| b));
}

#[test]
fn multiple_zip_terminates_at_shortest() {
    let streams = vec![vec![1u64, 2, 3, 4, 5], vec![10, 20, 30], vec![6, 7, 8, 9, 0]];
    let mut z = MultipleZip::new(streams);
    assert_eq!(z.size_hint(), (3, Some(3)));
    assert_eq!(z.next(), Some(vec![1, 10, 6]));
    assert_eq!(z.next(), Some(vec![2, 20, 7]));
    assert_eq!(z.next(), Some(vec![3, 30, 8]));
    assert_eq!(z.next(), None);
    assert_eq!(z.next(), None);
    assert_eq!(z.count(), 0);
}

#[test]
fn multiple_zip_equal_lengths() {
    let streams = vec![vec![1u64, 2], vec![3, 4]];
    let mut z = MultipleZip::new(streams);
    assert_eq!(z.count(), 2);
    assert_eq!(z.next(), Some(vec![1, 3]));
    assert_eq!(z.next(), Some(vec![2, 4]));
    assert_eq!(z.next(), None);
}
