use datagen::rand::GenError;
use datagen::rand::draw_stream;
use datagen::rand::init;
use datagen::rand::rewind;

#[test]
fn replay_reproduces_identical_sequence() {
    let mut g1 = rewind(42);
    let mut g2 = rewind(42);
    let a = draw_stream(&mut g1, 50, 1, 100);
    let b = draw_stream(&mut g2, 50, 1, 100);
    assert_eq!(a, b);
}

#[test]
fn replay_across_mixed_ranges() {
    let mut g1 = rewind(7);
    let mut g2 = rewind(7);
    let ranges = [(1u64, 3u64), (0, 1000), (5, 6), (10, 1_000_000)];
    for (lo, hi) in ranges {
        let x = g1.next_range(lo, hi);
        let y = g2.next_range(lo, hi);
        assert_eq!(x, y);
        assert!(lo <= x && x < hi);
    }
}

#[test]
fn init_seed_rewinds_to_same_stream() {
    let (seed, mut g1) = init();
    let a = draw_stream(&mut g1, 20, 0, 50);
    let mut g2 = rewind(seed);
    let b = draw_stream(&mut g2, 20, 0, 50);
    assert_eq!(a, b);
}

#[test]
fn different_seeds_usually_differ() {
    let mut g1 = rewind(1);
    let mut g2 = rewind(2);
    let a = draw_stream(&mut g1, 64, 0, 1_000_000_000);
    let b = draw_stream(&mut g2, 64, 0, 1_000_000_000);
    assert_ne!(a, b);
}

#[test]
fn empty_range_is_invalid() {
    let mut g = rewind(3);
    assert_eq!(g.try_next_range(5, 5), Err(GenError::InvalidRange));
    assert_eq!(g.try_next_range(9, 2), Err(GenError::InvalidRange));
    let ok = g.try_next_range(5, 6);
    assert_eq!(ok, Ok(5));
}

#[test]
fn draw_stream_stays_in_range() {
    let mut g = rewind(11);
    let vs = draw_stream(&mut g, 200, 3, 9);
    assert_eq!(vs.len(), 200);
    for v in vs {
        assert!((3..9).contains(&v));
    }
}
