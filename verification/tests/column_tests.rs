use datagen::column::IdFormat;
use datagen::column::NumberFormat;
use datagen::column::create_id_column;
use datagen::column::create_value_column;
use datagen::column::format_fixed6;
use datagen::column::format_id;
use datagen::column::format_number;
use datagen::column::format_padded;
use datagen::rand::draw_stream;
use datagen::rand::rewind;

#[test]
fn decimal_formatting() {
    assert_eq!(format_number(0), b"0".to_vec());
    assert_eq!(format_number(7), b"7".to_vec());
    assert_eq!(format_number(12345), b"12345".to_vec());
    assert_eq!(format_number(u64::MAX), b"18446744073709551615".to_vec());
}

#[test]
fn zero_padding() {
    assert_eq!(format_padded(7, 3), b"007".to_vec());
    assert_eq!(format_padded(123, 3), b"123".to_vec());
    assert_eq!(format_padded(1234, 3), b"1234".to_vec());
    assert_eq!(format_padded(0, 10), b"0000000000".to_vec());
}

#[test]
fn id_cells() {
    assert_eq!(format_id(5, 3), b"id005".to_vec());
    assert_eq!(format_id(42, 10), b"id0000000042".to_vec());
    assert_eq!(format_id(1234, 3), b"id1234".to_vec());
}

#[test]
fn fixed_point_cells() {
    assert_eq!(format_fixed6(1234567), b"1.234567".to_vec());
    assert_eq!(format_fixed6(5), b"0.000005".to_vec());
    assert_eq!(format_fixed6(100000000), b"100.000000".to_vec());
    assert_eq!(format_fixed6(0), b"0.000000".to_vec());
}

#[test]
fn id_column_blanks_exactly_one_group() {
    // number_of_rows = 10, k_groups_factors = 2, nas_ratio = 50: the
    // exclusion set holds floor(2 * 50 / 100) = 1 distinct id, and every
    // occurrence of that id is blanked.
    let seed = 42u64;
    let (cells, excluded) = create_id_column(seed, 10, 2, 50, IdFormat::Prefixed(3));
    assert_eq!(cells.len(), 10);
    assert_eq!(excluded.len(), 1);

    let mut g = rewind(seed);
    let values = draw_stream(&mut g, 10, 1, 3);
    let banned = excluded.to_vec()[0];
    for (cell, v) in cells.iter().zip(values.iter()) {
        if *v == banned {
            assert!(cell.is_empty());
        } else {
            assert_eq!(cell, &format_id(*v, 3));
        }
    }
}

#[test]
fn value_column_with_zero_ratio_blanks_nothing() {
    let (cells, excluded) = create_value_column(10, 1, 6, 0, NumberFormat::Plain);
    assert_eq!(cells.len(), 10);
    assert_eq!(excluded.len(), 0);
    for cell in &cells {
        assert!(!cell.is_empty());
        let text = String::from_utf8(cell.clone()).unwrap();
        let v: u64 = text.parse().unwrap();
        assert!((1..6).contains(&v));
    }
}

#[test]
fn value_column_blanks_exactly_the_sampled_positions() {
    let (cells, excluded) = create_value_column(10, 1, 16, 50, NumberFormat::Plain);
    assert_eq!(cells.len(), 10);
    assert_eq!(excluded.len(), 5);
    let mut blank_count = 0;
    for (i, cell) in cells.iter().enumerate() {
        if cell.is_empty() {
            blank_count += 1;
            assert!(excluded.contains(i as u64));
        } else {
            assert!(!excluded.contains(i as u64));
        }
    }
    assert_eq!(blank_count, 5);
}

#[test]
fn value_column_fixed_point_cells_carry_six_fraction_digits() {
    let (cells, _) = create_value_column(5, 0, 100_000_001, 0, NumberFormat::Fixed6);
    for cell in &cells {
        let text = String::from_utf8(cell.clone()).unwrap();
        let dot = text.find('.').unwrap();
        assert_eq!(text.len() - dot - 1, 6);
    }
}
