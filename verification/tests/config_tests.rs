use datagen::io::config::Config;
use datagen::io::config::QuoteStyle;
use datagen::io::config::Terminator;
use datagen::io::config::delimiter_for_path;
use datagen::utils::memory::compute_sort_size;
use datagen::utils::memory::get_default_sort_size;
use datagen::utils::memory::get_memory_info;

#[test]
fn tab_extensions_pick_tab() {
    assert_eq!(delimiter_for_path(&b"data.tsv".to_vec()), b'\t');
    assert_eq!(delimiter_for_path(&b"data.tab".to_vec()), b'\t');
    assert_eq!(delimiter_for_path(&b"dir/part.two.tsv".to_vec()), b'\t');
}

#[test]
fn other_paths_pick_comma() {
    assert_eq!(delimiter_for_path(&b"data.csv".to_vec()), b',');
    assert_eq!(delimiter_for_path(&b"data".to_vec()), b',');
    assert_eq!(delimiter_for_path(&b".tsv".to_vec()), b',');
    assert_eq!(delimiter_for_path(&b"dir/.tsv".to_vec()), b',');
    assert_eq!(delimiter_for_path(&b"dir.tsv/file.csv".to_vec()), b',');
    assert_eq!(delimiter_for_path(&b"".to_vec()), b',');
}

#[test]
fn dash_means_standard_stream() {
    let c = Config::new(&b"-".to_vec());
    assert!(c.is_stdout());
    assert_eq!(c.delimiter, b',');
}

#[test]
fn path_config_keeps_the_path() {
    let c = Config::new(&b"out.tsv".to_vec());
    assert!(!c.is_stdout());
    assert_eq!(c.path, Some(b"out.tsv".to_vec()));
    assert_eq!(c.delimiter, b'\t');
    assert!(c.no_headers);
    assert_eq!(c.quote_style, QuoteStyle::Never);
}

#[test]
fn builders_replace_one_option_each() {
    let c = Config::default()
        .delimiter(b';')
        .no_headers(false)
        .flexible(true)
        .quote(b'\'')
        .quoting(true)
        .double_quote(true)
        .escape(Some(b'\\'))
        .quote_style(QuoteStyle::Always)
        .crlf(true);
    assert_eq!(c.delimiter, b';');
    assert!(!c.no_headers);
    assert!(c.flexible);
    assert_eq!(c.quote, b'\'');
    assert!(c.quoting);
    assert!(c.double_quote);
    assert_eq!(c.escape, Some(b'\\'));
    assert_eq!(c.quote_style, QuoteStyle::Always);
    assert_eq!(c.terminator, Terminator::CRLF);
    let c = c.crlf(false).terminator(Terminator::Any(b';'));
    assert_eq!(c.terminator, Terminator::Any(b';'));
}

#[test]
fn sort_size_formula_with_no_limits() {
    // No resource limits reported: half of u64::MAX, then capped to 3/4 of
    // total, then to max(available, total / 8).
    let total = 32u64 << 30;
    let available = 16u64 << 30;
    let got = compute_sort_size(None, None, None, available, total, 1024);
    assert_eq!(got, available);
}

#[test]
fn sort_size_respects_data_limit_and_halving() {
    let total = 64u64 << 30;
    let available = 60u64 << 30;
    let data = 8u64 << 30;
    let got = compute_sort_size(Some(data), None, None, available, total, 1024);
    assert_eq!(got, data / 2);
}

#[test]
fn sort_size_rss_cap_applies() {
    let total = 64u64 << 30;
    let available = 60u64 << 30;
    let rss = 4u64 << 30;
    let got = compute_sort_size(None, None, Some(rss), available, total, 1024);
    assert_eq!(got, rss / 16 * 15);
}

#[test]
fn sort_size_floor_wins() {
    let got = compute_sort_size(Some(16), Some(16), Some(16), 8, 64, 1 << 20);
    assert_eq!(got, 1 << 20);
}

#[test]
fn default_sort_size_never_below_floor() {
    let floor = 123_456_789u64;
    assert!(get_default_sort_size(floor) >= floor);
}

#[test]
fn memory_info_is_consistent() {
    let (available, total) = get_memory_info();
    assert!(available <= total);
}
