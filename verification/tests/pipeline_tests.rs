use datagen::column::IdFormat;
use datagen::column::NumberFormat;
use datagen::column::create_id_column;
use datagen::column::create_value_column;
use datagen::io::manipulate::hstack;
use datagen::io::manipulate::merge_sort;
use datagen::io::manipulate::sort_chunk;
use datagen::io::manipulate::zip;

/// Cells of one column, wrapped as single-field records.
fn as_records(cells: Vec<Vec<u8>>) -> Vec<Vec<Vec<u8>>> {
    cells.into_iter().map(|c| vec![c]).collect()
}

#[test]
fn generated_columns_join_into_aligned_rows() {
    let n = 12;
    let (id_cells, _) = create_id_column(5, n, 3, 0, IdFormat::Prefixed(3));
    let (v1_cells, _) = create_value_column(n, 1, 6, 0, NumberFormat::Plain);
    let (v3_cells, _) = create_value_column(n, 0, 100_000_001, 0, NumberFormat::Fixed6);
    let mut zipped = zip(vec![as_records(id_cells), as_records(v1_cells), as_records(v3_cells)]);
    let rows = hstack(&mut zipped);
    assert_eq!(rows.len(), n);
    for row in &rows {
        assert_eq!(row.len(), 3);
        assert!(row[0].starts_with(b"id"));
    }
}

#[test]
fn sorted_pipeline_agrees_across_run_sizes() {
    let n = 16;
    let (id_cells, _) = create_id_column(99, n, 4, 25, IdFormat::Prefixed(3));
    let (v_cells, _) = create_value_column(n, 1, 16, 25, NumberFormat::Plain);
    let columns = vec![as_records(id_cells), as_records(v_cells)];

    let mut direct_zip = zip(columns.clone());
    let direct = sort_chunk(None, &mut direct_zip);

    for run_size in [1usize, 3, 5, 16, 100] {
        let mut run_zip = zip(columns.clone());
        let mut runs = Vec::new();
        loop {
            let run = sort_chunk(Some(run_size), &mut run_zip);
            if run.is_empty() {
                break;
            }
            runs.push(run);
        }
        let merged = merge_sort(&runs);
        assert_eq!(merged, direct);
    }
}
