use hexdump::chunk::{
    count_pieces, format_chunk, process_chunk, process_small_chunks, rows_fit, DumpConfig,
    FILE_CHUNK_SIZE, OFFSET_STRIDE, SPLIT_CHUNK_SIZE,
};
use hexdump::format::format_bytes;
use hexdump::table::ResultTable;

#[test]
fn classic_config_has_the_customary_sizes() {
    let config = DumpConfig::classic();
    assert_eq!(config.file_chunk_size, 4096);
    assert_eq!(config.split_chunk_size, 16);
    assert_eq!(config.offset_stride, 8);
    assert_eq!(FILE_CHUNK_SIZE, 4096);
    assert_eq!(SPLIT_CHUNK_SIZE, 16);
    assert_eq!(OFFSET_STRIDE, 8);
}

#[test]
fn config_needs_room_for_a_byte() {
    assert_eq!(DumpConfig::new(0, 16, 8), None);
    assert_eq!(DumpConfig::new(4096, 0, 8), None);
    assert_eq!(
        DumpConfig::new(64, 4, 0),
        Some(DumpConfig { file_chunk_size: 64, split_chunk_size: 4, offset_stride: 0 })
    );
    assert_eq!(DumpConfig::contiguous(0, 16), None);
    assert_eq!(DumpConfig::contiguous(16, 0), None);
    assert_eq!(
        DumpConfig::contiguous(4096, 16),
        Some(DumpConfig { file_chunk_size: 4096, split_chunk_size: 16, offset_stride: 16 })
    );
}

#[test]
fn count_pieces_rounds_up() {
    assert_eq!(count_pieces(0, 16), 0);
    assert_eq!(count_pieces(1, 16), 1);
    assert_eq!(count_pieces(16, 16), 1);
    assert_eq!(count_pieces(17, 16), 2);
    assert_eq!(count_pieces(4096, 16), 256);
    assert_eq!(count_pieces(usize::MAX, 1), usize::MAX);
    assert_eq!(count_pieces(usize::MAX, usize::MAX), 1);
    assert_eq!(count_pieces(usize::MAX, 2), usize::MAX / 2 + 1);
}

#[test]
fn small_chunk_is_filed_under_its_offset() {
    let mut table = ResultTable::new();
    process_small_chunks(&mut table, 24, b"Hi\n");
    let entries = table.drain_in_order();
    assert_eq!(entries.len(), 1);
    assert_eq!(entries[0].0, 24);
    assert_eq!(entries[0].1.hex_repr, "48 69 0a ");
    assert_eq!(entries[0].1.ascii_repr, "Hi.");
}

#[test]
fn rows_of_a_block_are_the_stride_apart() {
    let data: Vec<u8> = (0u8..40).collect();
    let config = DumpConfig::classic();
    let mut table = ResultTable::new();
    process_chunk(&mut table, 100, &data, &config);
    let entries = table.drain_in_order();
    assert_eq!(entries.len(), 3);
    assert_eq!(entries[0], (100, format_bytes(&data[0..16])));
    assert_eq!(entries[1], (108, format_bytes(&data[16..32])));
    assert_eq!(entries[2], (116, format_bytes(&data[32..40])));
}

#[test]
fn contiguous_rows_start_at_their_first_byte() {
    let data: Vec<u8> = (0u8..40).collect();
    let config = DumpConfig::contiguous(4096, 16).unwrap();
    let mut table = ResultTable::new();
    process_chunk(&mut table, 100, &data, &config);
    let entries = table.drain_in_order();
    let offsets: Vec<usize> = entries.iter().map(|e| e.0).collect();
    assert_eq!(offsets, vec![100, 116, 132]);
    assert_eq!(entries[2].1, format_bytes(&data[32..40]));
}

#[test]
fn empty_block_files_nothing() {
    let config = DumpConfig::classic();
    let mut table = ResultTable::new();
    process_chunk(&mut table, 7, &[], &config);
    assert!(table.is_empty());
    assert!(format_chunk(7, &[], &config).is_empty());
}

#[test]
fn stride_zero_keeps_the_last_row_only() {
    let data: Vec<u8> = (0u8..10).collect();
    let config = DumpConfig::new(64, 4, 0).unwrap();
    let mut table = ResultTable::new();
    process_chunk(&mut table, 5, &data, &config);
    let entries = table.drain_in_order();
    assert_eq!(entries, vec![(5usize, format_bytes(&data[8..10]))]);
}

#[test]
fn format_chunk_gives_what_process_chunk_files() {
    let data: Vec<u8> = (0..100usize).map(|i| (i * 31 % 256) as u8).collect();
    for config in [
        DumpConfig::classic(),
        DumpConfig::contiguous(64, 16).unwrap(),
        DumpConfig::new(64, 5, 3).unwrap(),
        DumpConfig::new(64, 5, 9).unwrap(),
    ] {
        let rows = format_chunk(1000, &data, &config);
        assert_eq!(rows.len(), count_pieces(data.len(), config.split_chunk_size));
        for (i, row) in rows.iter().enumerate() {
            assert_eq!(row.0, 1000 + i * config.offset_stride);
            let from = i * config.split_chunk_size;
            let to = (from + config.split_chunk_size).min(data.len());
            assert_eq!(row.1, format_bytes(&data[from..to]));
        }
        let mut table = ResultTable::new();
        process_chunk(&mut table, 1000, &data, &config);
        assert_eq!(table.drain_in_order(), rows);
        let mut other = ResultTable::new();
        other.insert_entries(&rows);
        assert_eq!(other.drain_in_order(), rows);
    }
}

#[test]
fn rows_fit_tells_when_offsets_are_in_range() {
    let config = DumpConfig::classic();
    assert!(rows_fit(0, 4096, &config));
    assert!(rows_fit(usize::MAX, 0, &config));
    assert!(rows_fit(usize::MAX, 16, &config));
    assert!(!rows_fit(usize::MAX, 17, &config));
    assert!(rows_fit(usize::MAX - 8, 17, &config));
    assert!(!rows_fit(usize::MAX - 7, 17, &config));
    let wide = DumpConfig::new(64, 1, usize::MAX).unwrap();
    assert!(rows_fit(0, 2, &wide));
    assert!(!rows_fit(1, 2, &wide));
    assert!(!rows_fit(0, 3, &wide));
}
