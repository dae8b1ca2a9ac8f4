use hexdump::chunk::{process_chunk, DumpConfig};
use hexdump::dump::{block_count, checked_hexdump, hexdump, input_fits, render_table, split_blocks};
use hexdump::table::ResultTable;

fn sample(len: usize) -> Vec<u8> {
    (0..len).map(|i| (i * 131 % 251) as u8).collect()
}

fn offset_of(line: &str) -> usize {
    let (label, _) = line.split_once(": ").unwrap();
    usize::from_str_radix(label, 16).unwrap()
}

fn ascii_of(line: &str) -> &str {
    let at = line.rfind(" | ").unwrap();
    &line[at + 3..]
}

fn standard_row(offset: usize, bytes: &[u8]) -> String {
    let mut hex = String::new();
    let mut ascii = String::new();
    for (i, b) in bytes.iter().enumerate() {
        hex.push_str(&format!("{:02x} ", b));
        if b.is_ascii_graphic() || *b == b' ' {
            ascii.push(*b as char);
        } else {
            ascii.push('.');
        }
        if (i + 1) % 8 == 0 {
            hex.push(' ');
        }
    }
    format!("{:08x}: {} | {}", offset, hex, ascii)
}

#[test]
fn hello_world_is_one_line_at_offset_zero() {
    let lines = hexdump(b"Hello, World!!!\n", &DumpConfig::classic());
    assert_eq!(
        lines,
        vec!["00000000: 48 65 6c 6c 6f 2c 20 57  6f 72 6c 64 21 21 21 0a   | Hello, World!!!."
            .to_string()]
    );
    assert!(lines[0].starts_with("00000000: 48 65 6c 6c 6f 2c 20 57  6f 72 6c 64 21 21 21 0a "));
    assert!(lines[0].ends_with(" | Hello, World!!!."));
}

#[test]
fn empty_input_prints_nothing() {
    assert!(hexdump(&[], &DumpConfig::classic()).is_empty());
    assert!(hexdump(&[], &DumpConfig::contiguous(4096, 16).unwrap()).is_empty());
    assert!(split_blocks(&[], &DumpConfig::classic()).is_empty());
    assert!(render_table(&ResultTable::new()).is_empty());
}

#[test]
fn one_full_block_is_one_unit_of_work() {
    let config = DumpConfig::classic();
    assert_eq!(block_count(0, &config), 0);
    assert_eq!(block_count(1, &config), 1);
    assert_eq!(block_count(4096, &config), 1);
    assert_eq!(block_count(4097, &config), 2);
    assert_eq!(block_count(8192, &config), 2);
    assert_eq!(split_blocks(&sample(4096), &config).len(), 1);
    assert_eq!(split_blocks(&sample(4097), &config).len(), 2);
}

#[test]
fn blocks_carry_their_start_and_their_bytes() {
    let data = sample(10000);
    let blocks = split_blocks(&data, &DumpConfig::classic());
    assert_eq!(blocks.len(), 3);
    assert_eq!(blocks[0].start_offset, 0);
    assert_eq!(blocks[1].start_offset, 4096);
    assert_eq!(blocks[2].start_offset, 8192);
    assert_eq!(blocks[0].bytes, &data[0..4096]);
    assert_eq!(blocks[1].bytes, &data[4096..8192]);
    assert_eq!(blocks[2].bytes, &data[8192..10000]);
}

#[test]
fn dumping_twice_gives_identical_output() {
    let data = sample(9000);
    for config in [DumpConfig::classic(), DumpConfig::contiguous(4096, 16).unwrap()] {
        assert_eq!(hexdump(&data, &config), hexdump(&data, &config));
    }
}

#[test]
fn contiguous_dump_covers_every_byte_once() {
    for len in [1usize, 15, 16, 17, 100, 4095, 4096, 4097, 9000] {
        let data = sample(len);
        for config in [
            DumpConfig::contiguous(4096, 16).unwrap(),
            DumpConfig::contiguous(100, 16).unwrap(),
            DumpConfig::contiguous(7, 3).unwrap(),
        ] {
            let lines = hexdump(&data, &config);
            let mut next = 0usize;
            for (i, line) in lines.iter().enumerate() {
                let offset = offset_of(line);
                assert_eq!(offset, next, "line {} of a dump of {} bytes", i, len);
                let shown = ascii_of(line).chars().count();
                assert!(shown > 0);
                assert_eq!(*line, standard_row(offset, &data[offset..offset + shown]));
                next = offset + shown;
            }
            assert_eq!(next, len);
        }
    }
}

#[test]
fn contiguous_dump_with_aligned_blocks_is_rows_of_sixteen() {
    let data = sample(9000);
    let lines = hexdump(&data, &DumpConfig::contiguous(4096, 16).unwrap());
    let expected: Vec<String> =
        data.chunks(16).enumerate().map(|(i, row)| standard_row(16 * i, row)).collect();
    assert_eq!(lines, expected);
}

#[test]
fn printed_offsets_ascend() {
    let data = sample(9000);
    for config in [
        DumpConfig::classic(),
        DumpConfig::contiguous(4096, 16).unwrap(),
        DumpConfig::new(64, 5, 9).unwrap(),
        DumpConfig::new(64, 5, 0).unwrap(),
    ] {
        let lines = hexdump(&data, &config);
        assert!(!lines.is_empty());
        for pair in lines.windows(2) {
            assert!(offset_of(&pair[0]) < offset_of(&pair[1]));
        }
    }
}

#[test]
fn classic_dump_files_rows_eight_apart() {
    let data = sample(4096 + 40);
    let lines = hexdump(&data, &DumpConfig::classic());
    assert_eq!(lines.len(), 256 + 3);
    for i in 0..256 {
        assert_eq!(lines[i], standard_row(8 * i, &data[16 * i..16 * i + 16]));
    }
    assert_eq!(lines[256], standard_row(4096, &data[4096..4112]));
    assert_eq!(lines[257], standard_row(4104, &data[4112..4128]));
    assert_eq!(lines[258], standard_row(4112, &data[4128..4136]));
}

#[test]
fn blocks_may_be_filed_in_any_order() {
    let data = sample(20000);
    let config = DumpConfig::classic();
    let blocks = split_blocks(&data, &config);
    let mut forward = ResultTable::new();
    for block in blocks.iter() {
        process_chunk(&mut forward, block.start_offset, &block.bytes, &config);
    }
    let mut backward = ResultTable::new();
    for block in blocks.iter().rev() {
        process_chunk(&mut backward, block.start_offset, &block.bytes, &config);
    }
    assert_eq!(render_table(&forward), render_table(&backward));
    assert_eq!(render_table(&forward), hexdump(&data, &config));
}

#[test]
fn stride_zero_prints_one_line_for_each_block() {
    let data = sample(150);
    let config = DumpConfig::new(64, 5, 0).unwrap();
    let lines = hexdump(&data, &config);
    assert_eq!(lines.len(), 3);
    assert_eq!(lines[0], standard_row(0, &data[60..64]));
    assert_eq!(lines[1], standard_row(64, &data[124..128]));
    assert_eq!(lines[2], standard_row(128, &data[148..150]));
}

#[test]
fn render_prints_the_table_in_order() {
    let mut table = ResultTable::new();
    let config = DumpConfig::contiguous(4096, 16).unwrap();
    process_chunk(&mut table, 32, b"second block", &config);
    process_chunk(&mut table, 0, b"first", &config);
    assert_eq!(
        render_table(&table),
        vec![standard_row(0, b"first"), standard_row(32, b"second block")]
    );
}

#[test]
fn checked_dump_agrees_with_the_dump() {
    let data = sample(5000);
    for config in [DumpConfig::classic(), DumpConfig::contiguous(4096, 16).unwrap()] {
        assert!(input_fits(&data, &config));
        assert_eq!(checked_hexdump(&data, &config), Some(hexdump(&data, &config)));
    }
    assert_eq!(checked_hexdump(&[], &DumpConfig::classic()), Some(Vec::new()));
}

#[test]
fn checked_dump_refuses_offsets_out_of_range() {
    let wide = DumpConfig::new(64, 1, usize::MAX).unwrap();
    assert!(input_fits(&[1, 2], &wide));
    assert!(!input_fits(&[1, 2, 3], &wide));
    assert_eq!(checked_hexdump(&[1, 2, 3], &wide), None);
    let lines = checked_hexdump(&[0x41, 0x42], &wide).unwrap();
    assert_eq!(lines, vec![standard_row(0, &[0x41]), standard_row(usize::MAX, &[0x42])]);
}

#[test]
fn checked_dump_refuses_empty_blocks_and_rows() {
    let no_blocks = DumpConfig { file_chunk_size: 0, split_chunk_size: 16, offset_stride: 16 };
    let no_rows = DumpConfig { file_chunk_size: 4096, split_chunk_size: 0, offset_stride: 0 };
    assert_eq!(checked_hexdump(b"abc", &no_blocks), None);
    assert_eq!(checked_hexdump(b"abc", &no_rows), None);
    assert_eq!(checked_hexdump(&[], &no_rows), None);
}
