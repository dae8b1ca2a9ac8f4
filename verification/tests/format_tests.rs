use hexdump::format::{ascii_char, format_bytes, hex_digit, is_printable, DumpRecord};
use hexdump::line::{format_line, push_padded_hex};

fn expected_ascii(x: u8) -> char {
    if x.is_ascii_graphic() || x == b' ' {
        x as char
    } else {
        '.'
    }
}

#[test]
fn hex_digits_are_lowercase() {
    let digits: Vec<char> = (0u8..16).map(hex_digit).collect();
    let text: String = digits.into_iter().collect();
    assert_eq!(text, "0123456789abcdef");
}

#[test]
fn printable_bytes_are_graphic_or_space() {
    for x in 0u8..=255 {
        assert_eq!(is_printable(x), x.is_ascii_graphic() || x == b' ', "byte {}", x);
        assert_eq!(ascii_char(x), expected_ascii(x), "byte {}", x);
    }
}

#[test]
fn ascii_column_has_one_character_per_byte() {
    for len in [0usize, 1, 7, 8, 9, 15, 16, 17, 64, 255] {
        let bytes: Vec<u8> = (0..len).map(|i| (i * 7 % 256) as u8).collect();
        let record = format_bytes(&bytes);
        assert_eq!(record.ascii_repr.chars().count(), len);
        assert_eq!(record.hex_repr.len(), 3 * len + len / 8);
    }
}

#[test]
fn single_byte_is_itself_or_a_dot() {
    for x in 0u8..=255 {
        let record = format_bytes(&[x]);
        assert_eq!(record.ascii_repr, expected_ascii(x).to_string(), "byte {}", x);
        assert_eq!(record.hex_repr, format!("{:02x} ", x), "byte {}", x);
    }
}

#[test]
fn empty_run_gives_two_empty_columns() {
    let record = format_bytes(&[]);
    assert_eq!(record.hex_repr, "");
    assert_eq!(record.ascii_repr, "");
}

#[test]
fn hello_world_row() {
    let record = format_bytes(b"Hello, World!!!\n");
    assert_eq!(record.ascii_repr, "Hello, World!!!.");
    assert_eq!(
        record.hex_repr,
        "48 65 6c 6c 6f 2c 20 57  6f 72 6c 64 21 21 21 0a  "
    );
    assert!(record
        .hex_repr
        .starts_with("48 65 6c 6c 6f 2c 20 57  6f 72 6c 64 21 21 21 0a "));
}

#[test]
fn a_group_of_eight_ends_with_one_more_space() {
    assert_eq!(format_bytes(&[0, 1, 2, 3, 4, 5, 6]).hex_repr, "00 01 02 03 04 05 06 ");
    assert_eq!(
        format_bytes(&[0, 1, 2, 3, 4, 5, 6, 7]).hex_repr,
        "00 01 02 03 04 05 06 07  "
    );
    assert_eq!(
        format_bytes(&[0, 1, 2, 3, 4, 5, 6, 7, 0xff]).hex_repr,
        "00 01 02 03 04 05 06 07  ff "
    );
}

#[test]
fn control_and_high_bytes_are_dots() {
    let record = format_bytes(&[0x00, 0x1f, 0x20, 0x21, 0x7e, 0x7f, 0x80, 0xff]);
    assert_eq!(record.ascii_repr, ".. !~...");
    assert_eq!(record.hex_repr, "00 1f 20 21 7e 7f 80 ff  ");
}

#[test]
fn format_matches_the_standard_rendering() {
    let bytes: Vec<u8> = (0u8..=255).collect();
    for chunk in bytes.chunks(16) {
        let mut hex = String::new();
        for (i, b) in chunk.iter().enumerate() {
            hex.push_str(&format!("{:02x} ", b));
            if (i + 1) % 8 == 0 {
                hex.push(' ');
            }
        }
        assert_eq!(format_bytes(chunk).hex_repr, hex);
    }
}

#[test]
fn cloned_record_is_equal() {
    let record = format_bytes(b"abc");
    let copy = record.clone();
    assert_eq!(record, copy);
    assert_eq!(copy.hex_repr, "61 62 63 ");
}

#[test]
fn padded_hex_pads_to_the_width() {
    let mut s = String::new();
    push_padded_hex(&mut s, 0, 8);
    assert_eq!(s, "00000000");
    let mut s = String::new();
    push_padded_hex(&mut s, 0x1f, 8);
    assert_eq!(s, "0000001f");
    let mut s = String::new();
    push_padded_hex(&mut s, 255, 1);
    assert_eq!(s, "ff");
    let mut s = String::new();
    push_padded_hex(&mut s, 0, 0);
    assert_eq!(s, "0");
    let mut s = String::from("x");
    push_padded_hex(&mut s, 0xabcdef, 3);
    assert_eq!(s, "xabcdef");
}

#[test]
fn padded_hex_matches_the_standard_rendering() {
    for n in [0usize, 1, 9, 10, 15, 16, 255, 256, 4095, 4096, 0xdead_beef, usize::MAX] {
        let mut s = String::new();
        push_padded_hex(&mut s, n, 8);
        assert_eq!(s, format!("{:08x}", n));
        assert_eq!(usize::from_str_radix(&s, 16).unwrap(), n);
    }
}

#[test]
fn line_has_offset_hex_and_ascii() {
    let record = DumpRecord { hex_repr: "41 42 ".to_string(), ascii_repr: "AB".to_string() };
    assert_eq!(format_line(0, &record), "00000000: 41 42  | AB");
    assert_eq!(format_line(0x1234_abcd, &record), "1234abcd: 41 42  | AB");
    assert_eq!(format_line(4096, &record), "00001000: 41 42  | AB");
}

#[test]
fn line_of_a_wide_offset_takes_more_digits() {
    let record = DumpRecord { hex_repr: String::new(), ascii_repr: String::new() };
    assert_eq!(format_line(usize::MAX, &record), format!("{:08x}:  | ", usize::MAX));
}
