//! Rendering of a short run of bytes as a hexadecimal column and an ASCII column.

use vstd::prelude::*;

verus! {

/// `String::push` of the standard library appends exactly one character to the
/// end of the string and leaves what stood there before untouched.
pub assume_specification[ String::push ](s: &mut String, c: char)
    ensures
        final(s)@ == old(s)@.push(c),
;

/// The two columns printed for one run of bytes.
#[derive(Debug, PartialEq, Eq)]
pub struct DumpRecord {
    pub hex_repr: String,
    pub ascii_repr: String,
}

/// The mathematical content of a [`DumpRecord`]: its two columns as character sequences.
pub struct RecordView {
    pub hex_repr: Seq<char>,
    pub ascii_repr: Seq<char>,
}

impl View for DumpRecord {
    type V = RecordView;

    open spec fn view(&self) -> RecordView {
        RecordView { hex_repr: self.hex_repr@, ascii_repr: self.ascii_repr@ }
    }
}

impl Clone for DumpRecord {
    fn clone(&self) -> (res: Self)
        ensures
            res@ == self@,
    {
        DumpRecord { hex_repr: self.hex_repr.clone(), ascii_repr: self.ascii_repr.clone() }
    }
}

/// The sixteen lowercase hexadecimal digits, in order of their value.
pub open spec fn hex_alphabet() -> Seq<char> {
    seq!['0', '1', '2', '3', '4', '5', '6', '7', '8', '9', 'a', 'b', 'c', 'd', 'e', 'f']
}

/// The lowercase hexadecimal digit that stands for a value below sixteen.
pub open spec fn spec_hex_digit(n: int) -> char
    recommends
        0 <= n < 16,
{
    hex_alphabet()[n]
}

/// A byte is shown as itself when it is a graphic ASCII character or a space.
pub open spec fn spec_is_printable(b: u8) -> bool {
    0x20 <= b <= 0x7e
}

/// The character that stands for a byte in the ASCII column.
pub open spec fn spec_ascii_char(b: u8) -> char {
    if spec_is_printable(b) {
        b as char
    } else {
        '.'
    }
}

/// The ASCII column: one character per byte.
pub open spec fn ascii_repr(bytes: Seq<u8>) -> Seq<char> {
    Seq::new(bytes.len(), |i: int| spec_ascii_char(bytes[i]))
}

/// What the byte at position `index` adds to the hexadecimal column: its two
/// digits, a space, and one more space where it closes a group of eight.
pub open spec fn hex_cell(b: u8, index: int) -> Seq<char> {
    let digits = seq![spec_hex_digit(b as int / 16), spec_hex_digit(b as int % 16), ' '];
    if (index + 1) % 8 == 0 {
        digits.push(' ')
    } else {
        digits
    }
}

/// The hexadecimal column: the cells of all bytes, in order.
pub open spec fn hex_repr(bytes: Seq<u8>) -> Seq<char>
    decreases bytes.len(),
{
    if bytes.len() == 0 {
        Seq::empty()
    } else {
        hex_repr(bytes.drop_last()) + hex_cell(bytes.last(), bytes.len() - 1)
    }
}

/// The record that a run of bytes is rendered as.
pub open spec fn record_of(bytes: Seq<u8>) -> RecordView {
    RecordView { hex_repr: hex_repr(bytes), ascii_repr: ascii_repr(bytes) }
}

/// The ASCII column has exactly one character for each byte.
pub proof fn lemma_ascii_repr_len(bytes: Seq<u8>)
    ensures
        ascii_repr(bytes).len() == bytes.len(),
        record_of(bytes).ascii_repr.len() == bytes.len(),
{
}

/// A single byte is shown as itself when it is printable or a space, and as a
/// dot otherwise.
pub proof fn lemma_ascii_repr_single(x: u8)
    ensures
        ascii_repr(seq![x]) == seq![spec_ascii_char(x)],
        spec_ascii_char(x) == if 0x21 <= x <= 0x7e || x == 0x20 {
            x as char
        } else {
            '.'
        },
{
    assert(ascii_repr(seq![x]) =~= seq![spec_ascii_char(x)]);
}

/// The hexadecimal column holds three characters for each byte and one more
/// for each full group of eight.
pub proof fn lemma_hex_repr_len(bytes: Seq<u8>)
    ensures
        hex_repr(bytes).len() == 3 * bytes.len() + bytes.len() / 8,
    decreases bytes.len(),
{
    if bytes.len() > 0 {
        lemma_hex_repr_len(bytes.drop_last());
    }
}

/// Both columns of the empty run are empty.
pub proof fn lemma_record_of_empty()
    ensures
        record_of(Seq::<u8>::empty()).hex_repr == Seq::<char>::empty(),
        record_of(Seq::<u8>::empty()).ascii_repr == Seq::<char>::empty(),
{
    assert(ascii_repr(Seq::<u8>::empty()) =~= Seq::<char>::empty());
}

/// The lowercase hexadecimal digit for a value below sixteen.
pub fn hex_digit(n: u8) -> (c: char)
    requires
        n < 16,
    ensures
        c == spec_hex_digit(n as int),
{
    if n < 10 {
        (48u8 + n) as char
    } else {
        (87u8 + n) as char
    }
}

/// Whether a byte is shown as itself in the ASCII column.
pub fn is_printable(b: u8) -> (r: bool)
    ensures
        r == spec_is_printable(b),
{
    0x20 <= b && b <= 0x7e
}

/// The character that stands for a byte in the ASCII column.
pub fn ascii_char(b: u8) -> (c: char)
    ensures
        c == spec_ascii_char(b),
{
    if is_printable(b) {
        b as char
    } else {
        '.'
    }
}

/// Renders a run of bytes as its hexadecimal and ASCII columns.
pub fn format_bytes(bytes: &[u8]) -> (record: DumpRecord)
    ensures
        record@ == record_of(bytes@),
        record.ascii_repr@.len() == bytes@.len(),
{
    let mut hex = String::new();
    let mut ascii = String::new();
    let mut i: usize = 0;
    while i < bytes.len()
        invariant
            i <= bytes.len(),
            hex@ == hex_repr(bytes@.take(i as int)),
            ascii@ == ascii_repr(bytes@.take(i as int)),
        decreases bytes.len() - i,
    {
        let b = bytes[i];
        proof {
            assert(bytes@.take(i + 1).drop_last() =~= bytes@.take(i as int));
            assert(bytes@.take(i + 1).last() == b);
            assert(ascii_repr(bytes@.take(i + 1)) =~= ascii_repr(bytes@.take(i as int)).push(
                spec_ascii_char(b),
            ));
        }
        hex.push(hex_digit(b / 16));
        hex.push(hex_digit(b % 16));
        hex.push(' ');
        if (i + 1) % 8 == 0 {
            hex.push(' ');
        }
        ascii.push(ascii_char(b));
        assert(hex@ =~= hex_repr(bytes@.take(i as int)) + hex_cell(b, i as int));
        i += 1;
    }
    assert(bytes@.take(i as int) =~= bytes@);
    DumpRecord { hex_repr: hex, ascii_repr: ascii }
}

} // verus!
