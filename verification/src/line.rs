//! The printed form of one record: a zero-padded hexadecimal offset, the
//! hexadecimal column and the ASCII column.

use crate::format::{hex_digit, spec_hex_digit, DumpRecord, RecordView};
use vstd::prelude::*;
use vstd::string::StringExecFns;

verus! {

/// The digits of `n` in lowercase hexadecimal, most significant first, with
/// zeros in front where there would be fewer than `width` of them.
pub open spec fn padded_hex(n: nat, width: nat) -> Seq<char>
    decreases n, width,
{
    if n < 16 && width <= 1 {
        seq![spec_hex_digit(n as int)]
    } else {
        padded_hex(
            n / 16,
            if width > 0 {
                (width - 1) as nat
            } else {
                0
            },
        ).push(spec_hex_digit((n % 16) as int))
    }
}

/// How many hexadecimal digits it takes to write `n`.
pub open spec fn hex_digit_count(n: nat) -> nat
    decreases n,
{
    if n < 16 {
        1
    } else {
        1 + hex_digit_count(n / 16)
    }
}

/// The value of a lowercase hexadecimal digit.
pub open spec fn hex_digit_value(c: char) -> nat {
    if '0' <= c <= '9' {
        (c as u32 - '0' as u32) as nat
    } else {
        (c as u32 - 'a' as u32 + 10) as nat
    }
}

/// The number that a sequence of hexadecimal digits writes, most significant first.
pub open spec fn hex_value(digits: Seq<char>) -> nat
    decreases digits.len(),
{
    if digits.len() == 0 {
        0
    } else {
        hex_value(digits.drop_last()) * 16 + hex_digit_value(digits.last())
    }
}

/// The width of the offset column.
pub open spec fn spec_offset_width() -> nat {
    8
}

/// The leading column of a line: the offset in at least eight hexadecimal digits.
pub open spec fn offset_label(offset: nat) -> Seq<char> {
    padded_hex(offset, spec_offset_width())
}

/// One printed line, without its line end.
pub open spec fn line_of(offset: nat, record: RecordView) -> Seq<char> {
    offset_label(offset) + seq![':', ' '] + record.hex_repr + seq![' ', '|', ' ']
        + record.ascii_repr
}

/// A padded number has as many digits as it needs, and never fewer than asked for.
pub proof fn lemma_padded_hex_len(n: nat, width: nat)
    ensures
        padded_hex(n, width).len() == if width > hex_digit_count(n) {
            width
        } else {
            hex_digit_count(n)
        },
    decreases n, width,
{
    if !(n < 16 && width <= 1) {
        lemma_padded_hex_len(
            n / 16,
            if width > 0 {
                (width - 1) as nat
            } else {
                0
            },
        );
    }
}

/// Reading the digits of a padded number back gives the number.
pub proof fn lemma_padded_hex_value(n: nat, width: nat)
    ensures
        hex_value(padded_hex(n, width)) == n,
    decreases n, width,
{
    let last = spec_hex_digit((n % 16) as int);
    assert(hex_digit_value(last) == n % 16) by {
        lemma_hex_digit_value((n % 16) as int);
    }
    if n < 16 && width <= 1 {
        assert(seq![last].drop_last() =~= Seq::<char>::empty());
        assert(hex_value(seq![last].drop_last()) == 0);
    } else {
        let rest = padded_hex(
            n / 16,
            if width > 0 {
                (width - 1) as nat
            } else {
                0
            },
        );
        lemma_padded_hex_value(
            n / 16,
            if width > 0 {
                (width - 1) as nat
            } else {
                0
            },
        );
        assert(rest.push(last).drop_last() =~= rest);
    }
}

/// Each hexadecimal digit stands for its own position in the alphabet.
pub proof fn lemma_hex_digit_value(v: int)
    requires
        0 <= v < 16,
    ensures
        hex_digit_value(spec_hex_digit(v)) == v,
{
}

/// Appends `n` in lowercase hexadecimal, in at least `width` digits.
pub fn push_padded_hex(out: &mut String, n: usize, width: usize)
    ensures
        final(out)@ == old(out)@ + padded_hex(n as nat, width as nat),
    decreases n, width,
{
    if n < 16 && width <= 1 {
        out.push(hex_digit(n as u8));
    } else {
        let rest_width: usize = if width > 0 {
            width - 1
        } else {
            0
        };
        push_padded_hex(out, n / 16, rest_width);
        out.push(hex_digit((n % 16) as u8));
    }
    assert(out@ =~= old(out)@ + padded_hex(n as nat, width as nat));
}

/// Renders one record as the line printed for it.
pub fn format_line(offset: usize, record: &DumpRecord) -> (line: String)
    ensures
        line@ == line_of(offset as nat, record@),
{
    let mut line = String::new();
    push_padded_hex(&mut line, offset, 8);
    line.push(':');
    line.push(' ');
    line.append(record.hex_repr.as_str());
    line.push(' ');
    line.push('|');
    line.push(' ');
    line.append(record.ascii_repr.as_str());
    assert(line@ =~= line_of(offset as nat, record@));
    line
}

} // verus!
