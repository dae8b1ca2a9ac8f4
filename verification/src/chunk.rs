//! Splitting a block of bytes into rows and filing each row in the table
//! under its offset.

use crate::format::{format_bytes, record_of, DumpRecord, RecordView};
use crate::table::{ascending, entries_view, insert_all, ResultTable};
use vstd::prelude::*;

verus! {

/// The number of bytes asked for in one read.
pub const FILE_CHUNK_SIZE: usize = 4096;

/// The number of bytes shown in one row.
pub const SPLIT_CHUNK_SIZE: usize = 16;

/// The distance between the offsets of two neighbouring rows of a block in the
/// customary layout. It is half the width of a row, so that the offset printed
/// for a row other than the first of its block is not the position of the
/// row's first byte.
pub const OFFSET_STRIDE: usize = 8;

/// The sizes that shape a dump.
#[derive(Clone, Copy, Debug, PartialEq, Eq, Structural)]
pub struct DumpConfig {
    /// The largest number of bytes in one block.
    pub file_chunk_size: usize,
    /// The largest number of bytes in one row.
    pub split_chunk_size: usize,
    /// The distance between the offsets of two neighbouring rows of a block.
    pub offset_stride: usize,
}

impl DumpConfig {
    /// Blocks and rows have room for at least one byte.
    pub open spec fn wf(&self) -> bool {
        self.file_chunk_size > 0 && self.split_chunk_size > 0
    }

    /// Each row is filed under the position of its first byte.
    pub open spec fn is_contiguous(&self) -> bool {
        self.wf() && self.offset_stride == self.split_chunk_size
    }

    /// A configuration of the given sizes, unless a block or a row would be empty.
    pub fn new(file_chunk_size: usize, split_chunk_size: usize, offset_stride: usize) -> (config:
        Option<DumpConfig>)
        ensures
            config == if file_chunk_size > 0 && split_chunk_size > 0 {
                Some(DumpConfig { file_chunk_size, split_chunk_size, offset_stride })
            } else {
                None
            },
            config matches Some(c) ==> c.wf(),
    {
        if file_chunk_size > 0 && split_chunk_size > 0 {
            Some(DumpConfig { file_chunk_size, split_chunk_size, offset_stride })
        } else {
            None
        }
    }

    /// The customary layout: blocks of 4096 bytes, rows of 16 bytes, offsets 8 apart.
    pub fn classic() -> (config: DumpConfig)
        ensures
            config == (DumpConfig {
                file_chunk_size: 4096,
                split_chunk_size: 16,
                offset_stride: 8,
            }),
            config.wf(),
    {
        DumpConfig {
            file_chunk_size: FILE_CHUNK_SIZE,
            split_chunk_size: SPLIT_CHUNK_SIZE,
            offset_stride: OFFSET_STRIDE,
        }
    }

    /// A layout in which each row is filed under the position of its first byte.
    pub fn contiguous(file_chunk_size: usize, split_chunk_size: usize) -> (config: Option<
        DumpConfig,
    >)
        ensures
            config == if file_chunk_size > 0 && split_chunk_size > 0 {
                Some(
                    DumpConfig {
                        file_chunk_size,
                        split_chunk_size,
                        offset_stride: split_chunk_size,
                    },
                )
            } else {
                None
            },
            config matches Some(c) ==> c.is_contiguous(),
    {
        DumpConfig::new(file_chunk_size, split_chunk_size, split_chunk_size)
    }
}

/// How many pieces of at most `width` items it takes to hold `len` items.
pub open spec fn piece_count(len: nat, width: nat) -> nat {
    if width == 0 {
        0
    } else {
        ((len + width - 1) / (width as int)) as nat
    }
}

/// The `i`-th piece of `bytes` when it is cut into pieces of `width` bytes;
/// only the last piece may be shorter.
pub open spec fn piece(bytes: Seq<u8>, width: nat, i: int) -> Seq<u8> {
    let from = i * width;
    let to = if from + width < bytes.len() {
        from + width
    } else {
        bytes.len() as int
    };
    bytes.subrange(from, to)
}

/// The offset under which the `i`-th row of a block is filed.
pub open spec fn row_offset(start: usize, stride: nat, i: int) -> int {
    start + i * stride
}

/// Whether the offsets of all rows of a block are machine integers.
pub open spec fn offsets_fit(start: usize, len: nat, width: nat, stride: nat) -> bool {
    piece_count(len, width) > 0 ==> row_offset(start, stride, piece_count(len, width) - 1)
        <= usize::MAX
}

/// The rows of a block with their offsets, in the order of the bytes.
pub open spec fn chunk_entries(start: usize, bytes: Seq<u8>, width: nat, stride: nat) -> Seq<
    (usize, RecordView),
> {
    Seq::new(
        piece_count(bytes.len(), width),
        |i: int| (row_offset(start, stride, i) as usize, record_of(piece(bytes, width, i))),
    )
}

/// The piece that starts at `i * width` is one of the pieces, and it is the
/// last one exactly when it reaches the end.
pub proof fn lemma_piece_index(len: nat, width: nat, i: nat)
    requires
        width > 0,
        i * width < len,
    ensures
        i < piece_count(len, width),
        len <= (i + 1) * width <==> i + 1 == piece_count(len, width),
        (i + 1) * width == i * width + width,
{
    let n = piece_count(len, width);
    assert((i + 1) * width == i * width + width) by (nonlinear_arith);
    assert(n * width <= len + width - 1 < n * width + width) by (nonlinear_arith)
        requires
            width > 0,
            n == (len + width - 1) / (width as int),
    ;
    assert(i < n) by (nonlinear_arith)
        requires
            i * width < len,
            len + width - 1 < n * width + width,
            width > 0,
    ;
    if len <= (i + 1) * width {
        assert(n <= i + 1) by (nonlinear_arith)
            requires
                n * width <= len + width - 1,
                len <= (i + 1) * width,
                width > 0,
        ;
    }
    if i + 1 == n {
        assert(len <= (i + 1) * width) by (nonlinear_arith)
            requires
                len + width - 1 < n * width + width,
                i + 1 == n,
                width > 0,
        ;
    }
}

/// Each piece starts before the end of what is cut.
pub proof fn lemma_piece_start(len: nat, width: nat, i: int)
    requires
        width > 0,
        0 <= i < piece_count(len, width),
    ensures
        i * width < len,
        piece_count(len, width) <= len,
{
    let n = piece_count(len, width);
    assert(n * width <= len + width - 1) by (nonlinear_arith)
        requires
            width > 0,
            n == (len + width - 1) / (width as int),
    ;
    assert(i * width < len) by (nonlinear_arith)
        requires
            n * width <= len + width - 1,
            0 <= i < n,
            width > 0,
    ;
    assert(n <= len) by (nonlinear_arith)
        requires
            n * width <= len + width - 1,
            n > 0,
            width > 0,
    ;
}

/// The length of a piece: `width`, but for the last, which holds what is left.
pub proof fn lemma_piece_len(bytes: Seq<u8>, width: nat, i: int)
    requires
        width > 0,
        0 <= i < piece_count(bytes.len(), width),
    ensures
        0 < piece(bytes, width, i).len() <= width,
        piece(bytes, width, i).len() == if i + 1 < piece_count(bytes.len(), width) {
            width as int
        } else {
            bytes.len() - i * width
        },
        i * width + piece(bytes, width, i).len() <= bytes.len(),
{
    lemma_piece_start(bytes.len(), width, i);
    lemma_piece_index(bytes.len(), width, i as nat);
}

/// Where the stride is at least one and at most the width of a row, the rows
/// of a block have offsets that are machine integers, ascend, and lie within
/// the block.
pub proof fn lemma_chunk_entries_within(start: usize, bytes: Seq<u8>, width: nat, stride: nat)
    requires
        1 <= stride <= width,
        start + bytes.len() <= usize::MAX,
    ensures
        offsets_fit(start, bytes.len(), width, stride),
        ascending(chunk_entries(start, bytes, width, stride)),
        forall|i: int|
            0 <= i < chunk_entries(start, bytes, width, stride).len() ==> start <= (
            #[trigger] chunk_entries(start, bytes, width, stride)[i]).0 < start + bytes.len(),
{
    let entries = chunk_entries(start, bytes, width, stride);
    let n = piece_count(bytes.len(), width);
    assert forall|i: int| 0 <= i < n implies start <= #[trigger] row_offset(start, stride, i)
        < start + bytes.len() by {
        lemma_piece_start(bytes.len(), width, i);
        assert(0 <= i * stride <= i * width) by (nonlinear_arith)
            requires
                0 <= i,
                0 <= stride <= width,
        ;
    }
    assert forall|i: int| 0 <= i < entries.len() implies start <= (#[trigger] entries[i]).0 < start
        + bytes.len() by {
        assert(start <= row_offset(start, stride, i) < start + bytes.len());
    }
    assert forall|i: int, j: int| 0 <= i < j < entries.len() implies entries[i].0
        < entries[j].0 by {
        assert(start <= row_offset(start, stride, i) < start + bytes.len());
        assert(start <= row_offset(start, stride, j) < start + bytes.len());
        lemma_row_offset_grows(start, stride, i, j);
    }
    if n > 0 {
        assert(start <= row_offset(start, stride, n - 1) < start + bytes.len());
    }
}

/// The offsets of the rows of a block grow with the rows.
pub proof fn lemma_row_offset_grows(start: usize, stride: nat, i: int, j: int)
    requires
        0 <= i <= j,
    ensures
        row_offset(start, stride, i) <= row_offset(start, stride, j),
        row_offset(start, stride, i + 1) == row_offset(start, stride, i) + stride,
        stride > 0 && i < j ==> row_offset(start, stride, i) < row_offset(start, stride, j),
{
    assert(i * stride <= j * stride) by (nonlinear_arith)
        requires
            0 <= i <= j,
    ;
    assert((i + 1) * stride == i * stride + stride) by (nonlinear_arith);
    if stride > 0 && i < j {
        assert(i * stride < j * stride) by (nonlinear_arith)
            requires
                0 <= i < j,
                stride > 0,
        ;
    }
}

/// Nothing is cut from nothing.
pub proof fn lemma_piece_count_zero(width: nat)
    ensures
        piece_count(0, width) == 0,
{
    if width > 0 {
        assert((0 + width - 1) / (width as int) == 0) by (nonlinear_arith)
            requires
                width > 0,
        ;
    }
}

/// How many pieces of at most `width` items it takes to hold `len` items.
pub fn count_pieces(len: usize, width: usize) -> (n: usize)
    requires
        width > 0,
    ensures
        n == piece_count(len as nat, width as nat),
{
    let full = len / width;
    proof {
        let l = len as int;
        let w = width as int;
        assert(piece_count(len as nat, width as nat) == if l % w == 0 {
            l / w
        } else {
            l / w + 1
        }) by (nonlinear_arith)
            requires
                w > 0,
                l >= 0,
                piece_count(len as nat, width as nat) == (l + w - 1) / w,
        ;
        assert(l % w != 0 ==> l / w < l) by (nonlinear_arith)
            requires
                w > 0,
                l >= 0,
        ;
    }
    if len % width == 0 {
        full
    } else {
        full + 1
    }
}

/// Whether the offsets of all rows of a block of `len` bytes that starts at
/// `offset_start` are machine integers.
pub fn rows_fit(offset_start: usize, len: usize, config: &DumpConfig) -> (fit: bool)
    requires
        config.wf(),
    ensures
        fit == offsets_fit(
            offset_start,
            len as nat,
            config.split_chunk_size as nat,
            config.offset_stride as nat,
        ),
{
    let rows = count_pieces(len, config.split_chunk_size);
    if rows == 0 {
        return true;
    }
    match (rows - 1).checked_mul(config.offset_stride) {
        None => false,
        Some(span) => offset_start.checked_add(span).is_some(),
    }
}

/// Formats one row and files it under `offset_start`, in place of whatever
/// stood there.
pub fn process_small_chunks(table: &mut ResultTable, offset_start: usize, chunk: &[u8])
    ensures
        final(table)@ == old(table)@.insert(offset_start, record_of(chunk@)),
{
    let record = format_bytes(chunk);
    table.insert(offset_start, record);
}

/// Cuts a block into rows, formats each, and files the `i`-th of them under
/// `offset_start + i * offset_stride`.
pub fn process_chunk(
    table: &mut ResultTable,
    offset_start: usize,
    chunk: &[u8],
    config: &DumpConfig,
)
    requires
        config.wf(),
        offsets_fit(
            offset_start,
            chunk@.len(),
            config.split_chunk_size as nat,
            config.offset_stride as nat,
        ),
    ensures
        final(table)@ == insert_all(
            old(table)@,
            chunk_entries(
                offset_start,
                chunk@,
                config.split_chunk_size as nat,
                config.offset_stride as nat,
            ),
        ),
{
    let width = config.split_chunk_size;
    let stride = config.offset_stride;
    let len = chunk.len();
    let ghost before = table@;
    let ghost entries = chunk_entries(offset_start, chunk@, width as nat, stride as nat);
    let ghost count = piece_count(len as nat, width as nat);
    let ghost mut i: int = 0;
    let mut pos: usize = 0;
    let mut offset = offset_start;
    proof {
        lemma_piece_count_zero(width as nat);
        assert(entries.take(0) =~= Seq::<(usize, RecordView)>::empty());
    }
    while pos < len
        invariant
            len == chunk@.len(),
            width == config.split_chunk_size,
            stride == config.offset_stride,
            width > 0,
            entries == chunk_entries(offset_start, chunk@, width as nat, stride as nat),
            count == piece_count(len as nat, width as nat),
            offsets_fit(offset_start, len as nat, width as nat, stride as nat),
            pos <= len,
            0 <= i <= count,
            pos < len ==> pos == i * width && offset == row_offset(offset_start, stride as nat, i),
            pos == len ==> i == count,
            table@ == insert_all(before, entries.take(i)),
        decreases len - pos,
    {
        proof {
            lemma_piece_index(len as nat, width as nat, i as nat);
        }
        let end = if len - pos > width {
            pos + width
        } else {
            len
        };
        process_small_chunks(table, offset, &chunk[pos..end]);
        proof {
            assert(chunk@.subrange(pos as int, end as int) == piece(chunk@, width as nat, i));
            assert(entries.take(i + 1).drop_last() =~= entries.take(i));
            assert(entries.take(i + 1).last() == entries[i]);
        }
        pos = end;
        if pos < len {
            proof {
                lemma_piece_index(len as nat, width as nat, (i + 1) as nat);
                lemma_row_offset_grows(offset_start, stride as nat, i, count - 1);
                lemma_row_offset_grows(offset_start, stride as nat, i + 1, count - 1);
            }
            offset = offset + stride;
        }
        proof {
            i = i + 1;
        }
    }
    assert(entries.take(i) =~= entries);
}

/// Cuts a block into rows and formats each, without filing them: the `i`-th
/// comes with the offset `offset_start + i * offset_stride`.
pub fn format_chunk(offset_start: usize, chunk: &[u8], config: &DumpConfig) -> (out: Vec<
    (usize, DumpRecord),
>)
    requires
        config.wf(),
        offsets_fit(
            offset_start,
            chunk@.len(),
            config.split_chunk_size as nat,
            config.offset_stride as nat,
        ),
    ensures
        entries_view(out@) == chunk_entries(
            offset_start,
            chunk@,
            config.split_chunk_size as nat,
            config.offset_stride as nat,
        ),
{
    let width = config.split_chunk_size;
    let stride = config.offset_stride;
    let len = chunk.len();
    let ghost entries = chunk_entries(offset_start, chunk@, width as nat, stride as nat);
    let ghost count = piece_count(len as nat, width as nat);
    let ghost mut i: int = 0;
    let mut out: Vec<(usize, DumpRecord)> = Vec::new();
    let mut pos: usize = 0;
    let mut offset = offset_start;
    proof {
        lemma_piece_count_zero(width as nat);
        assert(entries_view(out@) =~= entries.take(0));
    }
    while pos < len
        invariant
            len == chunk@.len(),
            width == config.split_chunk_size,
            stride == config.offset_stride,
            width > 0,
            entries == chunk_entries(offset_start, chunk@, width as nat, stride as nat),
            count == piece_count(len as nat, width as nat),
            offsets_fit(offset_start, len as nat, width as nat, stride as nat),
            pos <= len,
            0 <= i <= count,
            pos < len ==> pos == i * width && offset == row_offset(offset_start, stride as nat, i),
            pos == len ==> i == count,
            entries_view(out@) == entries.take(i),
        decreases len - pos,
    {
        proof {
            lemma_piece_index(len as nat, width as nat, i as nat);
        }
        let end = if len - pos > width {
            pos + width
        } else {
            len
        };
        let ghost earlier = out@;
        let record = format_bytes(&chunk[pos..end]);
        out.push((offset, record));
        proof {
            assert(chunk@.subrange(pos as int, end as int) == piece(chunk@, width as nat, i));
            assert(entries_view(out@) =~= entries_view(earlier).push(entries[i]));
            assert(entries.take(i + 1) =~= entries.take(i).push(entries[i]));
        }
        pos = end;
        if pos < len {
            proof {
                lemma_piece_index(len as nat, width as nat, (i + 1) as nat);
                lemma_row_offset_grows(offset_start, stride as nat, i, count - 1);
                lemma_row_offset_grows(offset_start, stride as nat, i + 1, count - 1);
            }
            offset = offset + stride;
        }
        proof {
            i = i + 1;
        }
    }
    assert(entries.take(i) =~= entries);
    out
}

} // verus!
