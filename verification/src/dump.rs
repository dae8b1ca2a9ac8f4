//! The dump of a whole input: its blocks, the table they fill, and the lines
//! printed from it.

use crate::chunk::{
    chunk_entries, count_pieces, lemma_chunk_entries_within, lemma_piece_count_zero, lemma_piece_index,
    lemma_piece_len, lemma_piece_start, offsets_fit, piece, piece_count, process_chunk, rows_fit, DumpConfig,
};
use crate::format::{record_of, RecordView};
use crate::line::{format_line, line_of};
use crate::table::{
    ascending, distinct_offsets, entries_view, insert_all, lemma_ascending_distinct,
    lemma_insert_all_concat, lemma_insert_order_irrelevant, lemma_lists_append,
    lemma_listing_is_ordered_entries, lists, ordered_entries, ResultTable,
};
use vstd::prelude::*;
use vstd::slice::slice_to_vec;

verus! {

/// A run of bytes that was read in one piece, with the position of its first
/// byte in the input.
#[derive(Debug, PartialEq, Eq)]
pub struct ByteBlock {
    pub start_offset: usize,
    pub bytes: Vec<u8>,
}

/// The position in the input at which the `b`-th block starts.
pub open spec fn block_start(config: DumpConfig, b: int) -> int {
    b * config.file_chunk_size
}

/// The bytes of the `b`-th block of the input.
pub open spec fn block_bytes(data: Seq<u8>, config: DumpConfig, b: int) -> Seq<u8> {
    piece(data, config.file_chunk_size as nat, b)
}

/// The number of blocks that the input is read in.
pub open spec fn spec_block_count(len: nat, config: DumpConfig) -> nat {
    piece_count(len, config.file_chunk_size as nat)
}

/// The rows of the `b`-th block of the input with their offsets.
pub open spec fn block_entries(data: Seq<u8>, config: DumpConfig, b: int) -> Seq<
    (usize, RecordView),
> {
    chunk_entries(
        block_start(config, b) as usize,
        block_bytes(data, config, b),
        config.split_chunk_size as nat,
        config.offset_stride as nat,
    )
}

/// The table after the first `n` blocks of the input have been filed, one
/// after another.
pub open spec fn table_after_blocks(data: Seq<u8>, config: DumpConfig, n: nat) -> Map<
    usize,
    RecordView,
>
    decreases n,
{
    if n == 0 {
        Map::empty()
    } else {
        insert_all(
            table_after_blocks(data, config, (n - 1) as nat),
            block_entries(data, config, n - 1),
        )
    }
}

/// The table once every block of the input has been filed.
pub open spec fn dump_table(data: Seq<u8>, config: DumpConfig) -> Map<usize, RecordView> {
    table_after_blocks(data, config, spec_block_count(data.len(), config))
}

/// Whether the offsets of all rows of all blocks are machine integers.
pub open spec fn dump_fits(data: Seq<u8>, config: DumpConfig) -> bool {
    forall|b: int|
        0 <= b < spec_block_count(data.len(), config) ==> offsets_fit(
            block_start(config, b) as usize,
            (#[trigger] block_bytes(data, config, b)).len(),
            config.split_chunk_size as nat,
            config.offset_stride as nat,
        )
}

/// The lines printed for a list of entries, one for each.
pub open spec fn lines_of(entries: Seq<(usize, RecordView)>) -> Seq<Seq<char>> {
    entries.map_values(|e: (usize, RecordView)| line_of(e.0 as nat, e.1))
}

/// The lines printed for the input, in ascending order of offset.
pub open spec fn dump_lines(data: Seq<u8>, config: DumpConfig) -> Seq<Seq<char>> {
    lines_of(ordered_entries(dump_table(data, config)))
}

/// The mathematical content of a list of strings.
pub open spec fn lines_view(lines: Seq<String>) -> Seq<Seq<char>> {
    lines.map_values(|s: String| s@)
}

/// The rows of the first `n` blocks of the input, block after block and row
/// after row.
pub open spec fn entries_up_to(data: Seq<u8>, config: DumpConfig, n: nat) -> Seq<
    (usize, RecordView),
>
    decreases n,
{
    if n == 0 {
        Seq::empty()
    } else {
        entries_up_to(data, config, (n - 1) as nat) + block_entries(data, config, n - 1)
    }
}

/// All rows of the input in the order of its bytes.
pub open spec fn dump_entries(data: Seq<u8>, config: DumpConfig) -> Seq<(usize, RecordView)> {
    entries_up_to(data, config, spec_block_count(data.len(), config))
}

/// The position in the input at which the first `n` blocks end.
pub open spec fn blocks_end(data: Seq<u8>, config: DumpConfig, n: nat) -> int {
    if n * config.file_chunk_size < data.len() {
        n * config.file_chunk_size
    } else {
        data.len() as int
    }
}

/// Where a block starts and ends in the input.
pub proof fn lemma_block_bounds(data: Seq<u8>, config: DumpConfig, b: int)
    requires
        config.wf(),
        0 <= b < spec_block_count(data.len(), config),
    ensures
        block_start(config, b) == blocks_end(data, config, b as nat),
        block_start(config, b) + block_bytes(data, config, b).len() == blocks_end(
            data,
            config,
            (b + 1) as nat,
        ),
        block_bytes(data, config, b).len() > 0,
        block_bytes(data, config, b) == data.subrange(
            block_start(config, b),
            blocks_end(data, config, (b + 1) as nat),
        ),
        blocks_end(data, config, (b + 1) as nat) <= data.len(),
{
    let size = config.file_chunk_size as nat;
    lemma_piece_start(data.len(), size, b);
    lemma_piece_len(data, size, b);
    lemma_piece_index(data.len(), size, b as nat);
}

/// Where the stride is at least one and at most the width of a row, the rows
/// of the first `n` blocks, in the order of the bytes, are the ascending
/// listing of the table that these blocks fill, and their offsets lie before
/// the end of these blocks.
pub proof fn lemma_blocks_listing(data: Seq<u8>, config: DumpConfig, n: nat)
    requires
        config.wf(),
        1 <= config.offset_stride <= config.split_chunk_size,
        data.len() <= usize::MAX,
        n <= spec_block_count(data.len(), config),
    ensures
        lists(entries_up_to(data, config, n), table_after_blocks(data, config, n)),
        forall|i: int|
            0 <= i < entries_up_to(data, config, n).len() ==> (#[trigger] entries_up_to(
                data,
                config,
                n,
            )[i]).0 < blocks_end(data, config, n),
    decreases n,
{
    if n == 0 {
        assert(lists(Seq::<(usize, RecordView)>::empty(), Map::<usize, RecordView>::empty()));
    } else {
        let b = (n - 1) as nat;
        let earlier = entries_up_to(data, config, b);
        let rows = block_entries(data, config, b as int);
        let start = block_start(config, b as int) as usize;
        let bytes = block_bytes(data, config, b as int);
        lemma_blocks_listing(data, config, b);
        lemma_block_bounds(data, config, b as int);
        lemma_chunk_entries_within(
            start,
            bytes,
            config.split_chunk_size as nat,
            config.offset_stride as nat,
        );
        lemma_lists_append(earlier, table_after_blocks(data, config, b), rows);
        let all = entries_up_to(data, config, n);
        assert forall|i: int| 0 <= i < all.len() implies (#[trigger] all[i]).0 < blocks_end(
            data,
            config,
            n,
        ) by {
            if i < earlier.len() {
                assert(all[i] == earlier[i]);
            } else {
                assert(all[i] == rows[i - earlier.len()]);
            }
        }
    }
}

/// Where the stride is at least one and at most the width of a row, every
/// offset is a machine integer and the lines come out in the order of the
/// input, one for each row of each block.
pub proof fn lemma_dump_in_input_order(data: Seq<u8>, config: DumpConfig)
    requires
        config.wf(),
        1 <= config.offset_stride <= config.split_chunk_size,
        data.len() <= usize::MAX,
    ensures
        dump_fits(data, config),
        lists(dump_entries(data, config), dump_table(data, config)),
        ordered_entries(dump_table(data, config)) == dump_entries(data, config),
        dump_lines(data, config) == lines_of(dump_entries(data, config)),
{
    lemma_blocks_listing(data, config, spec_block_count(data.len(), config));
    lemma_listing_is_ordered_entries(dump_entries(data, config), dump_table(data, config));
    assert forall|b: int| 0 <= b < spec_block_count(data.len(), config) implies offsets_fit(
        block_start(config, b) as usize,
        (#[trigger] block_bytes(data, config, b)).len(),
        config.split_chunk_size as nat,
        config.offset_stride as nat,
    ) by {
        lemma_block_bounds(data, config, b);
        lemma_chunk_entries_within(
            block_start(config, b) as usize,
            block_bytes(data, config, b),
            config.split_chunk_size as nat,
            config.offset_stride as nat,
        );
    }
}

/// The table that the first `n` blocks fill is what comes of putting their
/// rows, in the order of the bytes, into an empty table.
pub proof fn lemma_table_after_blocks(data: Seq<u8>, config: DumpConfig, n: nat)
    ensures
        table_after_blocks(data, config, n) == insert_all(
            Map::empty(),
            entries_up_to(data, config, n),
        ),
    decreases n,
{
    if n > 0 {
        lemma_table_after_blocks(data, config, (n - 1) as nat);
        lemma_insert_all_concat(
            Map::empty(),
            entries_up_to(data, config, (n - 1) as nat),
            block_entries(data, config, n - 1),
        );
    }
}

/// Where the stride is at least one and at most the width of a row, the rows
/// may arrive at the table in any order, as they do when the blocks are
/// formatted side by side: the table is the same, and so is what is printed.
pub proof fn lemma_any_arrival_order(
    data: Seq<u8>,
    config: DumpConfig,
    arrivals: Seq<(usize, RecordView)>,
)
    requires
        config.wf(),
        1 <= config.offset_stride <= config.split_chunk_size,
        data.len() <= usize::MAX,
        distinct_offsets(arrivals),
        forall|e: (usize, RecordView)|
            arrivals.contains(e) <==> dump_entries(data, config).contains(e),
    ensures
        insert_all(Map::empty(), arrivals) == dump_table(data, config),
        lines_of(ordered_entries(insert_all(Map::empty(), arrivals))) == dump_lines(data, config),
{
    lemma_dump_in_input_order(data, config);
    lemma_ascending_distinct(dump_entries(data, config));
    lemma_table_after_blocks(data, config, spec_block_count(data.len(), config));
    lemma_insert_order_irrelevant(Map::empty(), arrivals, dump_entries(data, config));
}

/// Two dumps of the same input with the same sizes print the same lines.
pub proof fn lemma_dump_repeatable(
    first: Seq<String>,
    second: Seq<String>,
    data: Seq<u8>,
    config: DumpConfig,
)
    requires
        lines_view(first) == dump_lines(data, config),
        lines_view(second) == dump_lines(data, config),
    ensures
        first.len() == second.len(),
        forall|i: int| 0 <= i < first.len() ==> first[i]@ == second[i]@,
{
    assert(lines_view(first).len() == first.len());
    assert(lines_view(second).len() == second.len());
    assert forall|i: int| 0 <= i < first.len() implies first[i]@ == second[i]@ by {
        assert(lines_view(first)[i] == first[i]@);
        assert(lines_view(second)[i] == second[i]@);
    }
}

/// Where the row after the `i`-th starts, or `end` for the last row.
pub open spec fn row_end(entries: Seq<(usize, RecordView)>, i: int, end: int) -> int {
    if i + 1 < entries.len() {
        entries[i + 1].0 as int
    } else {
        end
    }
}

/// The rows cover the bytes of the input from `start` to `end` without gap or
/// overlap: the first starts at `start`, each starts where the one before it
/// ends, the last ends at `end`, none is empty, and each renders the bytes it
/// spans.
pub open spec fn tiles_from(
    entries: Seq<(usize, RecordView)>,
    data: Seq<u8>,
    start: int,
    end: int,
) -> bool {
    &&& 0 <= start <= end <= data.len()
    &&& entries.len() == 0 ==> start == end
    &&& entries.len() > 0 ==> entries[0].0 == start
    &&& forall|i: int|
        0 <= i < entries.len() ==> {
            &&& entries[i].0 < #[trigger] row_end(entries, i, end)
            &&& entries[i].1 == record_of(
                data.subrange(entries[i].0 as int, row_end(entries, i, end)),
            )
        }
}

/// The rows cover the first `end` bytes of the input without gap or overlap.
pub open spec fn tiles(entries: Seq<(usize, RecordView)>, data: Seq<u8>, end: int) -> bool {
    tiles_from(entries, data, 0, end)
}

/// Rows that cover one stretch of the input, followed by rows that cover the
/// stretch after it, cover both.
pub proof fn lemma_tiles_append(
    first: Seq<(usize, RecordView)>,
    second: Seq<(usize, RecordView)>,
    data: Seq<u8>,
    start: int,
    mid: int,
    end: int,
)
    requires
        tiles_from(first, data, start, mid),
        tiles_from(second, data, mid, end),
    ensures
        tiles_from(first + second, data, start, end),
{
    let all = first + second;
    if second.len() == 0 {
        assert(all =~= first);
    } else {
        if first.len() > 0 {
            assert(all[0] == first[0]);
        } else {
            assert(all[0] == second[0]);
        }
        assert forall|i: int| 0 <= i < all.len() implies {
            &&& all[i].0 < #[trigger] row_end(all, i, end)
            &&& all[i].1 == record_of(data.subrange(all[i].0 as int, row_end(all, i, end)))
        } by {
            if i < first.len() {
                assert(all[i] == first[i]);
                if i + 1 < first.len() {
                    assert(all[i + 1] == first[i + 1]);
                } else {
                    assert(all[i + 1] == second[0]);
                }
                assert(first[i].0 < row_end(first, i, mid));
                assert(row_end(all, i, end) == row_end(first, i, mid));
            } else {
                let r = i - first.len();
                assert(all[i] == second[r]);
                if r + 1 < second.len() {
                    assert(all[i + 1] == second[r + 1]);
                }
                assert(second[r].0 < row_end(second, r, end));
                assert(row_end(all, i, end) == row_end(second, r, end));
            }
        }
    }
}

/// Where each row is filed under the position of its first byte, the rows of
/// a block cover the block without gap or overlap.
pub proof fn lemma_block_tiles(data: Seq<u8>, config: DumpConfig, b: int)
    requires
        config.is_contiguous(),
        data.len() <= usize::MAX,
        0 <= b < spec_block_count(data.len(), config),
    ensures
        tiles_from(
            block_entries(data, config, b),
            data,
            blocks_end(data, config, b as nat),
            blocks_end(data, config, (b + 1) as nat),
        ),
{
    let width = config.split_chunk_size as nat;
    let start = block_start(config, b);
    let bytes = block_bytes(data, config, b);
    let end = blocks_end(data, config, (b + 1) as nat);
    let rows = block_entries(data, config, b);
    let n = piece_count(bytes.len(), width);
    lemma_block_bounds(data, config, b);
    lemma_chunk_entries_within(start as usize, bytes, width, width);
    assert(n > 0) by {
        if n == 0 {
            assert((bytes.len() + width - 1) / (width as int) > 0) by (nonlinear_arith)
                requires
                    bytes.len() > 0,
                    width > 0,
            ;
        }
    }
    assert(rows[0].0 == start) by {
        assert(0 * width == 0) by (nonlinear_arith);
    }
    assert forall|i: int| 0 <= i < rows.len() implies {
        &&& rows[i].0 < #[trigger] row_end(rows, i, end)
        &&& rows[i].1 == record_of(data.subrange(rows[i].0 as int, row_end(rows, i, end)))
    } by {
        lemma_piece_start(bytes.len(), width, i);
        lemma_piece_len(bytes, width, i);
        lemma_piece_index(bytes.len(), width, i as nat);
        let from = i * width;
        let cut = piece(bytes, width, i);
        assert(rows[i].0 == start + from);
        if i + 1 < rows.len() {
            assert(rows[i + 1].0 == start + (i + 1) * width);
            assert(row_end(rows, i, end) == start + from + width);
        } else {
            assert(row_end(rows, i, end) == start + bytes.len());
        }
        assert(cut =~= data.subrange(start + from, row_end(rows, i, end)));
    }
}

/// Where each row is filed under the position of its first byte, the rows of
/// the first `n` blocks cover these blocks without gap or overlap.
pub proof fn lemma_blocks_tile(data: Seq<u8>, config: DumpConfig, n: nat)
    requires
        config.is_contiguous(),
        data.len() <= usize::MAX,
        n <= spec_block_count(data.len(), config),
    ensures
        tiles(entries_up_to(data, config, n), data, blocks_end(data, config, n)),
    decreases n,
{
    if n == 0 {
        assert(0 * config.file_chunk_size == 0) by (nonlinear_arith);
    } else {
        let b = (n - 1) as nat;
        lemma_blocks_tile(data, config, b);
        lemma_block_tiles(data, config, b as int);
        lemma_tiles_append(
            entries_up_to(data, config, b),
            block_entries(data, config, b as int),
            data,
            0,
            blocks_end(data, config, b),
            blocks_end(data, config, n),
        );
    }
}

/// Where each row is filed under the position of its first byte, the lines
/// come out in ascending order of offset and their rows cover every byte of
/// the input exactly once: no gap, no overlap.
pub proof fn lemma_dump_covers_input(data: Seq<u8>, config: DumpConfig)
    requires
        config.is_contiguous(),
        data.len() <= usize::MAX,
    ensures
        dump_fits(data, config),
        ascending(ordered_entries(dump_table(data, config))),
        tiles(ordered_entries(dump_table(data, config)), data, data.len() as int),
        dump_lines(data, config) == lines_of(dump_entries(data, config)),
{
    let n = spec_block_count(data.len(), config);
    let size = config.file_chunk_size as nat;
    lemma_dump_in_input_order(data, config);
    lemma_blocks_tile(data, config, n);
    assert(blocks_end(data, config, n) == data.len()) by {
        assert(n * size >= data.len()) by (nonlinear_arith)
            requires
                size > 0,
                n == (data.len() + size - 1) / (size as int),
        ;
    }
}

/// The number of blocks that an input of `len` bytes is read in.
pub fn block_count(len: usize, config: &DumpConfig) -> (n: usize)
    requires
        config.wf(),
    ensures
        n == spec_block_count(len as nat, *config),
{
    count_pieces(len, config.file_chunk_size)
}

/// Cuts the input into the blocks it is read in: each holds
/// `file_chunk_size` bytes, but for the last, which holds what is left.
pub fn split_blocks(data: &[u8], config: &DumpConfig) -> (blocks: Vec<ByteBlock>)
    requires
        config.wf(),
    ensures
        blocks.len() == spec_block_count(data@.len(), *config),
        forall|b: int|
            0 <= b < blocks.len() ==> (#[trigger] blocks[b]).start_offset == block_start(*config, b)
                && blocks[b].bytes@ == block_bytes(data@, *config, b),
{
    let size = config.file_chunk_size;
    let len = data.len();
    let ghost count = spec_block_count(len as nat, *config);
    let mut blocks: Vec<ByteBlock> = Vec::new();
    let mut pos: usize = 0;
    proof {
        lemma_piece_count_zero(size as nat);
    }
    while pos < len
        invariant
            len == data@.len(),
            size == config.file_chunk_size,
            size > 0,
            count == spec_block_count(len as nat, *config),
            pos <= len,
            blocks.len() <= count,
            pos < len ==> pos == blocks.len() * size,
            pos == len ==> blocks.len() == count,
            forall|b: int|
                0 <= b < blocks.len() ==> (#[trigger] blocks[b]).start_offset == block_start(
                    *config,
                    b,
                ) && blocks[b].bytes@ == block_bytes(data@, *config, b),
        decreases len - pos,
    {
        proof {
            lemma_piece_index(len as nat, size as nat, blocks.len() as nat);
        }
        let end = if len - pos > size {
            pos + size
        } else {
            len
        };
        let bytes = slice_to_vec(&data[pos..end]);
        assert(bytes@ == block_bytes(data@, *config, blocks.len() as int));
        blocks.push(ByteBlock { start_offset: pos, bytes });
        pos = end;
    }
    blocks
}

/// The lines printed for the table: one for each record, in ascending order
/// of offset.
pub fn render_table(table: &ResultTable) -> (lines: Vec<String>)
    ensures
        lines_view(lines@) == lines_of(ordered_entries(table@)),
        lists(ordered_entries(table@), table@),
        table@.dom().finite(),
        lines.len() == table@.dom().len(),
{
    let entries = table.drain_in_order();
    let ghost listed = entries_view(entries@);
    let mut lines: Vec<String> = Vec::new();
    let mut i: usize = 0;
    while i < entries.len()
        invariant
            i <= entries.len(),
            listed == entries_view(entries@),
            lines.len() == i,
            forall|j: int|
                0 <= j < i ==> (#[trigger] lines[j])@ == line_of(listed[j].0 as nat, listed[j].1),
        decreases entries.len() - i,
    {
        let line = format_line(entries[i].0, &entries[i].1);
        lines.push(line);
        i += 1;
    }
    assert(lines_view(lines@) =~= lines_of(listed));
    lines
}

/// The dump of `data`: its blocks are filed in the order in which they are
/// read, and the table is printed in ascending order of offset.
pub fn hexdump(data: &[u8], config: &DumpConfig) -> (lines: Vec<String>)
    requires
        config.wf(),
        dump_fits(data@, *config),
    ensures
        lines_view(lines@) == dump_lines(data@, *config),
        lists(ordered_entries(dump_table(data@, *config)), dump_table(data@, *config)),
        dump_table(data@, *config).dom().finite(),
        lines.len() == dump_table(data@, *config).dom().len(),
{
    let blocks = split_blocks(data, config);
    let mut table = ResultTable::new();
    let mut b: usize = 0;
    while b < blocks.len()
        invariant
            config.wf(),
            dump_fits(data@, *config),
            b <= blocks.len(),
            blocks.len() == spec_block_count(data@.len(), *config),
            forall|k: int|
                0 <= k < blocks.len() ==> (#[trigger] blocks[k]).start_offset == block_start(
                    *config,
                    k,
                ) && blocks[k].bytes@ == block_bytes(data@, *config, k),
            table@ == table_after_blocks(data@, *config, b as nat),
        decreases blocks.len() - b,
    {
        let block = &blocks[b];
        assert(block.bytes@ == block_bytes(data@, *config, b as int));
        process_chunk(&mut table, block.start_offset, block.bytes.as_slice(), config);
        b += 1;
    }
    render_table(&table)
}

/// Whether the offsets of all rows of all blocks of the input are machine integers.
pub fn input_fits(data: &[u8], config: &DumpConfig) -> (fit: bool)
    requires
        config.wf(),
    ensures
        fit == dump_fits(data@, *config),
{
    let size = config.file_chunk_size;
    let len = data.len();
    let ghost count = spec_block_count(len as nat, *config);
    let ghost mut b: int = 0;
    let mut pos: usize = 0;
    proof {
        lemma_piece_count_zero(size as nat);
    }
    while pos < len
        invariant
            config.wf(),
            len == data@.len(),
            size == config.file_chunk_size,
            count == spec_block_count(len as nat, *config),
            pos <= len,
            0 <= b <= count,
            pos < len ==> pos == b * size,
            pos == len ==> b == count,
            forall|k: int|
                0 <= k < b ==> offsets_fit(
                    block_start(*config, k) as usize,
                    (#[trigger] block_bytes(data@, *config, k)).len(),
                    config.split_chunk_size as nat,
                    config.offset_stride as nat,
                ),
        decreases len - pos,
    {
        proof {
            lemma_piece_index(len as nat, size as nat, b as nat);
        }
        let end = if len - pos > size {
            pos + size
        } else {
            len
        };
        assert(data@.subrange(pos as int, end as int) == block_bytes(data@, *config, b));
        if !rows_fit(pos, end - pos, config) {
            return false;
        }
        pos = end;
        proof {
            b = b + 1;
        }
    }
    true
}

/// The dump of `data`, unless the sizes are unusable or an offset would not
/// be a machine integer.
pub fn checked_hexdump(data: &[u8], config: &DumpConfig) -> (outcome: Option<Vec<String>>)
    ensures
        outcome is Some <==> config.wf() && dump_fits(data@, *config),
        outcome matches Some(lines) ==> lines_view(lines@) == dump_lines(data@, *config),
{
    if config.file_chunk_size == 0 || config.split_chunk_size == 0 {
        return None;
    }
    if input_fits(data, config) {
        Some(hexdump(data, config))
    } else {
        None
    }
}

} // verus!
