//! Layout of one line of a hex dump: address, sixteen hex cells and the
//! printable view of the bytes.

use vstd::prelude::*;

verus! {

/// The lowercase hex digit for a value below sixteen.
pub open spec fn hex_digit(d: u8) -> u8 {
    if d < 10 {
        (0x30u8 + d) as u8
    } else {
        (0x61u8 + d - 10) as u8
    }
}

/// Cell `k` of the hex part: two hex digits of the byte, or two spaces past
/// the end of the row; then a space, and one more after the eighth cell.
pub open spec fn hex_cell(row: Seq<u8>, k: int) -> Seq<u8> {
    (if k < row.len() {
        seq![hex_digit(row[k] / 16), hex_digit(row[k] % 16)]
    } else {
        seq![0x20u8, 0x20u8]
    }) + seq![0x20u8] + (if k == 7 {
        seq![0x20u8]
    } else {
        Seq::<u8>::empty()
    })
}

/// The first `k` hex cells.
pub open spec fn hex_cells(row: Seq<u8>, k: nat) -> Seq<u8>
    decreases k,
{
    if k == 0 {
        Seq::<u8>::empty()
    } else {
        hex_cells(row, (k - 1) as nat) + hex_cell(row, k - 1)
    }
}

/// How a byte shows in the text column: itself if printable ASCII, else `.`.
pub open spec fn shown_char(b: u8) -> u8 {
    if 0x20u8 <= b < 0x7fu8 {
        b
    } else {
        0x2eu8
    }
}

/// `n` spaces.
pub open spec fn spaces(n: nat) -> Seq<u8> {
    Seq::new(n, |i: int| 0x20u8)
}

/// The bytes a hex dump line shows: those from `offset` up to sixteen later,
/// or to the end of the data.
pub open spec fn row_of(data: Seq<u8>, offset: int) -> Seq<u8> {
    if offset + 16 <= data.len() {
        data.subrange(offset, offset + 16)
    } else {
        data.subrange(offset, data.len() as int)
    }
}

/// A whole hex dump line for `row`, given the hex digits of its address.
pub open spec fn dump_line(addr: Seq<u8>, row: Seq<u8>) -> Seq<u8> {
    addr + spaces((8 - addr.len()) as nat) + spaces(2) + hex_cells(row, 16) + seq![0x7cu8]
        + row.map_values(|b: u8| shown_char(b)) + seq![0x7cu8, 0x0au8]
}

fn hex_digit_exec(d: u8) -> (r: u8)
    requires
        d < 16,
    ensures
        r == hex_digit(d),
{
    if d < 10 {
        0x30u8 + d
    } else {
        0x61u8 + d - 10
    }
}

/// Formats the hex dump line for the bytes of `data` from `offset`, with
/// `addr` the hex digits of the offset (at most eight, padded to eight).
pub fn hexdump_line(addr: &[u8], data: &[u8], offset: usize) -> (r: Vec<u8>)
    requires
        addr@.len() <= 8,
        offset < data@.len(),
    ensures
        r@ == dump_line(addr@, row_of(data@, offset as int)),
{
    let n = data.len();
    let row_end = if n - offset >= 16 {
        offset + 16
    } else {
        n
    };
    let ghost row = row_of(data@, offset as int);
    assert(row =~= data@.subrange(offset as int, row_end as int));
    let mut line: Vec<u8> = Vec::new();
    let mut p: usize = 0;
    while p < addr.len()
        invariant
            0 <= p <= addr@.len(),
            line@ == addr@.take(p as int),
        decreases addr@.len() - p,
    {
        line.push(addr[p]);
        assert(addr@.take(p + 1) =~= addr@.take(p as int).push(addr@[p as int]));
        p = p + 1;
    }
    assert(addr@.take(addr@.len() as int) =~= addr@);
    while p < 10
        invariant
            addr@.len() <= p <= 10,
            line@ == addr@ + spaces((p - addr@.len()) as nat),
        decreases 10 - p,
    {
        line.push(0x20u8);
        assert(addr@ + spaces((p + 1 - addr@.len()) as nat) =~= (addr@ + spaces(
            (p - addr@.len()) as nat,
        )).push(0x20u8));
        p = p + 1;
    }
    assert(addr@ + spaces((10 - addr@.len()) as nat) =~= addr@ + spaces((8 - addr@.len()) as nat)
        + spaces(2));
    let ghost head = line@;
    let mut k: usize = 0;
    while k < 16
        invariant
            0 <= k <= 16,
            offset < row_end <= n,
            n == data@.len(),
            row_end - offset <= 16,
            row == data@.subrange(offset as int, row_end as int),
            line@ == head + hex_cells(row, k as nat),
        decreases 16 - k,
    {
        let ghost before = line@;
        if k < row_end - offset {
            let b = data[offset + k];
            assert(b >> 4 == b / 16 && b / 16 < 16) by (bit_vector);
            assert(b & 0x0fu8 == b % 16 && b % 16 < 16) by (bit_vector);
            line.push(hex_digit_exec(b >> 4));
            line.push(hex_digit_exec(b & 0x0fu8));
            assert(row[k as int] == b);
        } else {
            line.push(0x20u8);
            line.push(0x20u8);
        }
        line.push(0x20u8);
        if k == 7 {
            line.push(0x20u8);
        }
        assert(line@ =~= before + hex_cell(row, k as int));
        k = k + 1;
    }
    line.push(0x7cu8);
    let ghost mid = line@;
    let mut i: usize = offset;
    while i < row_end
        invariant
            offset <= i <= row_end,
            row_end <= n,
            n == data@.len(),
            row == data@.subrange(offset as int, row_end as int),
            line@ == mid + row.take(i - offset).map_values(|b: u8| shown_char(b)),
        decreases row_end - i,
    {
        let b = data[i];
        let c = if b >= 0x20u8 && b < 0x7fu8 {
            b
        } else {
            0x2eu8
        };
        line.push(c);
        assert(row.take(i + 1 - offset).map_values(|b: u8| shown_char(b)) =~= row.take(
            i - offset,
        ).map_values(|b: u8| shown_char(b)).push(shown_char(b)));
        i = i + 1;
    }
    assert(row.take(row_end - offset) =~= row);
    line.push(0x7cu8);
    line.push(0x0au8);
    assert(line@ =~= dump_line(addr@, row));
    line
}


proof fn lemma_hex_cells_len(row: Seq<u8>, k: nat)
    requires
        k <= 16,
    ensures
        hex_cells(row, k).len() == 3 * k + (if k > 7 {
            1int
        } else {
            0
        }),
    decreases k,
{
    if k > 0 {
        lemma_hex_cells_len(row, (k - 1) as nat);
    }
}

/// Law: every hex dump line has the same layout: 62 bytes plus one per byte
/// shown, the address column eight wide, the text column between bars, and
/// a line feed at the end.
pub proof fn law_dump_line_layout(addr: Seq<u8>, row: Seq<u8>)
    requires
        addr.len() <= 8,
        row.len() <= 16,
    ensures
        dump_line(addr, row).len() == 62 + row.len(),
        dump_line(addr, row).take(addr.len() as int) == addr,
        forall|k: int| addr.len() <= k < 10 ==> #[trigger] dump_line(addr, row)[k] == 0x20u8,
        dump_line(addr, row)[59] == 0x7cu8,
        dump_line(addr, row)[60 + row.len() as int] == 0x7cu8,
        dump_line(addr, row)[61 + row.len() as int] == 0x0au8,
        forall|k: int|
            0 <= k < row.len() ==> #[trigger] dump_line(addr, row)[60 + k] == shown_char(row[k]),
{
    lemma_hex_cells_len(row, 16);
    let line = dump_line(addr, row);
    let head = addr + spaces((8 - addr.len()) as nat) + spaces(2) + hex_cells(row, 16);
    assert(head.len() == 59);
    let text = row.map_values(|b: u8| shown_char(b));
    assert(line =~= head + seq![0x7cu8] + text + seq![0x7cu8, 0x0au8]);
    assert(line.take(addr.len() as int) =~= addr);
    assert forall|k: int| addr.len() <= k < 10 implies #[trigger] line[k] == 0x20u8 by {
        assert(line[k] == head[k]);
    }
    assert forall|k: int| 0 <= k < row.len() implies #[trigger] line[60 + k] == shown_char(row[k]) by {
        assert(line[60 + k] == text[k]);
    }
}


/// The value of a lowercase hex digit; 16 for any byte that is not one.
pub open spec fn hex_digit_value(c: u8) -> int {
    if 0x30u8 <= c <= 0x39u8 {
        c - 0x30
    } else if 0x61u8 <= c <= 0x66u8 {
        c - 0x61 + 10
    } else {
        16
    }
}

/// Where cell `k` starts in a dump line: after the ten columns of address
/// and gap, three columns per cell, one more after the eighth.
pub open spec fn cell_start(k: int) -> int {
    10 + 3 * k + if k > 7 {
        1int
    } else {
        0
    }
}

proof fn lemma_hex_cells_index(row: Seq<u8>, j: nat)
    requires
        j <= 16,
    ensures
        forall|k: int|
            0 <= k < j ==> #[trigger] hex_cells(row, j)[cell_start(k) - 10] == hex_cell(row, k)[0]
                && hex_cells(row, j)[cell_start(k) - 9] == hex_cell(row, k)[1],
    decreases j,
{
    if j > 0 {
        let m = (j - 1) as nat;
        lemma_hex_cells_index(row, m);
        lemma_hex_cells_len(row, m);
        let prev = hex_cells(row, m);
        let cur = hex_cells(row, j);
        assert(cur == prev + hex_cell(row, m as int));
        assert forall|k: int| 0 <= k < j implies #[trigger] cur[cell_start(k) - 10] == hex_cell(
            row,
            k,
        )[0] && cur[cell_start(k) - 9] == hex_cell(row, k)[1] by {
            if k < m {
                assert(cur[cell_start(k) - 10] == prev[cell_start(k) - 10]);
                assert(cur[cell_start(k) - 9] == prev[cell_start(k) - 9]);
            } else {
                assert(cell_start(k) - 10 == prev.len());
            }
        }
    }
}

/// Law: every hex cell of a dump line shows its byte as two lowercase hex
/// digits that read back, high digit first, as that byte; the cells past
/// the end of the row are blank.
pub proof fn law_hex_cells_read_back(addr: Seq<u8>, row: Seq<u8>)
    requires
        addr.len() <= 8,
        row.len() <= 16,
    ensures
        forall|k: int|
            0 <= k < row.len() ==> {
                let hi = dump_line(addr, row)[cell_start(k)];
                let lo = dump_line(addr, row)[cell_start(k) + 1];
                &&& 0 <= hex_digit_value(hi) < 16
                &&& 0 <= hex_digit_value(lo) < 16
                &&& hex_digit_value(hi) * 16 + hex_digit_value(lo) == #[trigger] row[k]
            },
        forall|k: int|
            row.len() <= k < 16 ==> #[trigger] dump_line(addr, row)[cell_start(k)] == 0x20u8
                && dump_line(addr, row)[cell_start(k) + 1] == 0x20u8,
{
    lemma_hex_cells_len(row, 16);
    lemma_hex_cells_index(row, 16);
    let line = dump_line(addr, row);
    let head = addr + spaces((8 - addr.len()) as nat) + spaces(2);
    assert(head.len() == 10);
    let cells = hex_cells(row, 16);
    assert forall|i: int| 0 <= i < cells.len() implies line[10 + i] == #[trigger] cells[i] by {
        assert(line == head + cells + (seq![0x7cu8] + row.map_values(|b: u8| shown_char(b))
            + seq![0x7cu8, 0x0au8]));
    }
    assert forall|k: int| 0 <= k < row.len() implies {
        let hi = line[cell_start(k)];
        let lo = line[cell_start(k) + 1];
        &&& 0 <= hex_digit_value(hi) < 16
        &&& 0 <= hex_digit_value(lo) < 16
        &&& hex_digit_value(hi) * 16 + hex_digit_value(lo) == #[trigger] row[k]
    } by {
        assert(cells[cell_start(k) - 10] == hex_cell(row, k)[0]);
        assert(cells[cell_start(k) - 9] == hex_cell(row, k)[1]);
        let b = row[k];
        assert(hex_cell(row, k)[0] == hex_digit(b / 16));
        assert(hex_cell(row, k)[1] == hex_digit(b % 16));
        assert(b / 16 < 16 && b % 16 < 16);
    }
    assert forall|k: int| row.len() <= k < 16 implies #[trigger] line[cell_start(k)] == 0x20u8
        && line[cell_start(k) + 1] == 0x20u8 by {
        assert(cells[cell_start(k) - 10] == hex_cell(row, k)[0]);
        assert(cells[cell_start(k) - 9] == hex_cell(row, k)[1]);
    }
}

} // verus!
