//! Hexadecimal dumps of memory: sixteen bytes per row with the row's offset,
//! the bytes in hexadecimal and their printable characters.

use vstd::prelude::*;

use crate::text::{
    hex_upper, join, join_strings, pad_left, pad_right, padded_right, push_text, texts,
    to_hex_upper_padded,
};

verus! {

/// Bytes shown per row.
pub const BYTES_PER_ROW: usize = 16;

/// Two upper-case hexadecimal digits of a byte (`{:02X}`).
pub open spec fn hex_byte(b: u8) -> Seq<char> {
    pad_left(hex_upper(b as nat), '0', 2)
}

/// The start of row `r`.
pub open spec fn row_start(r: int) -> int {
    r * 16
}

/// The bytes of row `r` of `data`: sixteen, or fewer in the last row.
pub open spec fn row_bytes(data: Seq<u8>, r: int) -> Seq<u8> {
    if row_start(r) + 16 <= data.len() {
        data.subrange(row_start(r), row_start(r) + 16)
    } else {
        data.subrange(row_start(r), data.len() as int)
    }
}

/// Number of rows needed for `n` bytes.
pub open spec fn row_count(n: int) -> int {
    (n + 15) / 16
}

/// The hexadecimal column of the hex viewer: the bytes' digit pairs
/// separated by spaces, with one more space before the ninth byte.
pub open spec fn viewer_hex(chunk: Seq<u8>) -> Seq<char> {
    join(
        Seq::new(
            chunk.len(),
            |i: int|
                if i == 8 {
                    " "@ + hex_byte(chunk[i])
                } else {
                    hex_byte(chunk[i])
                },
        ),
        " "@,
    )
}

/// A byte as the hex viewer shows it: the character for printable ASCII
/// (space to '~'), '.' otherwise.
pub open spec fn viewer_char(b: u8) -> char {
    if 32 <= b <= 126 {
        b as char
    } else {
        '.'
    }
}

/// The hex viewer shows every byte from space (32) to '~' (126) as its own
/// character and every other byte as '.'; the memory view does the same but
/// shows the space as '.' too.
pub proof fn lemma_shown_characters(b: u8)
    ensures
        32 <= b <= 126 ==> viewer_char(b) as u32 == b as u32,
        !(32 <= b <= 126) ==> viewer_char(b) == '.',
        33 <= b <= 126 ==> graphic_char(b) as u32 == b as u32,
        !(33 <= b <= 126) ==> graphic_char(b) == '.',
{
}

/// One row of the hex viewer.
pub struct HexRow {
    /// The row's offset as eight upper-case hexadecimal digits.
    pub offset_text: String,
    pub hex_text: String,
    pub ascii_text: String,
    /// Whether a gap follows the row (after every fourth row, counting from the first).
    pub gap_after: bool,
}

/// The texts of a hex-viewer row.
pub open spec fn hex_row_view(row: HexRow) -> (Seq<char>, Seq<char>, Seq<char>, bool) {
    (row.offset_text@, row.hex_text@, row.ascii_text@, row.gap_after)
}

/// Row `r` of the hex viewer for `data`.
pub open spec fn viewer_row(data: Seq<u8>, r: int) -> (Seq<char>, Seq<char>, Seq<char>, bool) {
    (
        pad_left(hex_upper(row_start(r) as nat), '0', 8),
        viewer_hex(row_bytes(data, r)),
        row_bytes(data, r).map_values(|b: u8| viewer_char(b)),
        row_start(r) % 64 == 0,
    )
}

fn hex_item(b: u8, extra_space: bool) -> (s: String)
    ensures
        s@ == if extra_space {
            " "@ + hex_byte(b)
        } else {
            hex_byte(b)
        },
{
    let digits = to_hex_upper_padded(b as u64, 2);
    if extra_space {
        let mut s = String::new();
        push_text(&mut s, " ");
        push_text(&mut s, digits.as_str());
        s
    } else {
        digits
    }
}

fn viewer_row_exec(data: &[u8], start: usize) -> (row: HexRow)
    requires
        start % 16 == 0,
        start < data@.len(),
    ensures
        hex_row_view(row) == viewer_row(data@, start as int / 16),
{
    let end = if data.len() - start >= 16 {
        start + 16
    } else {
        data.len()
    };
    let chunk = vstd::slice::slice_subrange(data, start, end);
    assert(row_start(start as int / 16) == start);
    assert(chunk@ == row_bytes(data@, start as int / 16));
    let mut items: Vec<String> = Vec::new();
    let mut ascii = String::new();
    let mut i: usize = 0;
    while i < chunk.len()
        invariant
            i <= chunk@.len(),
            items@.len() == i,
            forall|k: int|
                0 <= k < i ==> #[trigger] items@[k]@ == if k == 8 {
                    " "@ + hex_byte(chunk@[k])
                } else {
                    hex_byte(chunk@[k])
                },
            ascii@ == chunk@.take(i as int).map_values(|b: u8| viewer_char(b)),
        decreases chunk.len() - i,
    {
        let b = chunk[i];
        items.push(hex_item(b, i == 8));
        let c = if 32 <= b && b <= 126 {
            b as char
        } else {
            '.'
        };
        ascii.push(c);
        i = i + 1;
        assert(ascii@ =~= chunk@.take(i as int).map_values(|b: u8| viewer_char(b)));
    }
    assert(chunk@.take(i as int) =~= chunk@);
    assert(texts(items@) =~= Seq::new(
        chunk@.len(),
        |k: int|
            if k == 8 {
                " "@ + hex_byte(chunk@[k])
            } else {
                hex_byte(chunk@[k])
            },
    ));
    let hex = join_strings(&items, " ");
    let offset = to_hex_upper_padded(start as u64, 8);
    HexRow { offset_text: offset, hex_text: hex, ascii_text: ascii, gap_after: start % 64 == 0 }
}

/// The rows of the hex viewer for `data`.
pub fn hex_view_rows(data: &[u8]) -> (rows: Vec<HexRow>)
    ensures
        rows@.len() == row_count(data@.len() as int),
        forall|r: int| 0 <= r < rows@.len() ==> #[trigger] hex_row_view(rows@[r]) == viewer_row(data@, r),
{
    let mut rows: Vec<HexRow> = Vec::new();
    let count: usize = data.len() / 16 + if data.len() % 16 > 0 {
        1
    } else {
        0
    };
    assert(count == row_count(data@.len() as int));
    let mut r: usize = 0;
    while r < count
        invariant
            count == row_count(data@.len() as int),
            r <= count,
            rows@.len() == r,
            forall|r: int| 0 <= r < rows@.len() ==> #[trigger] hex_row_view(rows@[r]) == viewer_row(data@, r),
        decreases count - r,
    {
        assert(r * 16 < data.len() && (r * 16) % 16 == 0 && (r * 16) / 16 == r) by (nonlinear_arith)
            requires r < count, count == row_count(data.len() as int);
        let start = r * 16;
        let item = viewer_row_exec(data, start);
        rows.push(item);
        r = r + 1;
    }
    rows
}

/// A byte as the memory view shows it: the character for graphic ASCII
/// ('!' to '~'), '.' otherwise.
pub open spec fn graphic_char(b: u8) -> char {
    if 33 <= b <= 126 {
        b as char
    } else {
        '.'
    }
}

/// Line `r` of the memory view: the row's offset in eight hexadecimal
/// digits, a colon, the digit pairs separated by single spaces padded to 48
/// characters, and the graphic characters.
pub open spec fn memory_view_line(data: Seq<u8>, r: int) -> Seq<char> {
    pad_left(hex_upper(row_start(r) as nat), '0', 8) + ": "@ + pad_right(
        join(row_bytes(data, r).map_values(|b: u8| hex_byte(b)), " "@),
        48,
    ) + " "@ + row_bytes(data, r).map_values(|b: u8| graphic_char(b))
}

fn memory_view_line_exec(data: &[u8], start: usize) -> (line: String)
    requires
        start % 16 == 0,
        start < data@.len(),
    ensures
        line@ == memory_view_line(data@, start as int / 16),
{
    let end = if data.len() - start >= 16 {
        start + 16
    } else {
        data.len()
    };
    let chunk = vstd::slice::slice_subrange(data, start, end);
    assert(row_start(start as int / 16) == start);
    assert(chunk@ == row_bytes(data@, start as int / 16));
    let mut items: Vec<String> = Vec::new();
    let mut ascii = String::new();
    let mut i: usize = 0;
    while i < chunk.len()
        invariant
            i <= chunk@.len(),
            texts(items@) == chunk@.take(i as int).map_values(|b: u8| hex_byte(b)),
            ascii@ == chunk@.take(i as int).map_values(|b: u8| graphic_char(b)),
        decreases chunk.len() - i,
    {
        let b = chunk[i];
        let ghost before = items@;
        let item = to_hex_upper_padded(b as u64, 2);
        assert(item@ == hex_byte(b));
        items.push(item);
        assert(texts(items@) =~= texts(before).push(hex_byte(b)));
        let c = if 33 <= b && b <= 126 {
            b as char
        } else {
            '.'
        };
        ascii.push(c);
        i = i + 1;
        assert(texts(items@) =~= chunk@.take(i as int).map_values(|b: u8| hex_byte(b)));
        assert(ascii@ =~= chunk@.take(i as int).map_values(|b: u8| graphic_char(b)));
    }
    assert(chunk@.take(i as int) =~= chunk@);
    let hex = join_strings(&items, " ");
    let hex = padded_right(hex.as_str(), 48);
    let mut line = to_hex_upper_padded(start as u64, 8);
    push_text(&mut line, ": ");
    push_text(&mut line, hex.as_str());
    push_text(&mut line, " ");
    push_text(&mut line, ascii.as_str());
    line
}

/// The lines of the memory view for `data`, one per sixteen bytes.
pub fn memory_view_lines(data: &[u8]) -> (lines: Vec<String>)
    ensures
        lines@.len() == row_count(data@.len() as int),
        forall|r: int| 0 <= r < lines@.len() ==> #[trigger] lines@[r]@ == memory_view_line(data@, r),
{
    let mut lines: Vec<String> = Vec::new();
    let count: usize = data.len() / 16 + if data.len() % 16 > 0 {
        1
    } else {
        0
    };
    assert(count == row_count(data@.len() as int));
    let mut r: usize = 0;
    while r < count
        invariant
            count == row_count(data@.len() as int),
            r <= count,
            lines@.len() == r,
            forall|r: int| 0 <= r < lines@.len() ==> #[trigger] lines@[r]@ == memory_view_line(data@, r),
        decreases count - r,
    {
        assert(r * 16 < data.len() && (r * 16) % 16 == 0 && (r * 16) / 16 == r) by (nonlinear_arith)
            requires r < count, count == row_count(data.len() as int);
        let start = r * 16;
        let item = memory_view_line_exec(data, start);
        lines.push(item);
        r = r + 1;
    }
    lines
}

} // verus!
