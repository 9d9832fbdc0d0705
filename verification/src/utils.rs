//! Reading a puzzle: one given value per line of text, as the number of the
//! cell, a comma, and the value. And writing a grid out as lines of text.
use vstd::prelude::*;

use crate::{Data, DataCell, Index, Value};

verus! {

/// Why a line gives no entry.
#[derive(Debug, Clone, Copy, PartialEq, Eq)]
pub enum EntryError {
    /// What stands before the first comma is not a number that fits an index.
    BadIndex,
    /// The line has no comma, so no value.
    MissingValue,
    /// What stands behind the first comma is not a number that fits a value.
    BadValue,
}

/// The byte `,`.
pub const COMMA: u8 = 44;

/// The byte `+`.
pub const PLUS: u8 = 43;

/// The byte `0`.
pub const ZERO: u8 = 48;

/// The byte is one of `0` to `9`.
pub open spec fn is_digit(b: u8) -> bool {
    48 <= b <= 57
}

/// The number that a run of digits writes, in base ten.
pub open spec fn digits_value(s: Seq<u8>) -> nat
    decreases s.len(),
{
    if s.len() == 0 {
        0
    } else {
        (10 * digits_value(s.drop_last()) + (s.last() - 48)) as nat
    }
}

/// The text without a `+` in front.
pub open spec fn unsigned(s: Seq<u8>) -> Seq<u8> {
    if s.len() > 0 && s[0] == 43 {
        s.skip(1)
    } else {
        s
    }
}

/// The number that `s` writes, if it is one and no greater than `max`: one
/// digit or more, with or without a `+` in front, and nothing else.
pub open spec fn number(s: Seq<u8>, max: nat) -> Option<nat> {
    let d = unsigned(s);
    if d.len() > 0 && (forall|i: int| 0 <= i < d.len() ==> is_digit(#[trigger] d[i]))
        && digits_value(d) <= max {
        Some(digits_value(d))
    } else {
        None
    }
}

/// Where the field that begins at `from` ends: at the next comma, or at the
/// end of the line.
pub open spec fn field_end(s: Seq<u8>, from: int) -> int
    decreases s.len() - from,
{
    if from >= s.len() {
        s.len() as int
    } else if s[from] == 44 {
        from
    } else {
        field_end(s, from + 1)
    }
}

/// What a line says: the index is the first field, the value the second;
/// further fields are not looked at. A bad index is told before a
/// missing or bad value.
pub open spec fn entry_of(s: Seq<u8>) -> Result<(Index, Value), EntryError> {
    let a = field_end(s, 0);
    match number(s.subrange(0, a), usize::MAX as nat) {
        None => Err(EntryError::BadIndex),
        Some(index) => if a == s.len() {
            Err(EntryError::MissingValue)
        } else {
            let b = field_end(s, a + 1);
            match number(s.subrange(a + 1, b), 255) {
                None => Err(EntryError::BadValue),
                Some(value) => Ok((index as Index, value as Value)),
            }
        },
    }
}

/// A longer run of digits writes no smaller a number.
proof fn lemma_digits_grow(s: Seq<u8>, n: int)
    requires
        0 <= n <= s.len(),
        forall|i: int| 0 <= i < s.len() ==> is_digit(#[trigger] s[i]),
    ensures
        digits_value(s.take(n)) <= digits_value(s),
    decreases s.len() - n,
{
    if n < s.len() {
        lemma_digits_grow(s.drop_last(), n);
        assert(s.drop_last().take(n) =~= s.take(n));
    } else {
        assert(s.take(n) =~= s);
    }
}

/// Where the field that begins at `from` ends.
fn find_field_end(line: &[u8], from: usize) -> (end: usize)
    requires
        from <= line.len(),
    ensures
        end == field_end(line@, from as int),
        from <= end <= line.len(),
{
    let mut end: usize = from;
    while end < line.len() && line[end] != COMMA
        invariant
            from <= end <= line.len(),
            field_end(line@, end as int) == field_end(line@, from as int),
        decreases line.len() - end,
    {
        end += 1;
    }
    end
}

/// Reads the number that the bytes from `start` to `end` write.
fn read_number(line: &[u8], start: usize, end: usize, max: usize) -> (r: Option<usize>)
    requires
        start <= end <= line.len(),
    ensures
        r matches Some(n) ==> number(line@.subrange(start as int, end as int), max as nat)
            == Some(n as nat),
        r is None ==> number(line@.subrange(start as int, end as int), max as nat) is None,
{
    let ghost text = line@.subrange(start as int, end as int);
    let mut at: usize = start;
    if at < end && line[at] == PLUS {
        at += 1;
    }
    let ghost d = unsigned(text);
    assert(d =~= line@.subrange(at as int, end as int));
    if at == end {
        return None;
    }
    let first: usize = at;
    let mut value: usize = 0;
    assert(d.take(0) =~= Seq::empty());
    while at < end
        invariant
            start <= first <= at <= end <= line.len(),
            text == line@.subrange(start as int, end as int),
            d == unsigned(text),
            d == line@.subrange(first as int, end as int),
            forall|i: int| 0 <= i < at - first ==> is_digit(#[trigger] d[i]),
            value == digits_value(d.take(at - first)),
            value <= max,
        decreases end - at,
    {
        let b: u8 = line[at];
        assert(b == d[at - first]);
        if b < ZERO || b > 57 {
            assert(!is_digit(d[at - first]));
            return None;
        }
        let digit: usize = (b - ZERO) as usize;
        proof {
            assert(d.take(at - first + 1).drop_last() =~= d.take(at - first));
            assert(d.take(at - first + 1).last() == b);
        }
        if digit > max || value > (max - digit) / 10 {
            proof {
                assert(10 * value + digit > max);
                assert(digits_value(d.take(at - first + 1)) == 10 * value + digit);
                if forall|i: int| 0 <= i < d.len() ==> is_digit(#[trigger] d[i]) {
                    lemma_digits_grow(d, at - first + 1);
                }
            }
            return None;
        }
        value = 10 * value + digit;
        at += 1;
    }
    assert(d.take(d.len() as int) =~= d);
    Some(value)
}

/// Reads one line of a puzzle, without its line end: see [`entry_of`].
pub fn parse_entry(line: &[u8]) -> (r: Result<(Index, Value), EntryError>)
    ensures
        r == entry_of(line@),
{
    let a = find_field_end(line, 0);
    let index = match read_number(line, 0, a, usize::MAX) {
        Some(index) => index,
        None => {
            return Err(EntryError::BadIndex);
        },
    };
    if a == line.len() {
        return Err(EntryError::MissingValue);
    }
    let b = find_field_end(line, a + 1);
    match read_number(line, a + 1, b, 255) {
        Some(value) => Ok((index, value as u8)),
        None => Err(EntryError::BadValue),
    }
}

/// The byte of a blank.
pub const BLANK: u8 = 32;

/// The byte that ends a line.
pub const LINE_END: u8 = 10;

/// A value in base ten.
pub open spec fn decimal(v: Value) -> Seq<u8> {
    if v >= 100 {
        seq![(48 + v / 100) as u8, (48 + (v / 10) % 10) as u8, (48 + v % 10) as u8]
    } else if v >= 10 {
        seq![(48 + v / 10) as u8, (48 + v % 10) as u8]
    } else {
        seq![(48 + v) as u8]
    }
}

/// The text of a cell: its value, or a blank.
pub open spec fn cell_text(cell: DataCell) -> Seq<u8> {
    match cell {
        Some(v) => decimal(v),
        None => seq![32u8],
    }
}

/// What stands before cell `k` of a line: nothing before the first, the
/// separator before every third, three blanks before the others.
pub open spec fn gap(k: int, separator: Seq<u8>) -> Seq<u8> {
    if k == 0 {
        Seq::empty()
    } else if k % 3 == 0 {
        separator
    } else {
        seq![32u8, 32u8, 32u8]
    }
}

/// The cells of a line, in groups of three.
pub open spec fn cells_text(cells: Seq<DataCell>, separator: Seq<u8>) -> Seq<u8>
    decreases cells.len(),
{
    if cells.len() == 0 {
        Seq::empty()
    } else {
        cells_text(cells.drop_last(), separator) + gap(cells.len() - 1, separator) + cell_text(
            cells.last(),
        )
    }
}

/// A line of the grid as it is written out: two blanks, the cells, a blank.
pub open spec fn line_text(cells: Seq<DataCell>, separator: Seq<u8>) -> Seq<u8> {
    seq![32u8, 32u8] + cells_text(cells, separator) + seq![32u8]
}

/// Line `i` of the eleven that a grid is written out in: nine rows, with a
/// rule after the third and after the sixth.
pub open spec fn puzzle_line(
    grid: Seq<DataCell>,
    i: int,
    separator: Seq<u8>,
    rule: Seq<u8>,
) -> Seq<u8> {
    if i == 3 || i == 7 {
        rule
    } else {
        let row = if i < 3 {
            i
        } else if i < 7 {
            i - 1
        } else {
            i - 2
        };
        line_text(grid.subrange(9 * row, 9 * row + 9), separator)
    }
}

/// The grid in one piece, cell by cell: each cell between two blanks, and a
/// line end behind the first cell of every row but the first.
pub open spec fn flat_text(grid: Seq<DataCell>) -> Seq<u8>
    decreases grid.len(),
{
    if grid.len() == 0 {
        Seq::empty()
    } else {
        let k = grid.len() - 1;
        flat_text(grid.drop_last()) + seq![32u8] + cell_text(grid.last()) + seq![32u8] + if k % 9
            == 0 && k != 0 {
            seq![10u8]
        } else {
            Seq::empty()
        }
    }
}

/// Appends `text` to `out`.
fn append(out: &mut Vec<u8>, text: &[u8])
    ensures
        final(out)@ == old(out)@ + text@,
{
    assert(out@ =~= old(out)@ + text@.take(0));
    for i in 0..text.len()
        invariant
            out@ == old(out)@ + text@.take(i as int),
    {
        out.push(text[i]);
        assert(text@.take(i + 1) =~= text@.take(i as int).push(text[i as int]));
        assert(out@ =~= old(out)@ + text@.take(i + 1));
    }
    assert(text@.take(text.len() as int) =~= text@);
}

/// Appends the text of a cell to `out`.
fn append_cell(out: &mut Vec<u8>, cell: DataCell)
    ensures
        final(out)@ == old(out)@ + cell_text(cell),
{
    match cell {
        Some(v) => {
            if v >= 100 {
                out.push(ZERO + v / 100);
            }
            if v >= 10 {
                out.push(ZERO + (v / 10) % 10);
            }
            out.push(ZERO + v % 10);
        },
        None => {
            out.push(BLANK);
        },
    }
    assert(out@ =~= old(out)@ + cell_text(cell));
}

/// A line of cells as it is written out: see [`line_text`].
pub fn render_line(cells: &[DataCell], separator: &[u8]) -> (r: Vec<u8>)
    ensures
        r@ == line_text(cells@, separator@),
{
    let mut out: Vec<u8> = Vec::new();
    out.push(BLANK);
    out.push(BLANK);
    let ghost head = out@;
    assert(head =~= seq![32u8, 32u8]);
    assert(cells@.take(0) =~= Seq::empty());
    for k in 0..cells.len()
        invariant
            head == seq![32u8, 32u8],
            out@ == head + cells_text(cells@.take(k as int), separator@),
    {
        let ghost before = out@;
        if k == 0 {
        } else if k % 3 == 0 {
            append(&mut out, separator);
        } else {
            out.push(BLANK);
            out.push(BLANK);
            out.push(BLANK);
        }
        assert(out@ =~= before + gap(k as int, separator@));
        append_cell(&mut out, cells[k]);
        proof {
            assert(cells@.take(k + 1).drop_last() =~= cells@.take(k as int));
            assert(cells@.take(k + 1).last() == cells[k as int]);
            assert(out@ =~= head + cells_text(cells@.take(k + 1), separator@));
        }
    }
    assert(cells@.take(cells.len() as int) =~= cells@);
    out.push(BLANK);
    assert(out@ =~= line_text(cells@, separator@));
    out
}

/// The eleven lines that a grid is written out in: see [`puzzle_line`].
pub fn render_puzzle(data: &Data, separator: &[u8], rule: &[u8]) -> (r: Vec<Vec<u8>>)
    ensures
        r.len() == 11,
        forall|i: int| 0 <= i < 11 ==> (#[trigger] r[i])@ == puzzle_line(
            data@,
            i,
            separator@,
            rule@,
        ),
{
    let mut lines: Vec<Vec<u8>> = Vec::new();
    for row_index in 0..9usize
        invariant
            lines.len() == row_index + (if row_index > 3 { 1int } else { 0int }) + (if row_index > 6 { 1int } else { 0int }),
            forall|i: int| 0 <= i < lines.len() ==> (#[trigger] lines[i])@ == puzzle_line(
                data@,
                i,
                separator@,
                rule@,
            ),
    {
        if row_index % 3 == 0 && row_index != 0 {
            let mut line: Vec<u8> = Vec::new();
            append(&mut line, rule);
            assert(line@ =~= rule@);
            lines.push(line);
        }
        let mut cells: [DataCell; 9] = [None; 9];
        for k in 0..9usize
            invariant
                row_index < 9,
                forall|j: int| 0 <= j < k ==> cells[j] == data[9 * row_index + j],
        {
            cells[k] = data[9 * row_index + k];
        }
        assert(cells@ =~= data@.subrange(9 * row_index, 9 * row_index + 9));
        let line = render_line(&cells, separator);
        lines.push(line);
    }
    lines
}

/// The grid in one piece: see [`flat_text`].
pub fn render_flat(data: &Data) -> (r: Vec<u8>)
    ensures
        r@ == flat_text(data@),
{
    let mut out: Vec<u8> = Vec::new();
    assert(data@.take(0) =~= Seq::empty());
    for idx in 0..81usize
        invariant
            out@ == flat_text(data@.take(idx as int)),
    {
        let ghost before = out@;
        out.push(BLANK);
        append_cell(&mut out, data[idx]);
        out.push(BLANK);
        if idx % 9 == 0 && idx != 0 {
            out.push(LINE_END);
        }
        proof {
            assert(data@.take(idx + 1).drop_last() =~= data@.take(idx as int));
            assert(data@.take(idx + 1).last() == data[idx as int]);
            assert(out@ =~= flat_text(data@.take(idx + 1)));
        }
    }
    assert(data@.take(81) =~= data@);
    out
}

} // verus!
