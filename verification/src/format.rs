//! A grid as text: a header of column names, rules between the boxes, and
//! one line per row with the candidates of each cell centred in its column.

use vstd::prelude::*;
use vstd::string::{StrSliceExecFns, StringExecFns, StringSliceAdditionalSpecFns};
use vstd::utf8::{encode_utf8, is_ascii_chars, is_ascii_chars_encode_utf8};
use crate::grid::Grid;
use crate::rules::{count_below, size, well_formed, Board};
use crate::topology::{column_names, row_names, State};

verus! {

/// `piece`, `n` times over.
pub open spec fn repeat_text(piece: Seq<char>, n: int) -> Seq<char>
    decreases n,
{
    if n <= 0 {
        Seq::empty()
    } else {
        repeat_text(piece, n - 1) + piece
    }
}

/// `text`, which takes `len` columns, centred in `width` columns: the
/// padding is split evenly, and an odd space goes to the left. Text that is
/// as wide as `width` or wider stays as it is.
pub open spec fn centered(text: Seq<char>, len: int, width: int) -> Seq<char> {
    if width <= len {
        text
    } else {
        let right = (width - len) / 2;
        let left = right + (width - len) % 2;
        repeat_text(seq![' '], left) + text + repeat_text(seq![' '], right)
    }
}

/// `text` without the spaces at its end.
pub open spec fn trimmed(text: Seq<char>) -> Seq<char>
    decreases text.len(),
{
    if text.len() > 0 && text.last() == ' ' {
        trimmed(text.drop_last())
    } else {
        text
    }
}

/// The character for digit `d`.
pub open spec fn digit_char(d: int) -> char {
    column_names()[d - 1]
}

/// The digits below `n` that `s` holds, as text, in ascending order.
pub open spec fn text_below(s: Set<int>, n: int) -> Seq<char>
    decreases n,
{
    if n <= 1 {
        Seq::empty()
    } else if s.contains(n - 1) {
        text_below(s, n - 1) + seq![digit_char(n - 1)]
    } else {
        text_below(s, n - 1)
    }
}

/// The digits that `s` holds, as text, in ascending order.
pub open spec fn digits_text(s: Set<int>) -> Seq<char> {
    text_below(s, 10)
}

/// The largest number of candidates among the first `n` cells.
pub open spec fn widest(b: Board, n: int) -> nat
    decreases n,
{
    if n <= 0 {
        0
    } else if widest(b, n - 1) < size(b[n - 1]) {
        size(b[n - 1])
    } else {
        widest(b, n - 1)
    }
}

/// The width of a column: room for the cell with the most candidates, and
/// two columns more.
pub open spec fn column_width(b: Board) -> int {
    widest(b, 81) as int + 2
}

/// What stands before the `i`-th column of a line: `mark` at the left edge
/// of a box, nothing elsewhere.
pub open spec fn box_mark(i: int, mark: char) -> Seq<char> {
    if (i + 1) % 3 == 1 {
        seq![mark]
    } else {
        Seq::empty()
    }
}

/// The names of the first `n` columns, each centred in its column.
pub open spec fn header_upto(width: int, n: int) -> Seq<char>
    decreases n,
{
    if n <= 0 {
        Seq::empty()
    } else {
        header_upto(width, n - 1) + box_mark(n - 1, ' ') + centered(
            seq![column_names()[n - 1]],
            1,
            width,
        )
    }
}

/// The rule between boxes: three runs of dashes between plus signs.
pub open spec fn rule(width: int) -> Seq<char> {
    let dashes = repeat_text(seq!['-'], 3 * width);
    seq![' ', ' ', '+'] + dashes + seq!['+'] + dashes + seq!['+'] + dashes + seq!['+']
}

/// The line of row `r`, up to its `n`-th cell.
pub open spec fn row_upto(b: Board, r: int, width: int, n: int) -> Seq<char>
    decreases n,
{
    if n <= 0 {
        seq![row_names()[r], ' ']
    } else {
        row_upto(b, r, width, n - 1) + box_mark(n - 1, '|') + centered(
            digits_text(b[r * 9 + n - 1]),
            size(b[r * 9 + n - 1]) as int,
            width,
        )
    }
}

/// The lines of the first `n` rows, with a rule after every third.
pub open spec fn rows_upto(b: Board, width: int, n: int) -> Seq<char>
    decreases n,
{
    if n <= 0 {
        Seq::empty()
    } else if n % 3 == 0 {
        rows_upto(b, width, n - 1) + (row_upto(b, n - 1, width, 9) + seq!['|', '\n']) + (rule(width)
            + seq!['\n'])
    } else {
        rows_upto(b, width, n - 1) + (row_upto(b, n - 1, width, 9) + seq!['|', '\n'])
    }
}

/// The whole grid as text.
pub open spec fn grid_text(b: Board) -> Seq<char> {
    let width = column_width(b);
    seq![' ', ' '] + trimmed(header_upto(width, 9)) + seq!['\n'] + (rule(width) + seq!['\n'])
        + rows_upto(b, width, 9)
}

/// `piece`, `n` times over.
fn repeat(piece: &str, n: usize) -> (r: String)
    ensures
        r@ == repeat_text(piece@, n as int),
{
    let mut r = String::new();
    let mut i: usize = 0;
    while i < n
        invariant
            0 <= i <= n,
            r@ == repeat_text(piece@, i as int),
        decreases n - i,
    {
        r.append(piece);
        i = i + 1;
    }
    r
}

/// Centres `s` in `number_of_chars` columns, counting one column for each
/// byte of `s`.
pub fn center_string(s: &String, number_of_chars: usize) -> (r: String)
    ensures
        r@ == centered(s@, encode_utf8(s@).len() as int, number_of_chars as int),
{
    let len = s.as_str().as_bytes().len();
    if number_of_chars <= len {
        return s.clone();
    }
    let spaces_right = (number_of_chars - len) / 2;
    let spaces_left = spaces_right + (number_of_chars - len) % 2;
    let mut r = repeat(" ", spaces_left);
    r.append(s.as_str());
    let right = repeat(" ", spaces_right);
    r.append(right.as_str());
    proof {
        reveal_strlit(" ");
        assert(" "@ =~= seq![' ']);
    }
    r
}

/// Whether the column at `col_index` is the first of a box.
pub fn is_grid_boundary(col_index: usize) -> (r: bool)
    ensures
        r == ((col_index + 1) % 3 == 1),
{
    col_index % 3 == 0
}


/// `s` without the spaces at its end.
fn trim_end(s: &str) -> (r: String)
    ensures
        r@ == trimmed(s@),
{
    let mut end = s.unicode_len();
    proof {
        assert(s@.subrange(0, s@.len() as int) =~= s@);
    }
    while end > 0 && s.get_char(end - 1) == ' '
        invariant
            0 <= end <= s@.len(),
            trimmed(s@) == trimmed(s@.subrange(0, end as int)),
        decreases end,
    {
        proof {
            assert(s@.subrange(0, end as int).drop_last() =~= s@.subrange(0, end - 1));
        }
        end = end - 1;
    }
    String::from_str(s.substring_char(0, end))
}

/// The name of the `i`-th column.
fn column_name(i: usize) -> (r: &'static str)
    requires
        i < 9,
    ensures
        r@ == seq![column_names()[i as int]],
{
    let names: [&'static str; 9] = ["1", "2", "3", "4", "5", "6", "7", "8", "9"];
    proof {
        reveal_strlit("1");
        reveal_strlit("2");
        reveal_strlit("3");
        reveal_strlit("4");
        reveal_strlit("5");
        reveal_strlit("6");
        reveal_strlit("7");
        reveal_strlit("8");
        reveal_strlit("9");
        assert(names@[i as int]@ =~= seq![column_names()[i as int]]);
    }
    names[i]
}

/// The name of the `i`-th row.
fn row_name(i: usize) -> (r: &'static str)
    requires
        i < 9,
    ensures
        r@ == seq![row_names()[i as int]],
{
    let names: [&'static str; 9] = ["A", "B", "C", "D", "E", "F", "G", "H", "I"];
    proof {
        reveal_strlit("A");
        reveal_strlit("B");
        reveal_strlit("C");
        reveal_strlit("D");
        reveal_strlit("E");
        reveal_strlit("F");
        reveal_strlit("G");
        reveal_strlit("H");
        reveal_strlit("I");
        assert(names@[i as int]@ =~= seq![row_names()[i as int]]);
    }
    names[i]
}

/// The candidates of `cell` as text.
fn values_text(grid: &Grid, cell: usize) -> (r: String)
    requires
        cell < 81,
    ensures
        r@ == digits_text(grid@[cell as int]),
        r@.len() == size(grid@[cell as int]),
        is_ascii_chars(r@),
{
    let ghost s = grid@[cell as int];
    let mut r = String::new();
    let mut digit: u8 = 1;
    while digit <= 9
        invariant
            1 <= digit <= 10,
            cell < 81,
            s == grid@[cell as int],
            r@ == text_below(s, digit as int),
            r@.len() == count_below(s, digit as int),
            is_ascii_chars(r@),
        decreases 10 - digit,
    {
        if grid.has(cell, digit) {
            r.append(column_name((digit - 1) as usize));
        }
        digit = digit + 1;
    }
    r
}

/// The most candidates that any cell has.
fn max_values(grid: &Grid, state: &State) -> (r: usize)
    requires
        state.wf(),
    ensures
        r == widest(grid@, 81),
        r <= 9,
{
    let cells = state.cells();
    let mut most: usize = 0;
    let mut cell: usize = 0;
    while cell < cells.len()
        invariant
            0 <= cell <= 81,
            cells@.len() == 81,
            most == widest(grid@, cell as int),
            most <= 9,
        decreases 81 - cell,
    {
        let count = grid.count(cell);
        if most < count {
            most = count;
        }
        cell = cell + 1;
    }
    most
}

/// The names of the nine columns, each centred in its column.
fn header(width: usize) -> (r: String)
    ensures
        r@ == header_upto(width as int, 9),
{
    let mut digit_header = String::new();
    let mut d_index: usize = 0;
    while d_index < 9
        invariant
            0 <= d_index <= 9,
            digit_header@ == header_upto(width as int, d_index as int),
        decreases 9 - d_index,
    {
        let ghost before = digit_header@;
        if is_grid_boundary(d_index) {
            digit_header.append(" ");
        }
        let name = String::from_str(column_name(d_index));
        let cell = center_string(&name, width);
        digit_header.append(cell.as_str());
        proof {
            reveal_strlit(" ");
            assert(" "@ =~= seq![' ']);
            assert(is_ascii_chars(name@));
            is_ascii_chars_encode_utf8(name@);
            assert(digit_header@ =~= before + box_mark(d_index as int, ' ') + centered(
                seq![column_names()[d_index as int]],
                1,
                width as int,
            ));
        }
        d_index = d_index + 1;
    }
    digit_header
}

/// The rule between boxes.
fn rule_line(width: usize) -> (r: String)
    requires
        width <= 11,
    ensures
        r@ == rule(width as int),
{
    let dashes = repeat("-", 3 * width);
    let mut line = String::from_str("  +");
    line.append(dashes.as_str());
    line.append("+");
    line.append(dashes.as_str());
    line.append("+");
    line.append(dashes.as_str());
    line.append("+");
    proof {
        reveal_strlit("-");
        reveal_strlit("+");
        reveal_strlit("  +");
        assert("-"@ =~= seq!['-']);
        assert("+"@ =~= seq!['+']);
        assert("  +"@ =~= seq![' ', ' ', '+']);
    }
    line
}

/// The line of row `row`, without its end.
fn row_line(grid: &Grid, row: usize, width: usize) -> (r: String)
    requires
        row < 9,
    ensures
        r@ == row_upto(grid@, row as int, width as int, 9),
{
    let mut line = String::from_str(row_name(row));
    line.append(" ");
    proof {
        reveal_strlit(" ");
        assert(" "@ =~= seq![' ']);
        assert(line@ =~= row_upto(grid@, row as int, width as int, 0));
    }
    let mut col_index: usize = 0;
    while col_index < 9
        invariant
            0 <= col_index <= 9,
            row < 9,
            line@ == row_upto(grid@, row as int, width as int, col_index as int),
        decreases 9 - col_index,
    {
        let ghost before = line@;
        if is_grid_boundary(col_index) {
            line.append("|");
        }
        let cell = row * 9 + col_index;
        let cell_values = values_text(grid, cell);
        let text = center_string(&cell_values, width);
        line.append(text.as_str());
        proof {
            reveal_strlit("|");
            assert("|"@ =~= seq!['|']);
            is_ascii_chars_encode_utf8(cell_values@);
            assert(line@ =~= before + box_mark(col_index as int, '|') + centered(
                digits_text(grid@[cell as int]),
                size(grid@[cell as int]) as int,
                width as int,
            ));
            assert(row * 9 + (col_index + 1) - 1 == cell);
        }
        col_index = col_index + 1;
    }
    line
}

/// Lays the grid out as text: the column names, a rule, and the nine rows
/// with a rule after every third. Each cell shows its candidates, centred in
/// a column wide enough for the cell with the most candidates.
pub fn format_grid(grid: &Grid, state: &State) -> (result: String)
    requires
        state.wf(),
    ensures
        result@ == grid_text(grid@),
{
    let width = max_values(grid, state) + 2;
    let digit_header = header(width);
    let top = trim_end(digit_header.as_str());
    let mut line = rule_line(width);
    line.append("\n");
    proof {
        reveal_strlit("\n");
        assert("\n"@ =~= seq!['\n']);
    }
    let mut rows = String::new();
    let mut row_index: usize = 0;
    while row_index < 9
        invariant
            0 <= row_index <= 9,
            line@ == rule(width as int) + seq!['\n'],
            rows@ == rows_upto(grid@, width as int, row_index as int),
        decreases 9 - row_index,
    {
        let ghost before = rows@;
        let mut row = row_line(grid, row_index, width);
        row.append("|\n");
        rows.append(row.as_str());
        if (row_index + 1) % 3 == 0 {
            rows.append(line.as_str());
        }
        proof {
            reveal_strlit("|\n");
            assert("|\n"@ =~= seq!['|', '\n']);
        }
        row_index = row_index + 1;
    }
    let mut result = String::from_str("  ");
    result.append(top.as_str());
    result.append("\n");
    result.append(line.as_str());
    result.append(rows.as_str());
    proof {
        reveal_strlit("  ");
        reveal_strlit("\n");
        assert("  "@ =~= seq![' ', ' ']);
        assert("\n"@ =~= seq!['\n']);
    }
    result
}

} // verus!
