//! The picture of a board for a terminal: which pieces of text stand where,
//! and in which ink. The inks are laid on by the `colored` crate.

use colored::{ColoredString, Colorize};
use vstd::prelude::*;

use crate::models::sudoku::Sudoku;
use crate::models::value::{Board, CellView, SudokuCell};

verus! {

/// How a piece of the picture is printed.
#[derive(Debug, Clone, Copy, PartialEq, Eq, Structural)]
pub enum Ink {
    /// As it is.
    Plain,
    /// Yellow: the bars between the cells.
    Bar,
    /// Bold yellow: the lines between the rows.
    Frame,
    /// Bold black on yellow: the digits that the puzzle gave.
    Given,
}

/// What a span is to the contracts.
pub struct SpanView {
    pub text: Seq<char>,
    pub ink: Ink,
}

/// A piece of the picture: its text and its ink.
#[derive(Debug, PartialEq, Eq)]
pub struct Span {
    pub text: Vec<char>,
    pub ink: Ink,
}

impl View for Span {
    type V = SpanView;

    open spec fn view(&self) -> SpanView {
        SpanView { text: self.text@, ink: self.ink }
    }
}

/// The spans of a vector as the contracts see them.
pub open spec fn spans_view(spans: Seq<Span>) -> Seq<SpanView> {
    spans.map_values(|span: Span| span@)
}

/// The lines above the rows 0, 3 and 6 and below the last row are double.
pub open spec fn is_double(row: int) -> bool {
    row == 0 || row == 8 || row % 3 == 0
}

/// The corner or joint that opens separator `row`.
pub open spec fn frame_start(row: int) -> char {
    if row == 0 {
        '╔'
    } else if row == 8 {
        '╚'
    } else if row % 3 == 0 {
        '╠'
    } else {
        '╟'
    }
}

/// The stroke of separator `row`, of which three stand above each cell.
pub open spec fn frame_stroke(row: int) -> char {
    if is_double(row) {
        '═'
    } else {
        '─'
    }
}

/// The joint of separator `row` behind column `column`: a double one behind
/// every third column.
pub open spec fn frame_joint(row: int, column: int) -> char {
    if column % 3 == 2 {
        if row == 0 {
            '╦'
        } else if row == 8 {
            '╩'
        } else if row % 3 == 0 {
            '╬'
        } else {
            '╫'
        }
    } else {
        if row == 0 {
            '╤'
        } else if row == 8 {
            '╧'
        } else if row % 3 == 0 {
            '╪'
        } else {
            '┼'
        }
    }
}

/// The corner or joint that closes separator `row`.
pub open spec fn frame_end(row: int) -> char {
    if row == 0 {
        '╗'
    } else if row == 8 {
        '╝'
    } else if row % 3 == 0 {
        '╣'
    } else {
        '╢'
    }
}

/// A piece of a separator.
pub open spec fn frame_span(text: Seq<char>) -> SpanView {
    SpanView { text, ink: Ink::Frame }
}

/// The end of a line.
pub open spec fn line_end() -> SpanView {
    SpanView { text: seq!['\n'], ink: Ink::Plain }
}

/// Piece `k` of separator `row`: the start, then strokes and joints in turn,
/// the end, and the end of the line.
pub open spec fn separator_piece(row: int, k: int) -> SpanView {
    if k == 0 {
        frame_span(seq![frame_start(row)])
    } else if k == 18 {
        frame_span(seq![frame_end(row)])
    } else if k == 19 {
        line_end()
    } else if k % 2 == 1 {
        frame_span(seq![frame_stroke(row), frame_stroke(row), frame_stroke(row)])
    } else {
        frame_span(seq![frame_joint(row, (k - 2) / 2)])
    }
}

/// The twenty pieces of separator `row`.
pub open spec fn separator_layout(row: int) -> Seq<SpanView> {
    Seq::new(20, |k: int| separator_piece(row, k))
}

/// A number below 256 in base ten.
pub open spec fn decimal(value: u8) -> Seq<char> {
    if value >= 100 {
        seq![
            (0x30 + value / 100) as char,
            (0x30 + (value / 10) % 10) as char,
            (0x30 + value % 10) as char,
        ]
    } else if value >= 10 {
        seq![(0x30 + value / 10) as char, (0x30 + value % 10) as char]
    } else {
        seq![(0x30 + value) as char]
    }
}

/// The piece that shows a cell: its digit between two blanks, in the ink of
/// the given digits where the puzzle gave it, and three blanks where the cell
/// is open.
pub open spec fn cell_span(cell: CellView) -> SpanView {
    match cell.value {
        Some(value) => SpanView {
            text: seq![' '] + decimal(value) + seq![' '],
            ink: if cell.is_original_value {
                Ink::Given
            } else {
                Ink::Plain
            },
        },
        None => SpanView { text: seq![' ', ' ', ' '], ink: Ink::Plain },
    }
}

/// The bar behind column `column`: a double one behind every third column.
pub open spec fn bar_span(column: int) -> SpanView {
    SpanView {
        text: if column % 3 == 2 {
            seq!['║']
        } else {
            seq!['│']
        },
        ink: Ink::Bar,
    }
}

/// The first `cells` cells of row `row`, each with the bar behind it.
pub open spec fn cells_layout(board: Board, row: int, cells: int) -> Seq<SpanView>
    decreases cells,
{
    if cells <= 0 {
        Seq::empty()
    } else {
        cells_layout(board, row, cells - 1).push(cell_span(board[row * 9 + cells - 1])).push(
            bar_span(cells - 1),
        )
    }
}

/// The separator below row `row`: none below the last row, which the bottom
/// of the frame follows.
pub open spec fn separator_below(row: int) -> Seq<SpanView> {
    if row == 7 {
        separator_layout(7)
    } else if row == 8 {
        Seq::empty()
    } else {
        separator_layout(row + 1)
    }
}

/// Row `row`: a double bar, the cells with their bars, the end of the line,
/// and the separator below.
pub open spec fn row_layout(board: Board, row: int) -> Seq<SpanView> {
    seq![bar_span(2)] + cells_layout(board, row, 9) + seq![line_end()] + separator_below(row)
}

/// The first `rows` rows.
pub open spec fn rows_layout(board: Board, rows: int) -> Seq<SpanView>
    decreases rows,
{
    if rows <= 0 {
        Seq::empty()
    } else {
        rows_layout(board, rows - 1) + row_layout(board, rows - 1)
    }
}

/// The picture of a board: the top of the frame, the nine rows with the
/// separators between them, and the bottom of the frame.
pub open spec fn board_layout(board: Board) -> Seq<SpanView> {
    separator_layout(0) + rows_layout(board, 9) + separator_layout(8)
}

/// A span of one character.
fn glyph(c: char, ink: Ink) -> (span: Span)
    ensures
        span@ == (SpanView { text: seq![c], ink }),
{
    let mut text: Vec<char> = Vec::new();
    text.push(c);
    assert(text@ =~= seq![c]);
    Span { text, ink }
}

/// Adds the pieces of separator `row` to a picture.
pub fn push_separator(spans: &mut Vec<Span>, row: usize)
    ensures
        spans_view(final(spans)@) == spans_view(old(spans)@) + separator_layout(row as int),
{
    let ghost before = spans_view(spans@);
    let double = row == 0 || row == 8 || row % 3 == 0;
    let start = if row == 0 {
        '╔'
    } else if row == 8 {
        '╚'
    } else if row % 3 == 0 {
        '╠'
    } else {
        '╟'
    };
    spans.push(glyph(start, Ink::Frame));
    let stroke = if double {
        '═'
    } else {
        '─'
    };
    let mut i: usize = 0;
    while i < 9
        invariant
            i <= 9,
            double == is_double(row as int),
            stroke == frame_stroke(row as int),
            spans@.len() == old(spans)@.len() + 1 + 2 * i,
            forall|k: int| 0 <= k < old(spans)@.len() ==> (#[trigger] spans@[k])@ == before[k],
            before == spans_view(old(spans)@),
            forall|k: int|
                0 <= k < 1 + 2 * i ==> (#[trigger] spans@[old(spans)@.len() + k])@
                    == separator_piece(row as int, k),
        decreases 9 - i,
    {
        let mut text: Vec<char> = Vec::new();
        text.push(stroke);
        text.push(stroke);
        text.push(stroke);
        assert(text@ =~= seq![stroke, stroke, stroke]);
        spans.push(Span { text, ink: Ink::Frame });
        let joint = if i == 8 {
            if row == 0 {
                '╗'
            } else if row == 8 {
                '╝'
            } else if row % 3 == 0 {
                '╣'
            } else {
                '╢'
            }
        } else if i % 3 == 2 {
            if row == 0 {
                '╦'
            } else if row == 8 {
                '╩'
            } else if row % 3 == 0 {
                '╬'
            } else {
                '╫'
            }
        } else {
            if row == 0 {
                '╤'
            } else if row == 8 {
                '╧'
            } else if row % 3 == 0 {
                '╪'
            } else {
                '┼'
            }
        };
        spans.push(glyph(joint, Ink::Frame));
        i += 1;
    }
    spans.push(glyph('\n', Ink::Plain));
    proof {
        let after = spans_view(spans@);
        let expected = before + separator_layout(row as int);
        assert(after.len() == expected.len());
        assert forall|k: int| 0 <= k < after.len() implies after[k] == expected[k] by {
            if k < before.len() {
                assert(spans@[k]@ == before[k]);
            } else {
                let j = k - before.len();
                assert(spans@[old(spans)@.len() + j]@ == separator_piece(row as int, j));
            }
        }
        assert(after =~= expected);
    }
}

/// The pieces of separator `row`.
pub fn separator_spans(row: usize) -> (spans: Vec<Span>)
    ensures
        spans_view(spans@) == separator_layout(row as int),
{
    let mut spans: Vec<Span> = Vec::new();
    push_separator(&mut spans, row);
    assert(spans_view(spans@) =~= separator_layout(row as int));
    spans
}

/// The text that shows a digit: the number between two blanks.
fn digit_text(value: u8) -> (text: Vec<char>)
    ensures
        text@ == seq![' '] + decimal(value) + seq![' '],
{
    let mut text: Vec<char> = Vec::new();
    text.push(' ');
    if value >= 100 {
        text.push((0x30 + value / 100) as char);
    }
    if value >= 10 {
        text.push((0x30 + (value / 10) % 10) as char);
    }
    text.push((0x30 + value % 10) as char);
    text.push(' ');
    assert(text@ =~= seq![' '] + decimal(value) + seq![' ']);
    text
}

/// The piece that shows a cell.
pub fn cell_piece(cell: &SudokuCell) -> (span: Span)
    ensures
        span@ == cell_span(cell@),
{
    match cell.value {
        Some(value) => Span {
            text: digit_text(value),
            ink: if cell.is_original_value {
                Ink::Given
            } else {
                Ink::Plain
            },
        },
        None => {
            let mut text: Vec<char> = Vec::new();
            text.push(' ');
            text.push(' ');
            text.push(' ');
            assert(text@ =~= seq![' ', ' ', ' ']);
            Span { text, ink: Ink::Plain }
        },
    }
}

/// The bar behind column `column`.
fn bar_piece(column: usize) -> (span: Span)
    ensures
        span@ == bar_span(column as int),
{
    if column % 3 == 2 {
        glyph('║', Ink::Bar)
    } else {
        glyph('│', Ink::Bar)
    }
}

/// The pieces of the picture of a board, in the order in which they are
/// printed. The picture shows the first 81 cells.
pub fn board_spans(sudoku: &Sudoku) -> (spans: Vec<Span>)
    requires
        sudoku@.len() >= 81,
    ensures
        spans_view(spans@) == board_layout(sudoku@),
{
    let mut spans: Vec<Span> = Vec::new();
    push_separator(&mut spans, 0);
    assert(spans_view(spans@) =~= separator_layout(0) + rows_layout(sudoku@, 0));
    let mut row: usize = 0;
    while row < 9
        invariant
            row <= 9,
            sudoku@.len() >= 81,
            spans_view(spans@) == separator_layout(0) + rows_layout(sudoku@, row as int),
        decreases 9 - row,
    {
        let ghost before = spans_view(spans@);
        spans.push(bar_piece(2));
        assert(spans_view(spans@) =~= before + (seq![bar_span(2)] + cells_layout(
            sudoku@,
            row as int,
            0,
        )));
        let mut column: usize = 0;
        while column < 9
            invariant
                column <= 9,
                row < 9,
                sudoku@.len() >= 81,
                spans_view(spans@) == before + (seq![bar_span(2)] + cells_layout(
                    sudoku@,
                    row as int,
                    column as int,
                )),
            decreases 9 - column,
        {
            let ghost so_far = spans_view(spans@);
            let cell = sudoku.cells[row * 9 + column];
            assert(cell@ == sudoku@[row * 9 + column]);
            spans.push(cell_piece(&cell));
            spans.push(bar_piece(column));
            assert(spans_view(spans@) =~= so_far.push(cell_span(cell@)).push(
                bar_span(column as int),
            ));
            assert(spans_view(spans@) =~= before + (seq![bar_span(2)] + cells_layout(
                sudoku@,
                row as int,
                column + 1,
            )));
            column += 1;
        }
        let ghost cells_done = spans_view(spans@);
        spans.push(glyph('\n', Ink::Plain));
        assert(spans_view(spans@) =~= cells_done.push(line_end()));
        let ghost line_done = spans_view(spans@);
        if row == 7 {
            push_separator(&mut spans, 7);
        } else if row != 8 {
            push_separator(&mut spans, row + 1);
        }
        proof {
            assert(spans_view(spans@) =~= line_done + separator_below(row as int));
            assert(spans_view(spans@) =~= before + row_layout(sudoku@, row as int));
            assert(before + row_layout(sudoku@, row as int) =~= separator_layout(0) + rows_layout(
                sudoku@,
                row + 1,
            ));
        }
        row += 1;
    }
    push_separator(&mut spans, 8);
    spans
}

#[verifier::external_type_specification]
#[verifier::external_body]
pub struct ExColoredString(colored::ColoredString);

/// The text that a `ColoredString` of the `colored` crate holds, whatever its
/// colours and its style: its field `input`.
pub uninterp spec fn colored_text(piece: ColoredString) -> Seq<char>;

/// The character that opens an escape code.
pub open spec fn escape() -> char {
    '\u{1b}'
}

/// A text between escape codes: the code that switches the colours and the
/// style `codes` on, the text, and the code that switches all off again.
pub open spec fn in_codes(codes: Seq<char>, text: Seq<char>) -> Seq<char> {
    seq![escape(), '['] + codes + seq!['m'] + text + seq![escape(), '[', '0', 'm']
}

/// `painted` shows `text`: it is the text, bare or between escape codes.
pub open spec fn shows(text: Seq<char>, painted: Seq<char>) -> bool {
    painted == text || exists|codes: Seq<char>| painted == #[trigger] in_codes(codes, text)
}

/// `ColoredString::from` of the `colored` crate: a text that has no colour and
/// no style yet. It holds the text that it was made of.
#[verifier::external_body]
fn unstyled(text: &Vec<char>) -> (piece: ColoredString)
    ensures
        colored_text(piece) == text@,
{
    ColoredString::from(text.iter().collect::<String>())
}

/// `Colorize::bold` of the `colored` crate, which makes a text bold. The text
/// that is held stays the same.
#[verifier::external_body]
fn bold(piece: ColoredString) -> (styled: ColoredString)
    ensures
        colored_text(styled) == colored_text(piece),
{
    piece.bold()
}

/// `Colorize::yellow` of the `colored` crate, which writes a text in yellow.
/// The text that is held stays the same.
#[verifier::external_body]
fn yellow(piece: ColoredString) -> (styled: ColoredString)
    ensures
        colored_text(styled) == colored_text(piece),
{
    piece.yellow()
}

/// `Colorize::black` of the `colored` crate, which writes a text in black.
/// The text that is held stays the same.
#[verifier::external_body]
fn black(piece: ColoredString) -> (styled: ColoredString)
    ensures
        colored_text(styled) == colored_text(piece),
{
    piece.black()
}

/// `Colorize::on_yellow` of the `colored` crate, which puts a text on a yellow
/// ground. The text that is held stays the same.
#[verifier::external_body]
fn on_yellow(piece: ColoredString) -> (styled: ColoredString)
    ensures
        colored_text(styled) == colored_text(piece),
{
    piece.on_yellow()
}

/// `to_string` on a `ColoredString`, which goes through the `Display` that the
/// `colored` crate gives it. Where the crate finds colours switched off, or
/// the text has neither colour nor style, the result is the text that is
/// held; else it is that text between the escape code of its colours and
/// style and the code that resets them. Which of the two depends on the
/// terminal and the environment, so the claim is of both. It is made of a
/// text without an escape character only: the crate rewrites a text that
/// holds reset codes of its own. The crate reads its switch more than once
/// on the way; the claim takes it that no other thread turns the switch
/// meanwhile.
#[verifier::external_body]
fn shown(piece: &ColoredString) -> (text: Vec<char>)
    ensures
        !colored_text(*piece).contains(escape()) ==> shows(colored_text(*piece), text@),
{
    piece.to_string().chars().collect()
}

/// The text of a piece as it is sent to the terminal. A plain piece is its
/// text. With any other ink the text comes back from the `colored` crate:
/// bare, or between escape codes.
pub fn paint(span: &Span) -> (painted: Vec<char>)
    ensures
        span.ink == Ink::Plain ==> painted@ == span.text@,
        !span.text@.contains(escape()) ==> shows(span.text@, painted@),
{
    match span.ink {
        Ink::Plain => {
            let mut painted: Vec<char> = Vec::new();
            let mut i: usize = 0;
            while i < span.text.len()
                invariant
                    i <= span.text@.len(),
                    painted@ == span.text@.take(i as int),
                decreases span.text.len() - i,
            {
                painted.push(span.text[i]);
                assert(painted@ =~= span.text@.take(i + 1));
                i += 1;
            }
            assert(painted@ =~= span.text@);
            painted
        },
        Ink::Bar => shown(&yellow(unstyled(&span.text))),
        Ink::Frame => shown(&yellow(bold(unstyled(&span.text)))),
        Ink::Given => shown(&on_yellow(black(bold(unstyled(&span.text))))),
    }
}

/// The texts of the pieces of a picture as they are sent to the terminal, one
/// for each piece and in their order.
pub fn paint_all(spans: &Vec<Span>) -> (painted: Vec<Vec<char>>)
    ensures
        painted@.len() == spans@.len(),
        forall|k: int|
            0 <= k < spans@.len() && spans@[k].ink == Ink::Plain ==> (#[trigger] painted@[k])@
                == spans@[k].text@,
        forall|k: int|
            0 <= k < spans@.len() && !spans@[k].text@.contains(escape()) ==> shows(
                spans@[k].text@,
                (#[trigger] painted@[k])@,
            ),
{
    let mut painted: Vec<Vec<char>> = Vec::new();
    let mut i: usize = 0;
    while i < spans.len()
        invariant
            i <= spans@.len(),
            painted@.len() == i,
            forall|k: int|
                0 <= k < i && spans@[k].ink == Ink::Plain ==> (#[trigger] painted@[k])@
                    == spans@[k].text@,
            forall|k: int|
                0 <= k < i && !spans@[k].text@.contains(escape()) ==> shows(
                    spans@[k].text@,
                    (#[trigger] painted@[k])@,
                ),
        decreases spans.len() - i,
    {
        painted.push(paint(&spans[i]));
        i += 1;
    }
    painted
}

/// No piece of the spans holds an escape character.
pub open spec fn without_escape(spans: Seq<SpanView>) -> bool {
    forall|k: int| 0 <= k < spans.len() ==> !(#[trigger] spans[k]).text.contains(escape())
}

/// Spans without an escape character, put together, hold none.
pub proof fn lemma_without_escape_joined(first: Seq<SpanView>, second: Seq<SpanView>)
    requires
        without_escape(first),
        without_escape(second),
    ensures
        without_escape(first + second),
{
    let joined = first + second;
    assert forall|k: int| 0 <= k < joined.len() implies !(#[trigger] joined[k]).text.contains(
        escape(),
    ) by {
        if k < first.len() {
            assert(joined[k] == first[k]);
        } else {
            assert(joined[k] == second[k - first.len()]);
        }
    }
}

/// No piece of a separator holds an escape character.
pub proof fn lemma_separator_without_escape(row: int)
    ensures
        without_escape(separator_layout(row)),
{
    assert forall|k: int| 0 <= k < 20 implies !(#[trigger] separator_layout(
        row,
    )[k]).text.contains(escape()) by {
        let text = separator_piece(row, k).text;
        if text.contains(escape()) {
            let at = choose|at: int| 0 <= at < text.len() && text[at] == escape();
            assert(text[at] != escape());
        }
    }
}

/// The piece that shows a cell holds no escape character.
pub proof fn lemma_cell_without_escape(cell: CellView)
    ensures
        !cell_span(cell).text.contains(escape()),
{
    let text = cell_span(cell).text;
    if text.contains(escape()) {
        let at = choose|at: int| 0 <= at < text.len() && text[at] == escape();
        if cell.value is Some {
            let digits = decimal(cell.value->0);
            assert(forall|j: int| 0 <= j < digits.len() ==> digits[j] as u32 >= 0x30);
            assert(text[at] as u32 >= 0x20);
        }
        assert(text[at] != escape());
    }
}

/// No piece of the picture of a board holds an escape character: what is
/// painted shows each piece, bare or between escape codes.
pub proof fn lemma_board_without_escape(board: Board)
    ensures
        without_escape(board_layout(board)),
{
    lemma_separator_without_escape(0);
    lemma_separator_without_escape(8);
    lemma_rows_without_escape(board, 9);
    lemma_without_escape_joined(separator_layout(0), rows_layout(board, 9));
    lemma_without_escape_joined(
        separator_layout(0) + rows_layout(board, 9),
        separator_layout(8),
    );
}

proof fn lemma_rows_without_escape(board: Board, rows: int)
    ensures
        without_escape(rows_layout(board, rows)),
    decreases rows,
{
    if rows > 0 {
        let row = rows - 1;
        lemma_rows_without_escape(board, row);
        lemma_cells_without_escape(board, row, 9);
        lemma_separator_without_escape(7);
        lemma_separator_without_escape(row + 1);
        let bar = seq![bar_span(2)];
        let end = seq![line_end()];
        assert(without_escape(bar)) by {
            lemma_bar_without_escape(2);
        }
        assert(without_escape(end)) by {
            let text = line_end().text;
            if text.contains(escape()) {
                let at = choose|at: int| 0 <= at < text.len() && text[at] == escape();
                assert(text[at] != escape());
            }
        }
        lemma_without_escape_joined(bar, cells_layout(board, row, 9));
        lemma_without_escape_joined(bar + cells_layout(board, row, 9), end);
        lemma_without_escape_joined(
            bar + cells_layout(board, row, 9) + end,
            separator_below(row),
        );
        lemma_without_escape_joined(rows_layout(board, row), row_layout(board, row));
    }
}

proof fn lemma_bar_without_escape(column: int)
    ensures
        !bar_span(column).text.contains(escape()),
{
    let text = bar_span(column).text;
    if text.contains(escape()) {
        let at = choose|at: int| 0 <= at < text.len() && text[at] == escape();
        assert(text[at] != escape());
    }
}

proof fn lemma_cells_without_escape(board: Board, row: int, cells: int)
    ensures
        without_escape(cells_layout(board, row, cells)),
    decreases cells,
{
    if cells > 0 {
        lemma_cells_without_escape(board, row, cells - 1);
        lemma_cell_without_escape(board[row * 9 + cells - 1]);
        lemma_bar_without_escape(cells - 1);
        let before = cells_layout(board, row, cells - 1);
        let after = cells_layout(board, row, cells);
        assert forall|k: int| 0 <= k < after.len() implies !(#[trigger] after[k]).text.contains(
            escape(),
        ) by {
            if k < before.len() {
                assert(after[k] == before[k]);
            }
        }
    }
}

} // verus!
