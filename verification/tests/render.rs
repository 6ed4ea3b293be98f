use sudoku::models::{Sudoku, SudokuCell};
use sudoku::render::{board_spans, cell_piece, paint, paint_all, separator_spans, Ink, Span};

fn text_of(spans: &[Span]) -> String {
    spans.iter().flat_map(|span| span.text.iter()).collect()
}

#[test]
fn the_top_of_the_frame() {
    let spans = separator_spans(0);
    assert_eq!(spans.len(), 20);
    assert_eq!(
        text_of(&spans),
        "╔═══╤═══╤═══╦═══╤═══╤═══╦═══╤═══╤═══╗\n"
    );
    for span in &spans[0..19] {
        assert_eq!(span.ink, Ink::Frame);
    }
    assert_eq!(spans[19].ink, Ink::Plain);
    assert_eq!(spans[1].text, vec!['═', '═', '═']);
}

#[test]
fn the_separators_between_the_rows() {
    assert_eq!(
        text_of(&separator_spans(1)),
        "╟───┼───┼───╫───┼───┼───╫───┼───┼───╢\n"
    );
    assert_eq!(
        text_of(&separator_spans(3)),
        "╠═══╪═══╪═══╬═══╪═══╪═══╬═══╪═══╪═══╣\n"
    );
    assert_eq!(text_of(&separator_spans(2)), text_of(&separator_spans(7)));
    assert_eq!(text_of(&separator_spans(6)), text_of(&separator_spans(3)));
    assert_eq!(
        text_of(&separator_spans(8)),
        "╚═══╧═══╧═══╩═══╧═══╧═══╩═══╧═══╧═══╝\n"
    );
}

#[test]
fn the_pieces_of_the_cells() {
    let given = cell_piece(&SudokuCell::new(7));
    assert_eq!(given.text, vec![' ', '7', ' ']);
    assert_eq!(given.ink, Ink::Given);
    let mut written = SudokuCell::new(0);
    written.set_value(3);
    let piece = cell_piece(&written);
    assert_eq!(piece.text, vec![' ', '3', ' ']);
    assert_eq!(piece.ink, Ink::Plain);
    let open = cell_piece(&SudokuCell::new(0));
    assert_eq!(open.text, vec![' ', ' ', ' ']);
    assert_eq!(open.ink, Ink::Plain);
    assert_eq!(cell_piece(&SudokuCell::new(10)).text, vec![' ', '1', '0', ' ']);
    assert_eq!(
        cell_piece(&SudokuCell::new(255)).text,
        vec![' ', '2', '5', '5', ' ']
    );
    assert_eq!(
        cell_piece(&SudokuCell::new(104)).text,
        vec![' ', '1', '0', '4', ' ']
    );
}

#[test]
fn the_picture_of_a_board() {
    let mut values = vec![0u8; 81];
    values[0] = 5;
    values[80] = 9;
    let mut sudoku = Sudoku::new(values).unwrap();
    sudoku.cells[1].set_value(3);
    let spans = board_spans(&sudoku);
    let text = text_of(&spans);
    let lines: Vec<&str> = text.lines().collect();
    assert_eq!(lines.len(), 19);
    assert_eq!(lines[0], "╔═══╤═══╤═══╦═══╤═══╤═══╦═══╤═══╤═══╗");
    assert_eq!(lines[1], "║ 5 │ 3 │   ║   │   │   ║   │   │   ║");
    assert_eq!(lines[2], "╟───┼───┼───╫───┼───┼───╫───┼───┼───╢");
    assert_eq!(lines[3], "║   │   │   ║   │   │   ║   │   │   ║");
    assert_eq!(lines[6], "╠═══╪═══╪═══╬═══╪═══╪═══╬═══╪═══╪═══╣");
    assert_eq!(lines[12], "╠═══╪═══╪═══╬═══╪═══╪═══╬═══╪═══╪═══╣");
    assert_eq!(lines[16], "╟───┼───┼───╫───┼───┼───╫───┼───┼───╢");
    assert_eq!(lines[17], "║   │   │   ║   │   │   ║   │   │ 9 ║");
    assert_eq!(lines[18], "╚═══╧═══╧═══╩═══╧═══╧═══╩═══╧═══╧═══╝");
    assert!(text.ends_with("╝\n"));

    // The top of the frame, then the first row.
    assert_eq!(spans[20].text, vec!['║']);
    assert_eq!(spans[20].ink, Ink::Bar);
    assert_eq!(spans[21].ink, Ink::Given);
    assert_eq!(spans[22].text, vec!['│']);
    assert_eq!(spans[22].ink, Ink::Bar);
    assert_eq!(spans[23].ink, Ink::Plain);
    assert_eq!(spans[23].text, vec![' ', '3', ' ']);
    assert_eq!(spans[26].text, vec!['║']);
    assert_eq!(spans.len(), 20 + 9 * 20 + 8 * 20 + 20);
}

#[test]
fn plain_pieces_are_sent_as_they_are() {
    let span = Span { text: vec![' ', '4', ' '], ink: Ink::Plain };
    assert_eq!(paint(&span), vec![' ', '4', ' ']);
    let spans = separator_spans(4);
    let painted = paint_all(&spans);
    assert_eq!(painted.len(), 20);
    assert_eq!(painted[19], vec!['\n']);
}

#[test]
fn the_inks_are_laid_on_by_colored() {
    let frame = Span { text: vec!['╔'], ink: Ink::Frame };
    let bar = Span { text: vec!['║'], ink: Ink::Bar };
    let given = Span { text: vec![' ', '5', ' '], ink: Ink::Given };

    colored::control::set_override(true);
    let painted: String = paint(&frame).into_iter().collect();
    assert_eq!(painted, "\u{1b}[1;33m╔\u{1b}[0m");
    let painted: String = paint(&bar).into_iter().collect();
    assert_eq!(painted, "\u{1b}[33m║\u{1b}[0m");
    let painted: String = paint(&given).into_iter().collect();
    assert_eq!(painted, "\u{1b}[1;43;30m 5 \u{1b}[0m");

    colored::control::set_override(false);
    let painted: String = paint(&frame).into_iter().collect();
    assert_eq!(painted, "╔");
    let painted: String = paint(&given).into_iter().collect();
    assert_eq!(painted, " 5 ");
    colored::control::unset_override();
}

#[test]
fn painted_pieces_show_their_text() {
    let mut values = vec![0u8; 81];
    values[0] = 5;
    let sudoku = Sudoku::new(values).unwrap();
    let spans = board_spans(&sudoku);
    for switched_on in [true, false] {
        colored::control::set_override(switched_on);
        let painted = paint_all(&spans);
        assert_eq!(painted.len(), spans.len());
        for (span, piece) in spans.iter().zip(painted.iter()) {
            let text: String = span.text.iter().collect();
            let piece: String = piece.iter().collect();
            assert!(!text.contains('\u{1b}'));
            if span.ink == Ink::Plain || !switched_on {
                assert_eq!(piece, text);
            } else {
                assert!(piece.starts_with("\u{1b}["));
                assert!(piece.ends_with(&format!("m{}\u{1b}[0m", text)));
                assert_eq!(piece.matches('\u{1b}').count(), 2);
            }
        }
    }
    colored::control::unset_override();
}

#[test]
fn the_picture_shows_the_first_81_cells() {
    let sudoku = Sudoku::new(vec![0u8; 81]).unwrap();
    let mut longer = Sudoku::new(vec![0u8; 81]).unwrap();
    longer.cells.push(SudokuCell::new(7));
    longer.cells.push(SudokuCell::new(8));
    assert_eq!(board_spans(&longer), board_spans(&sudoku));
}
