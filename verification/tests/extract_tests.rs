use queens_board::board::{Mark, Rgb};
use queens_board::error::Error;
use queens_board::extract::board_from_styles;
use queens_board::markup::extract_board;
use queens_board::style::parse_style;

#[test]
fn parse_style_plain() {
    let r = parse_style("background-color: rgb(255, 0, 0)");
    assert!(matches!(r, Ok(Rgb(255, 0, 0))));
}

#[test]
fn parse_style_no_space_after_commas() {
    let r = parse_style("background-color:rgb(1,2,3)");
    assert!(matches!(r, Ok(Rgb(1, 2, 3))));
}

#[test]
fn parse_style_after_other_declarations() {
    let r = parse_style("width: 40px; background-color: rgb(9, 8, 7); border: none");
    assert!(matches!(r, Ok(Rgb(9, 8, 7))));
}

#[test]
fn parse_style_leading_zeros() {
    let r = parse_style("background-color: rgb(007, 0, 255)");
    assert!(matches!(r, Ok(Rgb(7, 0, 255))));
}

#[test]
fn parse_style_without_rgb_pattern_is_malformed() {
    match parse_style("color: red") {
        Err(Error::MalformedColor { raw_text }) => assert_eq!(raw_text, "color: red"),
        other => panic!("expected MalformedColor, got {:?}", other),
    }
}

#[test]
fn parse_style_unclosed_is_malformed() {
    assert!(matches!(
        parse_style("background-color: rgb(1, 2"),
        Err(Error::MalformedColor { .. })
    ));
}

#[test]
fn parse_style_space_inside_rgb_is_malformed() {
    assert!(matches!(
        parse_style("background-color: rgb (1, 2, 3)"),
        Err(Error::MalformedColor { .. })
    ));
}

#[test]
fn parse_style_channel_over_255() {
    match parse_style("background-color: rgb(300, 0, 0)") {
        Err(Error::InvalidChannelValue { raw_text }) => assert_eq!(raw_text, "300"),
        other => panic!("expected InvalidChannelValue, got {:?}", other),
    }
}

#[test]
fn parse_style_reports_first_bad_channel() {
    match parse_style("background-color: rgb(1, 999, 4096)") {
        Err(Error::InvalidChannelValue { raw_text }) => assert_eq!(raw_text, "999"),
        other => panic!("expected InvalidChannelValue, got {:?}", other),
    }
}

fn styles(rows: &[&[&str]]) -> Vec<Vec<String>> {
    rows.iter().map(|row| row.iter().map(|s| s.to_string()).collect()).collect()
}

#[test]
fn two_by_two_extraction() {
    let grid = styles(&[
        &["background-color: rgb(255, 0, 0)", "background-color: rgb(0, 255, 0)"],
        &["background-color: rgb(0, 0, 255)", "background-color: rgb(0, 0, 0)"],
    ]);
    let (board, width, height) = board_from_styles(&grid).unwrap();
    assert_eq!(width, 2);
    assert_eq!(height, 2);
    assert_eq!(board.square_count(), 4);
    let expected = [
        (0, 0, Rgb(255, 0, 0)),
        (1, 0, Rgb(0, 255, 0)),
        (0, 1, Rgb(0, 0, 255)),
        (1, 1, Rgb(0, 0, 0)),
    ];
    for (x, y, colour) in expected {
        let sq = board.get_square(x, y).unwrap();
        assert_eq!(sq.colour, colour);
        assert!(matches!(sq.mark, Mark::Empty));
    }
    assert!(board.get_square(2, 0).is_none());
    assert!(board.get_square(0, 2).is_none());
    assert!(board.get_square(2, 2).is_none());
}

#[test]
fn ragged_rows_keep_their_own_lengths() {
    let grid = styles(&[
        &["background-color: rgb(1, 1, 1)"],
        &["background-color: rgb(2, 2, 2)", "background-color: rgb(3, 3, 3)"],
    ]);
    let (board, width, height) = board_from_styles(&grid).unwrap();
    assert_eq!(width, 2);
    assert_eq!(height, 2);
    assert_eq!(board.square_count(), 3);
    assert!(board.get_square(0, 0).is_some());
    assert!(board.get_square(1, 0).is_none());
    assert!(board.get_square(1, 1).is_some());
}

#[test]
fn empty_grid_extracts_empty_board() {
    let grid: Vec<Vec<String>> = Vec::new();
    let (board, width, height) = board_from_styles(&grid).unwrap();
    assert_eq!(width, 0);
    assert_eq!(height, 0);
    assert_eq!(board.square_count(), 0);
    assert!(board.get_square(0, 0).is_none());
}

#[test]
fn extraction_stops_at_first_bad_tile() {
    let grid = styles(&[
        &["background-color: rgb(1, 1, 1)", "color: red"],
        &["background-color: rgb(999, 0, 0)"],
    ]);
    match board_from_styles(&grid) {
        Err(Error::MalformedColor { raw_text }) => assert_eq!(raw_text, "color: red"),
        other => panic!("expected MalformedColor, got {:?}", other),
    }
}

#[test]
fn extraction_reports_bad_channel() {
    let grid = styles(&[&["background-color: rgb(0, 256, 0)"]]);
    match board_from_styles(&grid) {
        Err(Error::InvalidChannelValue { raw_text }) => assert_eq!(raw_text, "256"),
        other => panic!("expected InvalidChannelValue, got {:?}", other),
    }
}

const BOARD_HTML: &str = "<div class=\"board\">\
<div class=\"row\">\
<div class=\"tile\" style=\"background-color: rgb(255, 0, 0)\"></div>\
<div class=\"tile\" style=\"background-color: rgb(0, 255, 0)\"></div>\
</div>\
<div class=\"row\">\
<div class=\"tile\" style=\"background-color: rgb(0, 0, 255)\"></div>\
<div class=\"tile\" style=\"background-color: rgb(0, 0, 0)\"></div>\
</div>\
</div>";

#[test]
fn extract_board_from_markup() {
    let (board, width, height) =
        extract_board(BOARD_HTML, "div.board", "div.row", "div.tile").unwrap();
    assert_eq!(width, 2);
    assert_eq!(height, 2);
    assert_eq!(board.get_square(0, 0).unwrap().colour, Rgb(255, 0, 0));
    assert_eq!(board.get_square(1, 0).unwrap().colour, Rgb(0, 255, 0));
    assert_eq!(board.get_square(0, 1).unwrap().colour, Rgb(0, 0, 255));
    assert_eq!(board.get_square(1, 1).unwrap().colour, Rgb(0, 0, 0));
    for y in 0..2 {
        for x in 0..2 {
            assert!(matches!(board.get_square(x, y).unwrap().mark, Mark::Empty));
        }
    }
    assert!(board.get_square(2, 0).is_none());
}

#[test]
fn extract_board_missing_container() {
    let r = extract_board("<p>no board here</p>", "div.board", "div.row", "div.tile");
    assert!(matches!(r, Err(Error::MissingElement { .. })));
}

#[test]
fn extract_board_tile_without_style() {
    let html = "<div class=\"board\"><div class=\"row\">\
<div class=\"tile\"></div></div></div>";
    match extract_board(html, "div.board", "div.row", "div.tile") {
        Err(Error::MissingElement { context }) => assert_eq!(context, "style"),
        other => panic!("expected MissingElement, got {:?}", other),
    }
}

#[test]
fn extract_board_bad_tile_reports_error() {
    let html = "<div class=\"board\"><div class=\"row\">\
<div class=\"tile\" style=\"color: red\"></div></div></div>";
    assert!(matches!(
        extract_board(html, "div.board", "div.row", "div.tile"),
        Err(Error::MalformedColor { .. })
    ));
}
