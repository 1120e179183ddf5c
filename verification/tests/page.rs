use shapeshifter::page::{find_from, parse_pieces, parse_shape_tables};

const PAGE: [&str; 11] = [
    "<html><b>LEVEL 3</b><p>ACTIVE SHAPE</p>",
    "<table border=0 cellpadding=0 cellspacing=0>",
    "<tr><td><img src='square.gif'></td><td><img src='blank.gif'></td></tr>",
    "<tr><td><img src='square.gif'></td><td></td></tr>",
    "</table>",
    "<p>NEXT SHAPES</p>",
    "<table border=\"0\" cellpadding=\"0\" cellspacing=\"0\"><tr><td><img src=square.gif></td></tr></table>",
    "<TABLE BORDER=0 CELLPADDING=0 CELLSPACING=0><TR><TD>square.gif</TD><TD>square.gif</TD></TR></TABLE>",
    "<img class=rules_icon>",
    "<table border=0 cellpadding=0 cellspacing=0><tr><td>square.gif</td></tr></table>",
    "</html>",
];

#[test]
fn page_shapes_in_order() {
    let page = PAGE.concat();
    let pieces = parse_pieces(page.as_bytes());
    assert_eq!(
        pieces,
        vec![
            vec![vec![true, false], vec![true, false]],
            vec![vec![true]],
            vec![vec![true, true]],
        ]
    );
}

#[test]
fn page_without_headings_has_no_shapes() {
    let html = "<table border=0 cellpadding=0 cellspacing=0><tr><td>square.gif</td></tr></table>";
    assert!(parse_pieces(html.as_bytes()).is_empty());
}

#[test]
fn active_section_stops_after_two_thousand_bytes() {
    let mut html = String::from("ACTIVE SHAPE");
    html.push_str(&" ".repeat(2000));
    html.push_str("<table border=0 cellpadding=0 cellspacing=0><tr><td>square.gif</td></tr></table>");
    assert!(parse_pieces(html.as_bytes()).is_empty());
    let near = "ACTIVE SHAPE <table border=0 cellpadding=0 cellspacing=0><tr><td>x</td></tr></table>";
    assert_eq!(parse_pieces(near.as_bytes()), vec![vec![vec![false]]]);
}

#[test]
fn tables_with_borders_and_empty_rows_are_skipped() {
    let section = [
        "<table border=1 cellpadding=0 cellspacing=0><tr><td>square.gif</td></tr></table>",
        "<table border=0 cellpadding=0 cellspacing=0><tr></tr></table>",
        "<table border=0 cellpadding=0 cellspacing=0><tr></tr><tr><td>a</td><td>square.gif</td></tr></table>",
    ]
    .concat();
    assert_eq!(parse_shape_tables(section.as_bytes()), vec![vec![vec![false, true]]]);
}

#[test]
fn find_from_gives_first_occurrence_at_or_after_start() {
    let hay = b"abcabcab";
    assert_eq!(find_from(hay, b"bc", 0), Some(1));
    assert_eq!(find_from(hay, b"bc", 2), Some(4));
    assert_eq!(find_from(hay, b"bc", 5), None);
    assert_eq!(find_from(hay, b"ab", 6), Some(6));
    assert_eq!(find_from(hay, b"", 3), Some(3));
    assert_eq!(find_from(hay, b"abcabcabc", 0), None);
}

use shapeshifter::page_icons::{parse_icon_cycle, PageError};
use shapeshifter::page_puzzle::{assignment_positions, board_cells, parse_shapeshifter_html};

const GOAL_TABLE: &str = "<table><tr><td><img src=\"/i/cup_0.gif\"></td><td><img src=\"/i/arrow_0.gif\"></td><td><img src=\"/i/swo_0.gif\">x<br><b><small>GOAL</small></b></td><td><img src=\"/i/arrow_0.gif\"></td><td><img src=\"/i/cup_0.gif\"></td></tr></table>";

#[test]
fn icon_cycle_from_the_goal_table() {
    let (m, entries, list) = parse_icon_cycle(GOAL_TABLE.as_bytes()).unwrap();
    assert_eq!(m, 2);
    assert_eq!(entries, vec![(b"swo".to_vec(), 0), (b"cup".to_vec(), 1)]);
    assert_eq!(list, vec![b"swo".to_vec(), b"cup".to_vec()]);
}

#[test]
fn icon_cycle_falls_back_to_assigned_icons() {
    let html = "imgLocStr[0][0] = \"swo\"; imgLocStr[1][0] = \"cup\"; imgLocStr[2][0] = \"swo\";";
    let (m, entries, list) = parse_icon_cycle(html.as_bytes()).unwrap();
    assert_eq!(m, 2);
    assert_eq!(list, vec![b"cup".to_vec(), b"swo".to_vec()]);
    assert_eq!(entries, vec![(b"cup".to_vec(), 0), (b"swo".to_vec(), 1)]);
}

#[test]
fn icon_cycle_needs_an_icon_in_the_goal_table() {
    let html = "<table><tr><td>GOAL</td></tr></table>";
    assert_eq!(parse_icon_cycle(html.as_bytes()), Err(PageError::NoCycleIcons));
}

fn page(extra: &str) -> String {
    [
        "<b>LEVEL 7</b> gX = 2; gY = 1; imgLocStr[0][0] = \"cup\"; imgLocStr[1][0] = \"swo\";",
        GOAL_TABLE,
        extra,
        "<p>ACTIVE SHAPE</p><table border=0 cellpadding=0 cellspacing=0><tr><td>square.gif</td></tr></table>",
    ]
    .concat()
}

#[test]
fn whole_page_reads_as_a_puzzle() {
    let puzzle = parse_shapeshifter_html(page("").as_bytes()).unwrap();
    assert_eq!(puzzle.level, 7);
    assert_eq!(puzzle.m, 2);
    assert_eq!(puzzle.rows, 1);
    assert_eq!(puzzle.columns, 2);
    assert_eq!(puzzle.board, vec![vec![1, 0]]);
    assert_eq!(puzzle.pieces, vec![vec![vec![true]]]);
    assert_eq!(puzzle.icons, vec!["swo".to_string(), "cup".to_string()]);
}

#[test]
fn page_errors_come_in_reading_order() {
    let won = page("You Won!");
    assert_eq!(parse_shapeshifter_html(won.as_bytes()).err(), Some(PageError::YouWon));
    let no_width = "<b>LEVEL 7</b> gY = 1;";
    assert_eq!(parse_shapeshifter_html(no_width.as_bytes()).err(), Some(PageError::MissingWidth));
    let no_height = "gX = 2;";
    assert_eq!(parse_shapeshifter_html(no_height.as_bytes()).err(), Some(PageError::MissingHeight));
    // The level is read before the finished-game check.
    let huge_level = "LEVEL 99999999999 You Won!";
    assert_eq!(parse_shapeshifter_html(huge_level.as_bytes()).err(), Some(PageError::BadNumber));
    let out_of_order = page("<p>NEXT SHAPES</p>").replace("ACTIVE SHAPE", "active") + "ACTIVE SHAPE";
    assert_eq!(parse_shapeshifter_html(out_of_order.as_bytes()).err(), Some(PageError::HeadingsOutOfOrder));
}

fn capture(col: &str, row: &str, icon: &str) -> Vec<Vec<u8>> {
    vec![col.as_bytes().to_vec(), row.as_bytes().to_vec(), icon.as_bytes().to_vec()]
}

#[test]
fn assignment_positions_read_columns_and_rows() {
    let caps = vec![capture("0", "1", "sword"), capture("2", "0", "crown")];
    let (cols, rows) = assignment_positions(&caps).unwrap();
    assert_eq!(cols, vec![0, 2]);
    assert_eq!(rows, vec![1, 0]);
    let bad = vec![capture("0", "1", "sword"), capture("x", "0", "crown")];
    assert!(assignment_positions(&bad).is_none());
}

#[test]
fn board_cells_take_the_value_of_the_last_assigned_icon() {
    let caps = vec![capture("0", "1", "sword"), capture("2", "0", "crown"), capture("0", "1", "crown")];
    let (cols, rows) = assignment_positions(&caps).unwrap();
    let entries = vec![(b"sword".to_vec(), 0u8), (b"crown".to_vec(), 1u8)];
    let board = board_cells(&caps, &cols, &rows, &entries, 3, 2);
    assert_eq!(board, vec![vec![0, 0, 1], vec![1, 0, 0]]);
}
