use minesweeper::{Configuration, ParseError, Square};

#[test]
fn parses_tokens_and_finds_probe() {
    let conf = Configuration::from("_ * s\n? 3 0".to_string()).unwrap();
    assert_eq!(conf.rows(), 2);
    assert_eq!(conf.cols(), 3);
    assert_eq!((conf.probe_row, conf.probe_col), (1, 0));
    assert_eq!(conf.square(0, 0), Square::Empty);
    assert_eq!(conf.square(0, 1), Square::Mine);
    assert_eq!(conf.square(0, 2), Square::Safe);
    assert_eq!(conf.square(1, 0), Square::Probe);
    assert_eq!(conf.square(1, 1), Square::Number(3));
    assert_eq!(conf.square(1, 2), Square::Number(0));
    assert!(conf.is_mine(0, 1));
    assert!(conf.is_empty(1, 0));
    assert!(conf.is_empty(0, 0));
    assert!(!conf.is_empty(0, 2));
}

#[test]
fn blank_lines_and_tabs_are_skipped() {
    let conf = Configuration::from("\n  ?\t1 \r\n\n _ _\n".to_string()).unwrap();
    assert_eq!(conf.rows(), 2);
    assert_eq!(conf.cols(), 2);
}

#[test]
fn invalid_token_is_refused() {
    assert_eq!(Configuration::from("? x".to_string()).err(), Some(ParseError::InvalidToken));
    assert_eq!(Configuration::from("? 9".to_string()).err(), Some(ParseError::InvalidToken));
    assert_eq!(Configuration::from("? 10".to_string()).err(), Some(ParseError::InvalidToken));
}

#[test]
fn ragged_rows_are_refused() {
    assert_eq!(Configuration::from("? 1\n_".to_string()).err(), Some(ParseError::RaggedRows));
}

#[test]
fn missing_probe_is_refused() {
    assert_eq!(Configuration::from("1 _\n_ _".to_string()).err(), Some(ParseError::NoProbe));
    assert_eq!(Configuration::from("".to_string()).err(), Some(ParseError::NoProbe));
}

#[test]
fn second_probe_is_refused() {
    assert_eq!(Configuration::from("? _\n_ ?".to_string()).err(), Some(ParseError::MultipleProbes));
}

#[test]
fn token_conversion() {
    assert_eq!(Square::from(&vec!['8']), Some(Square::Number(8)));
    assert_eq!(Square::from(&vec!['?']), Some(Square::Probe));
    assert_eq!(Square::from(&vec!['1', '2']), None);
    assert_eq!(Square::from(&vec![]), None);
}

#[test]
fn neighbours_of_corner_edge_and_centre() {
    let conf = Configuration::from("? _ _\n_ _ _\n_ _ _".to_string()).unwrap();
    assert_eq!(conf.neighbours(0, 0), vec![(0, 1), (1, 0), (1, 1)]);
    assert_eq!(conf.neighbours(0, 1), vec![(0, 0), (0, 2), (1, 0), (1, 1), (1, 2)]);
    assert_eq!(
        conf.neighbours(1, 1),
        vec![(0, 0), (0, 1), (0, 2), (1, 0), (1, 2), (2, 0), (2, 1), (2, 2)]
    );
    assert_eq!(conf.neighbours(2, 2), vec![(1, 1), (1, 2), (2, 1)]);
}

#[test]
fn neighbours_are_symmetric() {
    let conf = Configuration::from("? _ _ _\n_ _ _ _\n_ _ _ _".to_string()).unwrap();
    for r in 0..3 {
        for c in 0..4 {
            for (r2, c2) in conf.neighbours(r, c) {
                assert!(conf.neighbours(r2, c2).contains(&(r, c)));
                assert!((r2, c2) != (r, c));
            }
        }
    }
}

#[test]
fn every_white_space_separates_tokens() {
    let conf = Configuration::from("?\u{0C}1".to_string()).unwrap();
    assert_eq!(conf.cols(), 2);
    assert_eq!(conf.square(0, 1), Square::Number(1));
    let conf = Configuration::from("?\u{0B}1\u{A0}_\u{3000}s\n_\u{2003}_ _ _".to_string()).unwrap();
    assert_eq!(conf.rows(), 2);
    assert_eq!(conf.cols(), 4);
}
