use stickpath::Graph;
use stickpath::ParseError;
use stickpath::solve_puzzle;

#[test]
fn example1() {
    let input = "A  B  C\n\
                 |  |  |\n\
                 |--|  |\n\
                 |  |--|\n\
                 |  |--|\n\
                 |  |  |\n\
                 1  2  3\n";

    let sticky_path = Graph::from_str(input).unwrap();

    let res = sticky_path.solve_all();
    assert_eq!(
        res,
        vec!["A2".to_string(), "B1".to_string(), "C3".to_string()]
    )
}

#[test]
fn example1_whatever_labels() {
    let input = "7  \"  %\n\
                 |  |  |\n\
                 |--|  |\n\
                 |  |--|\n\
                 |  |--|\n\
                 |  |  |\n\
                 |  +  |\n";

    let sticky_path = Graph::from_str(input).unwrap();

    let res = sticky_path.solve_all();
    assert_eq!(
        res,
        vec!["7+".to_string(), "\"|".to_string(), "%|".to_string()]
    )
}

#[test]
fn example2() {
    let input = "P  Q  R  S  T  U  V  W\n\
                 |  |  |  |  |--|  |  |\n\
                 |  |  |--|  |  |  |--|\n\
                 |  |--|  |--|  |  |  |\n\
                 |--|  |--|  |  |  |--|\n\
                 |--|  |  |  |  |--|  |\n\
                 |  |--|  |  |--|  |--|\n\
                 |  |  |  |--|  |--|  |\n\
                 |--|  |  |  |--|  |  |\n\
                 |  |  |--|  |  |  |  |\n\
                 |  |  |  |--|  |  |--|\n\
                 |  |  |  |  |--|  |  |\n\
                 |--|  |  |  |  |  |  |\n\
                 |--|  |--|  |  |  |--|\n\
                 |  |--|  |  |--|  |  |\n\
                 |  |  |--|  |  |  |--|\n\
                 |--|  |--|  |  |--|  |\n\
                 1  2  3  4  5  6  7  8";

    let sticky_path = Graph::from_str(input).unwrap();

    let res = sticky_path.solve_all();
    assert_eq!(
        res,
        vec![
            "P3".to_string(),
            "Q7".to_string(),
            "R8".to_string(),
            "S5".to_string(),
            "T6".to_string(),
            "U2".to_string(),
            "V4".to_string(),
            "W1".to_string(),
        ]
    )
}

#[test]
fn invalid_graphs() {
    let input = "A B  C\n\
                 |  |  |\n\
                 |--|  |\n\
                 |  |--|\n\
                 |  |--|\n\
                 |  |  |\n\
                 1  2  3\n";
    assert!(Graph::from_str(input).is_err());

    let input = "A  B  C\n\
                 |  |  |\n\
                 |--*  |\n\
                 |  |--|\n\
                 |  |--|\n\
                 |  |  |\n\
                 1  2  3\n";
    assert!(Graph::from_str(input).is_err());

    let input = "A  B  C\n\
                 |  |  |\n\
                 |--|  |\n\
                 |  |- |\n\
                 |  |--|\n\
                 |  |  |\n\
                 1  2  3\n";
    assert!(Graph::from_str(input).is_err());

    let input = "A  B  C\n\
                 |  |  |\n\
                 |--|  |\n\
                 |  |--|  |\n\
                 |  |--|  |\n\
                 |  |  |--|\n\
                 1  2  3\n";
    assert!(Graph::from_str(input).is_err());

    let input = "A  B  C\n\
                 |  |  |\n\
                 |--|  |\n\
                 |  |--|\n\
                 |  |--|\n\
                 |  |  |
                 1  2  3\n";
    assert!(Graph::from_str(input).is_err());

    let input = "A  B  C\n\
                 |  |  |\n\
                 |--|  |\n\
                 |  |--|\n\
                 |  |--|\n\
                 |  |  |\n\
                 1| 2  3\n";
    assert!(Graph::from_str(input).is_err());

    let input = "A  B  C\n\
                 |  |  |\n\
                 |--|  |\n\
                 |  |--|\n\
                 |  |--|\n\
                 |  |  |\n\
                 1 2  3\n";
    assert!(Graph::from_str(input).is_err());
}

#[test]
fn rejects_too_few_rows() {
    let input = "A  B\n|  |\n";
    assert_eq!(Graph::from_str(input), Err(ParseError::TooFewRows));
}

#[test]
fn rejects_invalid_width() {
    let input = "A   B\n|   |\n1   2\n";
    assert_eq!(Graph::from_str(input), Err(ParseError::InvalidWidth));
}

#[test]
fn rejects_inconsistent_width() {
    let input = "A  B  C\n|  |  |  |\n1  2  3\n";
    assert_eq!(Graph::from_str(input), Err(ParseError::InconsistentWidth));
}

#[test]
fn rejects_missing_lane_bar() {
    let input = "A  B  C\n|  x  |\n1  2  3\n";
    assert_eq!(Graph::from_str(input), Err(ParseError::MissingLaneBar));
}

#[test]
fn rejects_invalid_rung_slot() {
    let input = "A  B  C\n| -|  |\n1  2  3\n";
    assert_eq!(Graph::from_str(input), Err(ParseError::InvalidRungSlot));
}

#[test]
fn rejects_invalid_label_row() {
    let input = "A B   C\n|  |  |\n1  2  3\n";
    assert_eq!(Graph::from_str(input), Err(ParseError::InvalidLabelRow));
}

#[test]
fn rejects_label_glyph_in_bottom_row() {
    let input = "A  B  C\n|  |  |\n1| 2  3\n";
    assert_eq!(Graph::from_str(input), Err(ParseError::InvalidLabelRow));
}

#[test]
fn gate_rejects_dimension_mismatch() {
    // A perfectly well-formed diagram whose declared height disagrees.
    let input = "A  B  C\n|  |  |\n1  2  3\n";
    assert_eq!(
        solve_puzzle(7, 4, input),
        Err(ParseError::DimensionMismatch)
    );
    // Declared width disagrees.
    assert_eq!(
        solve_puzzle(10, 3, input),
        Err(ParseError::DimensionMismatch)
    );
    // Declared width below the allowed envelope.
    let narrow = "A\n|\n1\n";
    assert_eq!(
        solve_puzzle(1, 3, narrow),
        Err(ParseError::DimensionMismatch)
    );
}

#[test]
fn gate_rejects_excessive_height() {
    let mut text = String::new();
    text.push_str("A  B\n");
    for _ in 0..110 {
        text.push_str("|  |\n");
    }
    text.push_str("1  2\n");
    assert_eq!(
        solve_puzzle(4, 112, &text),
        Err(ParseError::DimensionMismatch)
    );
}

#[test]
fn gate_propagates_parse_errors() {
    let input = "A  B\n|  |\n";
    assert_eq!(solve_puzzle(4, 2, input), Err(ParseError::TooFewRows));
}

#[test]
fn gate_accepts_matching_dimensions() {
    let input = "A  B  C\n|  |  |\n1  2  3\n";
    let res = solve_puzzle(7, 3, input).unwrap();
    assert_eq!(
        res,
        vec!["A1".to_string(), "B2".to_string(), "C3".to_string()]
    );
}

#[test]
fn tracing_twice_is_deterministic() {
    let input = "A  B  C\n\
                 |  |  |\n\
                 |--|  |\n\
                 |  |--|\n\
                 1  2  3\n";
    let g = Graph::from_str(input).unwrap();
    let first = g.solve_all();
    let second = g.solve_all();
    assert_eq!(first, second);
}

#[test]
fn reparsing_canonical_text_yields_equal_grid() {
    let input = "A  B  C\n\
                 |  |  |\n\
                 |--|  |\n\
                 |  |--|\n\
                 1  2  3\n";
    let g = Graph::from_str(input).unwrap();
    let text = g.to_text();
    assert_eq!(text, input);
    let reparsed = Graph::from_str(&text).unwrap();
    assert_eq!(g, reparsed);
    assert_eq!(g.solve_all(), reparsed.solve_all());
}

#[test]
fn outputs_form_a_permutation_of_bottom_labels() {
    let input = "P  Q  R  S  T  U  V  W\n\
                 |  |  |  |  |--|  |  |\n\
                 |  |--|  |--|  |  |--|\n\
                 |--|  |--|  |  |--|  |\n\
                 1  2  3  4  5  6  7  8";
    let g = Graph::from_str(input).unwrap();
    let res = g.solve_all();
    assert_eq!(res.len(), 8);
    let mut bottoms: Vec<char> = res
        .iter()
        .map(|pair| pair.chars().nth(1).unwrap())
        .collect();
    bottoms.sort();
    assert_eq!(bottoms, vec!['1', '2', '3', '4', '5', '6', '7', '8']);
}

#[test]
fn accessors_report_grid_shape() {
    let input = "A  B  C\n|  |  |\n1  2  3\n";
    let g = Graph::from_str(input).unwrap();
    assert_eq!(g.height(), 3);
    assert_eq!(g.width(), 7);
    assert!(g.is_valid(3, 7));
    assert!(!g.is_valid(4, 7));
    assert!(!g.is_valid(3, 6));
    assert_eq!(g.top_labels(), vec!['A', ' ', ' ', 'B', ' ', ' ', 'C']);
}

#[test]
fn get_reads_cells_and_blanks_off_grid() {
    let input = "A  B  C\n|--|  |\n1  2  3\n";
    let g = Graph::from_str(input).unwrap();
    assert_eq!(g.get((0, 0)), Some('A'));
    assert_eq!(g.get((1, 1)), Some('-'));
    assert_eq!(g.get((2, 6)), Some('3'));
    assert_eq!(g.get((3, 0)), None);
    assert_eq!(g.get((0, 7)), None);
    assert_eq!(g.neighbor_positions((1, 3)), ('-', '2', ' '));
    assert_eq!(g.neighbor_positions((1, 0)), (' ', '1', '-'));
}

#[test]
fn solve_from_column_follows_single_rung() {
    let input = "A  B  C\n\
                 |--|  |\n\
                 1  2  3\n";
    let g = Graph::from_str(input).unwrap();
    assert_eq!(g.solve_from_column(0), '2');
    assert_eq!(g.solve_from_column(3), '1');
    assert_eq!(g.solve_from_column(6), '3');
}
