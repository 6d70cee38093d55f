use sudoku::Grid;
use sudoku::ParseDigitError;
use sudoku::ParseGridError;

#[test]
fn round_trip() {
    let input = "\
        5,3,_,_,7,_,_,_,_,\
        6,_,_,1,9,5,_,_,_,\
        _,9,8,_,_,_,_,6,_,\
        8,_,_,_,6,_,_,_,3,\
        4,_,_,8,_,3,_,_,1,\
        7,_,_,_,2,_,_,_,6,\
        _,6,_,_,_,_,2,8,_,\
        _,_,_,4,1,9,_,_,5,\
        _,_,_,_,8,_,_,7,9";
    let grid = input.parse::<Grid>().unwrap();
    let rendered = grid.render();
    let decoded = Grid::decode(&rendered).unwrap();
    assert_eq!(decoded, grid);
}

#[test]
fn render_layout() {
    let mut text = String::new();
    for row in 0..9 {
        if row > 0 {
            text.push('\n');
        }
        for col in 0..9 {
            if row == 0 && col == 0 {
                text.push('3');
            } else {
                text.push('_');
            }
            text.push(',');
        }
    }
    let source: String = text.chars().filter(|c| *c != '\n').collect();
    let grid = source.parse::<Grid>().unwrap();
    let rendered = grid.render();
    assert_eq!(rendered, text.into_bytes());
}

#[test]
fn token_count_of_82_rejected() {
    let mut text = String::new();
    for i in 0..82 {
        if i > 0 {
            text.push(',');
        }
        text.push('_');
    }
    let err = text.parse::<Grid>().err().unwrap();
    assert!(matches!(err, ParseGridError::InvalidDigitCount));
}

#[test]
fn token_count_of_80_rejected() {
    let mut text = String::new();
    for i in 0..80 {
        if i > 0 {
            text.push(',');
        }
        text.push('_');
    }
    let err = text.parse::<Grid>().err().unwrap();
    assert!(matches!(err, ParseGridError::InvalidDigitCount));
}

#[test]
fn unknown_tokens_rejected() {
    for bad in ["x", "0"] {
        let mut text = String::new();
        for i in 0..81 {
            if i > 0 {
                text.push(',');
            }
            if i == 40 {
                text.push_str(bad);
            } else {
                text.push('_');
            }
        }
        let err = text.parse::<Grid>().err().unwrap();
        assert!(matches!(
            err,
            ParseGridError::ParseDigit(ParseDigitError::Unknown)
        ));
    }
}

#[test]
fn equality_ignores_given_flag() {
    let input = "\
        1,2,3,4,5,6,7,8,9,\
        4,5,6,7,8,9,1,2,3,\
        7,8,9,1,2,3,4,5,6,\
        2,3,4,5,6,7,8,9,1,\
        5,6,7,8,9,1,2,3,4,\
        8,9,1,2,3,4,5,6,7,\
        3,4,5,6,7,8,9,1,2,\
        6,7,8,9,1,2,3,4,5,\
        9,1,2,3,4,5,6,7,_";
    // the solver fills the one free cell; the emitted grid differs from
    // the fully given one only in the flag, which equality ignores
    let all_given = input.replace('_', "8").parse::<Grid>().unwrap();
    let grid = input.parse::<Grid>().unwrap();
    let mut solver = grid.solve().unwrap();
    let solution = solver.next().unwrap();
    assert_eq!(solution, all_given);
    assert!(solver.next().is_none());
}
