use sudoku::Grid;
use sudoku::SolverError;

#[test]
fn invalid_inputs() {
    let not_digit = "\
        _,_,_,_,_,_,_,_,_,\
        _,_,_,_,_,_,_,_,_,\
        _,_,_,_,_,_,_,_,_,\
        _,_,_,_,_,_,_,_,_,\
        _,_,_,_,x,_,_,_,_,\
        _,_,_,_,_,_,_,_,_,\
        _,_,_,_,_,_,_,_,_,\
        _,_,_,_,_,_,_,_,_,\
        _,_,_,_,_,_,_,_,_";
    assert!(not_digit.parse::<Grid>().is_err());
    let not_in_range = "\
        _,_,_,_,_,_,_,_,_,\
        _,_,_,_,_,_,_,_,_,\
        _,_,_,_,_,_,_,_,_,\
        _,_,_,_,_,_,_,_,_,\
        _,_,_,_,0,_,_,_,_,\
        _,_,_,_,_,_,_,_,_,\
        _,_,_,_,_,_,_,_,_,\
        _,_,_,_,_,_,_,_,_,\
        _,_,_,_,_,_,_,_,_";
    assert!(not_in_range.parse::<Grid>().is_err());
    let invalid_count = "\
        _,_,_,_,_,_,_,_,_,\
        _,_,_,_,_,_,_,_,_,\
        _,_,_,_,_,_,_,_,_,\
        _,_,_,_,_,_,_,_,_,_,\
        _,_,_,_,_,_,_,_,_,\
        _,_,_,_,_,_,_,_,_,\
        _,_,_,_,_,_,_,_,_,\
        _,_,_,_,_,_,_,_,_,\
        _,_,_,_,_,_,_,_,_";
    assert!(invalid_count.parse::<Grid>().is_err());
    let repetition = "\
        _,_,_,_,_,_,_,_,_,\
        _,_,_,_,_,_,_,_,_,\
        _,_,_,_,_,_,_,_,_,\
        _,_,_,_,_,_,_,_,_,\
        _,_,_,_,_,_,_,_,_,\
        _,_,_,_,_,_,_,_,_,\
        _,_,_,_,_,_,_,_,_,\
        _,_,_,_,_,_,_,1,_,\
        _,_,_,_,_,_,_,_,1";
    let repetition = repetition.parse::<Grid>().unwrap();
    assert!(repetition.solve().is_err());
}

#[test]
fn one_solution() {
    let input = "\
        5,3,_,_,7,_,_,_,_,\
        6,_,_,1,9,5,_,_,_,\
        _,9,8,_,_,_,_,6,_,\
        8,_,_,_,6,_,_,_,3,\
        4,_,_,8,_,3,_,_,1,\
        7,_,_,_,2,_,_,_,6,\
        _,6,_,_,_,_,2,8,_,\
        _,_,_,4,1,9,_,_,5,\
        _,_,_,_,8,_,_,7,9";
    let expected = "\
        5,3,4,6,7,8,9,1,2,\
        6,7,2,1,9,5,3,4,8,\
        1,9,8,3,4,2,5,6,7,\
        8,5,9,7,6,1,4,2,3,\
        4,2,6,8,5,3,7,9,1,\
        7,1,3,9,2,4,8,5,6,\
        9,6,1,5,3,7,2,8,4,\
        2,8,7,4,1,9,6,3,5,\
        3,4,5,2,8,6,1,7,9";
    let input = input.parse::<Grid>().unwrap();
    let expected = expected.parse::<Grid>().unwrap();
    assert_ne!(input, expected);
    let mut solver = input.solve().unwrap();
    assert_eq!(solver.next().unwrap(), expected);
    assert!(solver.next().is_none());
}

#[test]
fn two_solutions() {
    // only the last 2 digits differ from one_solution
    let input = "\
        5,3,_,_,7,_,_,_,_,\
        6,_,_,1,9,5,_,_,_,\
        _,9,8,_,_,_,_,6,_,\
        8,_,_,_,6,_,_,_,3,\
        4,_,_,8,_,3,_,_,1,\
        7,_,_,_,2,_,_,_,6,\
        _,6,_,_,_,_,2,8,_,\
        _,_,_,4,1,9,_,_,5,\
        _,_,_,_,8,_,_,_,_";
    let input = input.parse::<Grid>().unwrap();
    let mut solver = input.solve().unwrap();
    assert!(solver.next().is_some());
    assert!(solver.next().is_some());
    assert!(solver.next().is_none());
}

#[test]
fn two_solutions_distinct_and_valid() {
    let input = "\
        5,3,_,_,7,_,_,_,_,\
        6,_,_,1,9,5,_,_,_,\
        _,9,8,_,_,_,_,6,_,\
        8,_,_,_,6,_,_,_,3,\
        4,_,_,8,_,3,_,_,1,\
        7,_,_,_,2,_,_,_,6,\
        _,6,_,_,_,_,2,8,_,\
        _,_,_,4,1,9,_,_,5,\
        _,_,_,_,8,_,_,_,_";
    let input = input.parse::<Grid>().unwrap();
    let mut solver = input.solve().unwrap();
    let a = solver.next().unwrap();
    let b = solver.next().unwrap();
    assert!(solver.next().is_none());
    assert_ne!(a, b);
    for solution in [a, b] {
        assert!(houses_complete(&solution));
    }
}

#[test]
fn determinism() {
    let input = "\
        5,3,_,_,7,_,_,_,_,\
        6,_,_,1,9,5,_,_,_,\
        _,9,8,_,_,_,_,6,_,\
        8,_,_,_,6,_,_,_,3,\
        4,_,_,8,_,3,_,_,1,\
        7,_,_,_,2,_,_,_,6,\
        _,6,_,_,_,_,2,8,_,\
        _,_,_,4,1,9,_,_,5,\
        _,_,_,_,8,_,_,_,_";
    let grid = input.parse::<Grid>().unwrap();
    let mut first = Vec::new();
    let mut solver = grid.solve().unwrap();
    while let Some(s) = solver.next() {
        first.push(s);
    }
    let mut second = Vec::new();
    let mut solver = grid.solve().unwrap();
    while let Some(s) = solver.next() {
        second.push(s);
    }
    assert_eq!(first.len(), second.len());
    for (a, b) in first.iter().zip(second.iter()) {
        assert_eq!(a, b);
    }
}

#[test]
fn block_duplicate_rejected() {
    // the same value twice inside one 3x3 block, on different rows and
    // columns
    let input = "\
        4,_,_,_,_,_,_,_,_,\
        _,4,_,_,_,_,_,_,_,\
        _,_,_,_,_,_,_,_,_,\
        _,_,_,_,_,_,_,_,_,\
        _,_,_,_,_,_,_,_,_,\
        _,_,_,_,_,_,_,_,_,\
        _,_,_,_,_,_,_,_,_,\
        _,_,_,_,_,_,_,_,_,\
        _,_,_,_,_,_,_,_,_";
    let grid = input.parse::<Grid>().unwrap();
    let err = grid.solve().err().unwrap();
    assert!(matches!(err, SolverError::InvalidGrid));
}

#[test]
fn no_solution() {
    let input = "\
        _,_,_,1,2,_,_,_,_,\
        _,_,_,_,_,_,1,2,_,\
        _,_,_,_,_,_,_,_,_,\
        1,_,_,_,_,_,_,_,_,\
        2,_,_,_,_,_,_,_,_,\
        _,_,_,_,_,_,_,_,_,\
        _,1,_,_,_,_,_,_,_,\
        _,2,_,_,_,_,_,_,_,\
        _,_,_,_,_,_,_,_,_";
    let input = input.parse::<Grid>().unwrap();
    let mut solutions = input.solve().unwrap();
    assert!(solutions.next().is_none());
}

#[test]
fn exhausted_without_solutions() {
    // the last cell of the first row needs a 9, which its column
    // already holds: no completion exists and the first pull says so
    let input = "\
        1,2,3,4,5,6,7,8,_,\
        _,_,_,_,_,_,_,_,9,\
        _,_,_,_,_,_,_,_,_,\
        _,_,_,_,_,_,_,_,_,\
        _,_,_,_,_,_,_,_,_,\
        _,_,_,_,_,_,_,_,_,\
        _,_,_,_,_,_,_,_,_,\
        _,_,_,_,_,_,_,_,_,\
        _,_,_,_,_,_,_,_,_";
    let grid = input.parse::<Grid>().unwrap();
    let mut solver = grid.solve().unwrap();
    assert!(solver.next().is_none());
}

#[test]
fn full_grid_emitted_once() {
    // a starting grid with no free cell is emitted unchanged as the
    // sole solution
    let full = "\
        5,3,4,6,7,8,9,1,2,\
        6,7,2,1,9,5,3,4,8,\
        1,9,8,3,4,2,5,6,7,\
        8,5,9,7,6,1,4,2,3,\
        4,2,6,8,5,3,7,9,1,\
        7,1,3,9,2,4,8,5,6,\
        9,6,1,5,3,7,2,8,4,\
        2,8,7,4,1,9,6,3,5,\
        3,4,5,2,8,6,1,7,9";
    let grid = full.parse::<Grid>().unwrap();
    let mut solver = grid.solve().unwrap();
    assert_eq!(solver.next().unwrap(), grid);
    assert!(solver.next().is_none());
}

fn houses_complete(g: &Grid) -> bool {
    let rendered = g.render();
    let flat: Vec<u8> = rendered
        .iter()
        .copied()
        .filter(|b| *b != b',' && *b != b'\n')
        .collect();
    if flat.len() != 81 {
        return false;
    }
    for h in 0..9 {
        for house in [0, 1, 2] {
            let mut seen = [false; 9];
            for n in 0..9 {
                let idx = match house {
                    0 => h * 9 + n,
                    1 => n * 9 + h,
                    _ => ((h / 3) * 3 + n / 3) * 9 + (h % 3) * 3 + n % 3,
                };
                let b = flat[idx];
                if !(b'1'..=b'9').contains(&b) {
                    return false;
                }
                let v = (b - b'1') as usize;
                if seen[v] {
                    return false;
                }
                seen[v] = true;
            }
            if seen.iter().any(|s| !*s) {
                return false;
            }
        }
    }
    true
}
