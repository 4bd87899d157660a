use sudoku_dlx::grid::{is_puzzle_text, parse_row, Sudoku};
use sudoku_dlx::sudoku::solve_sudoku;

#[test]
fn sudoku_test1() {
    let problem  = "209000600040870012800019040030700801065008030100030007000650709604000020080301450".to_string();
    let solution = "219543678543876912876219345432765891765198234198432567321654789654987123987321456".to_string();
    assert_eq!(&solve_sudoku(&problem), &solution);
}

#[test]
fn sudoku_test2() {
    let problem  = "946008500080500000000000800002000400005300080003070000008024701030050020004700000".to_string();
    let solution = "946238517281547369357619842692185473475392186813476295568924731739851624124763958".to_string();
    assert_eq!(&solve_sudoku(&problem), &solution);
}

#[test]
fn sudoku_test3() {
    let problem  = "509000007080010520003084001090700002400050390802100004000302005040000700107090080".to_string();
    let solution = "519623847684917523723584961396748152471256398852139674968372415245861739137495286".to_string();
    assert_eq!(&solve_sudoku(&problem), &solution);
}

fn rows_cols_boxes_complete(text: &str) -> bool {
    let d: Vec<u8> = text.bytes().map(|b| b - 48).collect();
    for u in 0..9 {
        for k in 1..=9u8 {
            let in_row = (0..9).filter(|&c| d[u * 9 + c] == k).count();
            let in_col = (0..9).filter(|&r| d[r * 9 + u] == k).count();
            let in_box = (0..9)
                .filter(|&t| d[(3 * (u / 3) + t / 3) * 9 + 3 * (u % 3) + t % 3] == k)
                .count();
            if in_row != 1 || in_col != 1 || in_box != 1 {
                return false;
            }
        }
    }
    true
}

#[test]
fn solved_grid_holds_each_digit_once() {
    let problem = "209000600040870012800019040030700801065008030100030007000650709604000020080301450".to_string();
    let solved = solve_sudoku(&problem);
    assert!(rows_cols_boxes_complete(&solved));
    for (a, b) in problem.bytes().zip(solved.bytes()) {
        assert!(a == b'0' || a == b);
    }
}

#[test]
fn solved_grid_stays_as_it_is() {
    let full = "219543678543876912876219345432765891765198234198432567321654789654987123987321456".to_string();
    assert_eq!(solve_sudoku(&full), full);
}

#[test]
fn hopeless_grid_comes_back_unchanged() {
    // Two fives in the first row: no completion exists.
    let bad = "550000000000000000000000000000000000000000000000000000000000000000000000000000000".to_string();
    assert_eq!(solve_sudoku(&bad), bad);
}

#[test]
fn empty_grid_is_completed() {
    let blank = "0".repeat(81);
    let solved = solve_sudoku(&blank);
    assert!(rows_cols_boxes_complete(&solved));
}

#[test]
fn text_round_trip() {
    let text = "209000600040870012800019040030700801065008030100030007000650709604000020080301450".to_string();
    let s = Sudoku::from_string(&text);
    assert_eq!(s.grid.len(), 9);
    assert_eq!(s.grid[0], vec![2, 0, 9, 0, 0, 0, 6, 0, 0]);
    assert_eq!(s.grid[8], vec![0, 8, 0, 3, 0, 1, 4, 5, 0]);
    assert_eq!(s.to_string(), text);
}

#[test]
fn picture_shows_blanks_as_spaces() {
    let text = "209000600040870012800019040030700801065008030100030007000650709604000020080301450".to_string();
    let s = Sudoku::from_string(&text);
    let pic = s.picture();
    let lines: Vec<&str> = pic.split('\n').collect();
    assert_eq!(lines.len(), 10);
    assert_eq!(lines[0], "2 9   6  ");
    assert_eq!(lines[1], " 4 87  12");
    assert_eq!(lines[9], "");
}

#[test]
fn put_writes_one_cell() {
    let text = "0".repeat(81);
    let mut s = Sudoku::from_string(&text);
    s.put(3, 4, 7);
    let out = s.to_string();
    for (t, b) in out.bytes().enumerate() {
        assert_eq!(b, if t == 3 * 9 + 4 { b'7' } else { b'0' });
    }
}

#[test]
fn rows_of_digits() {
    assert_eq!(parse_row("209000600"), Some(vec![2, 0, 9, 0, 0, 0, 6, 0, 0]));
    assert_eq!(parse_row(""), Some(vec![]));
    assert_eq!(parse_row("12a"), None);
    assert_eq!(parse_row("1 2"), None);
}

#[test]
fn puzzle_texts() {
    assert!(is_puzzle_text(&"0".repeat(81)));
    assert!(is_puzzle_text(
        "209000600040870012800019040030700801065008030100030007000650709604000020080301450"
    ));
    assert!(!is_puzzle_text(&"0".repeat(80)));
    assert!(!is_puzzle_text(&"0".repeat(82)));
    assert!(!is_puzzle_text(&("x".to_string() + &"0".repeat(80))));
    assert!(!is_puzzle_text(""));
}

#[test]
fn well_formed_grids() {
    let s = Sudoku::from_string(&"0".repeat(81));
    assert!(s.is_well_formed());
    assert!(!Sudoku { grid: vec![] }.is_well_formed());
    assert!(!Sudoku { grid: vec![vec![0; 9]; 8] }.is_well_formed());
    assert!(!Sudoku { grid: vec![vec![0; 8]; 9] }.is_well_formed());
    let mut rows = vec![vec![1u8; 9]; 9];
    rows[4][4] = 10;
    assert!(!Sudoku { grid: rows }.is_well_formed());
}
