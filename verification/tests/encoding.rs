use sudoku_dlx::decode::{all_readable, is_readable, parse_digits};
use sudoku_dlx::problem::ExactCover;
use sudoku_dlx::encode::{item_name, place_codes, sudoku_to_exact_cover};
use sudoku_dlx::grid::{digit_of, digit_str, Sudoku};

#[test]
fn item_names_by_family() {
    assert_eq!(item_name(0), "p00");
    assert_eq!(item_name(80), "p88");
    assert_eq!(item_name(81), "r01");
    assert_eq!(item_name(161), "r89");
    assert_eq!(item_name(162), "c01");
    assert_eq!(item_name(243 + 4 * 9 + 2), "b43");
    assert_eq!(item_name(323), "b89");
}

#[test]
fn codes_of_a_placement() {
    // digit 5 in row 4, column 7: box 3 * 1 + 2 = 5
    let t = (4 * 9 + 7) * 9 + 4;
    assert_eq!(place_codes(t), (43, 81 + 36 + 4, 162 + 63 + 4, 243 + 45 + 4));
    assert_eq!(place_codes(0), (0, 81, 162, 243));
    assert_eq!(place_codes(728), (80, 161, 242, 323));
}

#[test]
fn digits_and_characters() {
    assert_eq!(digit_of('0'), Some(0));
    assert_eq!(digit_of('9'), Some(9));
    assert_eq!(digit_of('a'), None);
    assert_eq!(digit_str(0), "0");
    assert_eq!(digit_str(7), "7");
}

#[test]
fn pattern_finds_the_two_digits() {
    assert_eq!(parse_digits("p37"), Some((3, 7)));
    assert_eq!(parse_digits("r09"), Some((0, 9)));
    assert_eq!(parse_digits("p3"), None);
    assert_eq!(parse_digits(""), None);
    assert_eq!(parse_digits("-12"), None);
    // the leftmost match wins
    assert_eq!(parse_digits("x1234"), Some((1, 2)));
    assert_eq!(parse_digits("x.1234"), Some((2, 3)));
    assert_eq!(parse_digits("..a45.b67"), Some((4, 5)));
    assert_eq!(parse_digits("_08"), Some((0, 8)));
}

#[test]
fn blank_grid_gives_the_full_problem() {
    let s = Sudoku::from_string(&"0".repeat(81));
    let e = sudoku_to_exact_cover(&s);
    assert_eq!(e.items.len(), 325);
    assert_eq!(e.items[0], "");
    assert_eq!(e.items[1], "p00");
    assert_eq!(e.items[82], "r01");
    assert_eq!(e.items[324], "b89");
    assert_eq!(e.choices.len(), 729);
    assert_eq!(e.choices[0], vec![1, 82, 163, 244]);
    assert_eq!(e.choices[728], vec![81, 162, 243, 324]);
}

#[test]
fn filled_cells_remove_items_and_options() {
    // A single 5 in the top left corner.
    let mut text = "0".repeat(81);
    text.replace_range(0..1, "5");
    let s = Sudoku::from_string(&text);
    let e = sudoku_to_exact_cover(&s);
    // gone: p00, r05, c05, b05
    assert_eq!(e.items.len(), 325 - 4);
    assert!(!e.items.contains(&"p00".to_string()));
    assert!(!e.items.contains(&"r05".to_string()));
    assert!(!e.items.contains(&"c05".to_string()));
    assert!(!e.items.contains(&"b05".to_string()));
    assert_eq!(e.items[1], "p01");
    // gone: the 9 placements in the cell, and digit 5 in the 8 + 8 + 4 other
    // cells of its row, column and box
    assert_eq!(e.choices.len(), 729 - 9 - 20);
    for row in &e.choices {
        assert_eq!(row.len(), 4);
        assert!(e.items[row[0]].starts_with('p'));
        assert!(e.items[row[1]].starts_with('r'));
        assert!(e.items[row[2]].starts_with('c'));
        assert!(e.items[row[3]].starts_with('b'));
    }
}

#[test]
fn full_grid_gives_no_item() {
    let full = "219543678543876912876219345432765891765198234198432567321654789654987123987321456".to_string();
    let e = sudoku_to_exact_cover(&Sudoku::from_string(&full));
    assert_eq!(e.items.len(), 1);
    assert!(e.choices.is_empty());
}

#[test]
fn decoding_writes_the_chosen_placements() {
    let s = Sudoku::from_string(&"0".repeat(81));
    let e = sudoku_to_exact_cover(&s);
    // option 1 places 1 in the top left cell; option 729 places 9 in the bottom right cell
    let t = s.read_exact_cover(e, vec![1, 729, 11]);
    let out = t.to_string();
    assert_eq!(&out[0..2], "12");
    assert_eq!(&out[80..81], "9");
    assert_eq!(out.bytes().filter(|&b| b != b'0').count(), 3);
}

#[test]
fn readable_options() {
    let s = Sudoku::from_string(&"0".repeat(81));
    let e = sudoku_to_exact_cover(&s);
    assert!(is_readable(&e, 1));
    assert!(is_readable(&e, 729));
    assert!(!is_readable(&e, 0));
    assert!(!is_readable(&e, 730));
    assert!(all_readable(&e, &vec![1, 2, 3]));
    assert!(all_readable(&e, &vec![]));
    assert!(!all_readable(&e, &vec![1, 730]));
    let names = |v: &[&str]| v.iter().map(|x| x.to_string()).collect::<Vec<String>>();
    // three items only
    let short = ExactCover { items: names(&["", "p00", "r01"]), choices: vec![vec![1, 2]] };
    assert!(!is_readable(&short, 1));
    // a cell out of the grid
    let far = ExactCover { items: names(&["", "p90", "r01", "c01", "b01"]), choices: vec![vec![1, 2, 3, 4]] };
    assert!(!is_readable(&far, 1));
    // a name without digits
    let bare = ExactCover { items: names(&["", "p00", "row", "c01", "b01"]), choices: vec![vec![1, 2, 3, 4]] };
    assert!(!is_readable(&bare, 1));
    // an item that is not there
    let gone = ExactCover { items: names(&["", "p00", "r01", "c01", "b01"]), choices: vec![vec![1, 7, 3, 4]] };
    assert!(!is_readable(&gone, 1));
    let fine = ExactCover { items: names(&["", "p00", "r01", "c01", "b01"]), choices: vec![vec![1, 2, 3, 4]] };
    assert!(is_readable(&fine, 1));
}

#[test]
fn item_names_are_all_different() {
    let s = Sudoku::from_string(&"0".repeat(81));
    let e = sudoku_to_exact_cover(&s);
    let mut seen = std::collections::HashSet::new();
    for n in &e.items {
        assert!(seen.insert(n.clone()));
    }
}
