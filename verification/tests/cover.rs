use sudoku_dlx::builder::init_solver;
use sudoku_dlx::matrix::ExactCoverSolver;
use sudoku_dlx::problem::{ExactCover, InvalidProblem};

fn problem(n: usize, choices: Vec<Vec<usize>>) -> ExactCover {
    let mut items = vec![String::new()];
    for c in 1..=n {
        items.push(format!("i{c}"));
    }
    ExactCover { items, choices }
}

fn links(s: &ExactCoverSolver) -> (Vec<i32>, Vec<i32>, Vec<i32>, Vec<i32>, Vec<i32>) {
    (s.toplen.clone(), s.llink.clone(), s.rlink.clone(), s.ulink.clone(), s.dlink.clone())
}

/// The example of seven items and six options from the literature.
fn classic() -> ExactCover {
    problem(
        7,
        vec![
            vec![3, 5],
            vec![1, 4, 7],
            vec![2, 3, 6],
            vec![1, 4, 6],
            vec![2, 7],
            vec![4, 5, 7],
        ],
    )
}

fn covers_exactly(e: &ExactCover, sol: &[usize]) -> bool {
    let n = e.items.len() - 1;
    let mut seen = vec![0usize; n + 1];
    for &k in sol {
        if k < 1 || k > e.choices.len() {
            return false;
        }
        for &c in &e.choices[k - 1] {
            seen[c] += 1;
        }
    }
    (1..=n).all(|c| seen[c] == 1)
}

#[test]
fn builds_the_arena_of_the_classic_example() {
    let e = classic();
    let s = match init_solver(&e) {
        Ok(s) => s,
        Err(_) => panic!("valid problem refused"),
    };
    assert_eq!(s.llink, vec![7, 0, 1, 2, 3, 4, 5, 6]);
    assert_eq!(s.rlink, vec![1, 2, 3, 4, 5, 6, 7, 0]);
    assert_eq!(
        s.toplen,
        vec![0, 2, 2, 2, 3, 2, 2, 3, 0, 3, 5, -1, 1, 4, 7, -2, 2, 3, 6, -3, 1, 4, 6, -4, 2, 7, -5, 4, 5, 7, -6]
    );
    assert_eq!(
        s.ulink,
        vec![0, 20, 24, 17, 27, 28, 22, 29, 0, 3, 5, 9, 1, 4, 7, 12, 2, 9, 6, 16, 12, 13, 18, 20, 16, 14, 24, 21, 10, 25, 27]
    );
    assert_eq!(
        s.dlink,
        vec![0, 12, 16, 9, 13, 10, 18, 14, 10, 17, 28, 14, 20, 21, 25, 18, 24, 3, 22, 22, 1, 27, 6, 25, 2, 29, 29, 4, 5, 7, 0]
    );
}

#[test]
fn solves_the_classic_example() {
    let e = classic();
    let mut s = match init_solver(&e) {
        Ok(s) => s,
        Err(_) => panic!("valid problem refused"),
    };
    let sol = s.solve();
    assert_eq!(sol, vec![4, 5, 1]);
    assert!(covers_exactly(&e, &sol));
}

#[test]
fn solution_is_disjoint_and_covers_everything() {
    let e = problem(
        6,
        vec![
            vec![1, 2],
            vec![3, 4],
            vec![5, 6],
            vec![2, 3],
            vec![4, 5],
            vec![1, 6],
            vec![1, 3, 5],
            vec![2, 4, 6],
        ],
    );
    let mut s = match init_solver(&e) {
        Ok(s) => s,
        Err(_) => panic!("valid problem refused"),
    };
    let sol = s.solve();
    assert!(!sol.is_empty());
    assert!(covers_exactly(&e, &sol));
}

#[test]
fn same_problem_same_answer() {
    let e = classic();
    let first = match init_solver(&e) {
        Ok(mut s) => s.solve(),
        Err(_) => panic!("valid problem refused"),
    };
    let second = match init_solver(&e) {
        Ok(mut s) => s.solve(),
        Err(_) => panic!("valid problem refused"),
    };
    assert_eq!(first, second);
}

#[test]
fn uncover_restores_what_cover_changed() {
    let e = classic();
    let mut s = match init_solver(&e) {
        Ok(s) => s,
        Err(_) => panic!("valid problem refused"),
    };
    for c in 1..=7 {
        let before = links(&s);
        s.cover(c);
        assert_ne!(links(&s), before);
        s.uncover(c);
        assert_eq!(links(&s), before);
    }
}

#[test]
fn cover_takes_the_column_and_its_options_out() {
    let e = classic();
    let mut s = match init_solver(&e) {
        Ok(s) => s,
        Err(_) => panic!("valid problem refused"),
    };
    s.cover(1);
    // item 1 is out of the header ring
    assert_eq!(s.rlink[0], 2);
    assert_eq!(s.llink[2], 0);
    // options 2 and 4 are hidden: items 4, 6, 7 lose their nodes
    assert_eq!(&s.toplen[1..8], &[2, 2, 2, 1, 2, 1, 2]);
    // nested covers undo in reverse order
    let mid = links(&s);
    s.cover(4);
    s.uncover(4);
    assert_eq!(links(&s), mid);
}

#[test]
fn hiding_and_unhiding_an_option() {
    let e = classic();
    let mut s = match init_solver(&e) {
        Ok(s) => s,
        Err(_) => panic!("valid problem refused"),
    };
    let before = links(&s);
    // node 12 is item 1 of option 2 = {1, 4, 7}
    s.hide_option(12);
    assert_eq!(&s.toplen[1..8], &[2, 2, 2, 2, 2, 2, 2]);
    assert_eq!(s.dlink[4], 21);
    assert_eq!(s.ulink[21], 4);
    assert_eq!(s.dlink[7], 25);
    // the node itself stays in its column
    assert_eq!(s.dlink[1], 12);
    s.unhide(12);
    assert_eq!(links(&s), before);
}

#[test]
fn unlink_and_relink_one_node() {
    let e = classic();
    let mut s = match init_solver(&e) {
        Ok(s) => s,
        Err(_) => panic!("valid problem refused"),
    };
    let before = links(&s);
    s.unlink(13);
    assert_eq!(s.toplen[4], 2);
    assert_eq!(s.dlink[4], 21);
    assert_eq!(s.ulink[21], 4);
    s.relink(13);
    assert_eq!(links(&s), before);
}

#[test]
fn select_takes_the_first_shortest_column() {
    let e = classic();
    let s = match init_solver(&e) {
        Ok(s) => s,
        Err(_) => panic!("valid problem refused"),
    };
    assert_eq!(s.select(), 1);
    let e2 = problem(3, vec![vec![1, 2], vec![1, 3], vec![2], vec![2, 3]]);
    let s2 = match init_solver(&e2) {
        Ok(s) => s,
        Err(_) => panic!("valid problem refused"),
    };
    // columns hold 2, 3, 2 nodes
    assert_eq!(s2.select(), 1);
}

#[test]
fn one_item_and_no_option_has_no_solution() {
    let e = problem(1, vec![]);
    let mut s = match init_solver(&e) {
        Ok(s) => s,
        Err(_) => panic!("valid problem refused"),
    };
    let before = links(&s);
    assert!(s.solve().is_empty());
    assert_eq!(links(&s), before);
}

#[test]
fn uncovered_item_among_covered_ones_has_no_solution() {
    // item 1 has no option, and the column next to it is not empty
    let e = problem(3, vec![vec![2, 3], vec![2], vec![3]]);
    let mut s = match init_solver(&e) {
        Ok(s) => s,
        Err(_) => panic!("valid problem refused"),
    };
    assert_eq!(s.dlink[1], 1);
    assert_eq!(s.ulink[1], 1);
    assert!(s.solve().is_empty());
}

#[test]
fn options_come_in_the_order_they_were_chosen() {
    // item 3 has one option only, so the search starts there
    let e = problem(3, vec![vec![1, 2], vec![1], vec![2, 3]]);
    let mut s = match init_solver(&e) {
        Ok(s) => s,
        Err(_) => panic!("valid problem refused"),
    };
    assert_eq!(s.solve(), vec![3, 2]);
}

#[test]
fn search_backs_out_of_dead_ends() {
    // item 1 comes first; options 2 and 3 for it both lead nowhere
    let e = problem(4, vec![vec![3, 4], vec![1, 2, 4], vec![1, 3], vec![1, 2], vec![2, 3, 4]]);
    let mut s = match init_solver(&e) {
        Ok(s) => s,
        Err(_) => panic!("valid problem refused"),
    };
    let sol = s.solve();
    assert_eq!(sol, vec![4, 1]);
    assert!(covers_exactly(&e, &sol));
}

#[test]
fn unsolvable_problem_leaves_the_matrix_as_built() {
    // every item has two options, and no choice of them fits together
    let e = problem(5, vec![vec![3, 5], vec![2, 4, 5], vec![3, 4], vec![1, 4], vec![1, 2]]);
    let mut s = match init_solver(&e) {
        Ok(s) => s,
        Err(_) => panic!("valid problem refused"),
    };
    let before = links(&s);
    assert!(s.solve().is_empty());
    assert_eq!(links(&s), before);
}

#[test]
fn found_solution_leaves_its_items_covered() {
    let e = problem(4, vec![vec![1, 2], vec![2, 3], vec![3, 4], vec![1, 3]]);
    let mut s = match init_solver(&e) {
        Ok(s) => s,
        Err(_) => panic!("valid problem refused"),
    };
    assert_eq!(s.solve(), vec![3, 1]);
    // the header ring is empty
    assert_eq!(s.rlink[0], 0);
    assert_eq!(s.llink[0], 0);
}

fn refused(e: &ExactCover) -> bool {
    match init_solver(e) {
        Ok(_) => false,
        Err(err) => err == InvalidProblem,
    }
}

#[test]
fn invalid_problems_are_refused() {
    // no item at all
    assert!(refused(&problem(0, vec![])));
    assert!(refused(&ExactCover { items: vec![], choices: vec![] }));
    // an item out of range
    assert!(refused(&problem(3, vec![vec![1, 4]])));
    assert!(refused(&problem(3, vec![vec![0, 1]])));
    // an empty option
    assert!(refused(&problem(3, vec![vec![1], vec![]])));
    // an item named twice
    assert!(refused(&problem(3, vec![vec![1, 2, 1]])));
    assert!(!e_is_valid_but_refused());
}

fn e_is_valid_but_refused() -> bool {
    refused(&problem(3, vec![vec![1, 2], vec![3]]))
}

#[test]
fn validity_check() {
    assert!(classic().is_valid());
    assert!(problem(1, vec![]).is_valid());
    assert!(!problem(0, vec![]).is_valid());
    assert!(!problem(2, vec![vec![2, 2]]).is_valid());
    assert!(!problem(2, vec![vec![3]]).is_valid());
    assert!(!problem(2, vec![vec![]]).is_valid());
}

#[test]
fn arena_size_check() {
    assert!(classic().fits_arena());
    assert!(problem(1, vec![]).fits_arena());
    assert!(ExactCover { items: vec![], choices: vec![] }.fits_arena());
}

#[test]
fn commit_and_retract_an_option() {
    let e = classic();
    let mut s = match init_solver(&e) {
        Ok(s) => s,
        Err(_) => panic!("valid problem refused"),
    };
    let before = links(&s);
    s.cover(1);
    let mid = links(&s);
    // node 20 is item 1 of option 4 = {1, 4, 6}
    s.commit(20);
    // items 1, 4 and 6 are out of the header ring
    assert_eq!(s.rlink[0], 2);
    assert_eq!(s.rlink[3], 5);
    assert_eq!(s.rlink[5], 7);
    s.retract(20);
    assert_eq!(links(&s), mid);
    s.uncover(1);
    assert_eq!(links(&s), before);
}

#[test]
fn item_without_option_gives_no_answer() {
    // item 4 is in no option
    let e = problem(4, vec![vec![1, 2], vec![3], vec![1], vec![2, 3]]);
    let mut s = match init_solver(&e) {
        Ok(s) => s,
        Err(_) => panic!("valid problem refused"),
    };
    assert!(s.solve().is_empty());
}

#[test]
fn nodes_know_their_option() {
    let e = classic();
    let s = match init_solver(&e) {
        Ok(s) => s,
        Err(_) => panic!("valid problem refused"),
    };
    assert_eq!(s.option_of(9), 1);
    assert_eq!(s.option_of(10), 1);
    assert_eq!(s.option_of(12), 2);
    assert_eq!(s.option_of(14), 2);
    assert_eq!(s.option_of(24), 5);
    assert_eq!(s.option_of(29), 6);
}
