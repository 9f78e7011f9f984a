use minesweeper_solver::info::{contains_str, get_reps, lookup_rep, to_digit};
use minesweeper_solver::{Cell, CellState};

/// A row of cells wired as a path: each cell touches the ones beside it.
fn strip(n: usize) -> Vec<Cell> {
    let mut cells = Vec::new();
    for i in 0..n {
        let mut c = Cell::new(0, i as i32);
        let mut nb = Vec::new();
        if i > 0 {
            nb.push(i - 1);
        }
        if i + 1 < n {
            nb.push(i + 1);
        }
        c.assign_neighbors(nb);
        cells.push(c);
    }
    cells
}

fn sorted(mut v: Vec<usize>) -> Vec<usize> {
    v.sort();
    v.dedup();
    v
}

#[test]
fn reps_table_decodes_tokens() {
    let reps = get_reps();
    assert_eq!(reps.len(), 11);
    assert_eq!(lookup_rep(&reps, &"square blank".to_string()), Some('_'));
    assert_eq!(lookup_rep(&reps, &"square bombflagged".to_string()), Some('f'));
    assert_eq!(lookup_rep(&reps, &"square open0".to_string()), Some('0'));
    assert_eq!(lookup_rep(&reps, &"square open8".to_string()), Some('8'));
    assert_eq!(lookup_rep(&reps, &"square open9".to_string()), None);
    assert_eq!(lookup_rep(&reps, &"square bombdeath".to_string()), None);
}

#[test]
fn digits_and_substrings() {
    assert_eq!(to_digit('7'), Some(7));
    assert_eq!(to_digit('x'), None);
    assert!(contains_str("square bombdeath", "bombdeath"));
    assert!(!contains_str("square bombflagged", "bombdeath"));
    assert!(!contains_str("bomb", "bombdeath"));
}

#[test]
fn update_opens_with_clue() {
    let mut c = Cell::new(0, 0);
    assert_eq!(c.update("square open3".to_string()), (true, false));
    assert_eq!(c.state, CellState::Number(3));
    assert_eq!(c.attribute, "square open3");
}

#[test]
fn update_unchanged_token_is_no_change() {
    let mut c = Cell::new(0, 0);
    assert_eq!(c.update("square blank".to_string()), (false, false));
    assert_eq!(c.state, CellState::Blank);
}

#[test]
fn update_detects_boom() {
    let mut c = Cell::new(0, 0);
    assert_eq!(c.update("square bombdeath".to_string()), (false, true));
    assert_eq!(c.state, CellState::Mine);
}

#[test]
fn update_unknown_token_keeps_blank() {
    let mut c = Cell::new(0, 0);
    assert_eq!(c.update("square bombflagged".to_string()), (false, false));
    assert_eq!(c.state, CellState::Blank);
    assert_eq!(c.attribute, "square bombflagged");
}

#[test]
fn flag_and_reset() {
    let mut c = Cell::new(1, 2);
    c.assign_neighbors(vec![0, 1]);
    c.flag();
    assert_eq!(c.state, CellState::Mine);
    c.reset();
    assert_eq!(c.state, CellState::Blank);
    assert_eq!(c.attribute, "square blank");
    assert_eq!(c.neighbors, vec![0, 1]);
}

#[test]
fn to_number_reads_stored_token() {
    let mut c = Cell::new(0, 0);
    c.attribute = "square open5".to_string();
    c.to_number();
    assert_eq!(c.state, CellState::Number(5));
    let mut d = Cell::new(0, 0);
    d.attribute = "square bombflagged".to_string();
    d.to_number();
    assert_eq!(d.state, CellState::Blank);
}

#[test]
fn neighbor_queries_and_remaining() {
    // mine, 2, blank, blank
    let mut cells = strip(4);
    cells[0].state = CellState::Mine;
    cells[1].state = CellState::Number(2);
    assert_eq!(cells[1].bomb_neighbors(&cells), vec![0]);
    assert_eq!(cells[1].blank_neighbors(&cells), vec![2]);
    assert_eq!(cells[1].get_number(), 2);
    assert_eq!(cells[1].bombs_remaining(&cells), 1);
    assert!(cells[1].should_add_to_workset(&cells));
    assert!(cells[2].non_zero_number_neighbors(&cells) == vec![1]);
}

#[test]
fn exact_flag_rule_flags_all_blank_neighbors() {
    let mut cells = strip(3);
    cells[0].state = CellState::Number(1);
    cells[2].state = CellState::Number(1);
    assert_eq!(cells[0].get_neighbors_to_flag(&cells), vec![1]);
}

#[test]
fn exact_reveal_rule_when_exhausted() {
    let mut cells = strip(3);
    cells[0].state = CellState::Mine;
    cells[1].state = CellState::Number(1);
    let (done, safe) = cells[1].get_neighbors_to_reveal(&cells);
    assert!(done);
    assert_eq!(safe, vec![2]);
}

#[test]
fn subset_flag_rule() {
    // Cell 1 is wired to {0, 2, 3} and cell 3 to {1, 2, 4, 5}; the others
    // stay blank, so cell 1 sees blanks {0, 2} and cell 3 sees {2, 4, 5}.
    let mut cells: Vec<Cell> = (0..6).map(|i| Cell::new(0, i)).collect();
    cells[1].assign_neighbors(vec![0, 2, 3]);
    cells[3].assign_neighbors(vec![1, 2, 4, 5]);
    cells[1].state = CellState::Number(1);
    cells[3].state = CellState::Number(1);
    // Cell 1 needs 1 mine in {0, 2}; cell 3 needs 1 in {2, 4, 5}: nothing certain.
    assert!(cells[1].get_more_to_flag(&cells).is_empty());
    assert!(cells[1].get_more_to_reveal(&cells).is_empty());
    // Cell 3 needing 3 mines: {4, 5} must hold 3 - 1 = 2 of them.
    cells[3].state = CellState::Number(3);
    assert_eq!(sorted(cells[1].get_more_to_flag(&cells)), vec![4, 5]);
    assert_eq!(sorted(cells[1].get_neighbors_to_flag(&cells)), vec![4, 5]);
}

#[test]
fn subset_reveal_rule() {
    // Cell 1 sees blanks {2}; cell 3 sees blanks {2, 4}; both need 1 mine:
    // the mine is cell 2, so cell 4 is safe.
    let mut cells: Vec<Cell> = (0..5).map(|i| Cell::new(0, i)).collect();
    cells[1].assign_neighbors(vec![2, 3]);
    cells[3].assign_neighbors(vec![1, 2, 4]);
    cells[1].state = CellState::Number(1);
    cells[3].state = CellState::Number(1);
    assert_eq!(cells[1].get_more_to_reveal(&cells), vec![4]);
    let (done, safe) = cells[1].get_neighbors_to_reveal(&cells);
    assert!(!done);
    assert_eq!(safe, vec![4]);
}

#[test]
fn neighbors_posns_of_a_corner() {
    let c = Cell::new(0, 0);
    assert_eq!(c.neighbors_posns(3, 3).len(), 3);
}
