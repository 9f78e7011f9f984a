use minesweeper_solver::{Board, CellState, Move, Observed};

/// What the game shows on a `rows` by `cols` board with mines at `mines`
/// once every safe cell is open: the clue token of each safe cell, and the
/// blank token on each mine.
fn open_tokens(rows: usize, cols: usize, mines: &[(usize, usize)]) -> Vec<String> {
    let mut out = Vec::new();
    for r in 0..rows {
        for c in 0..cols {
            if mines.contains(&(r, c)) {
                out.push("square blank".to_string());
                continue;
            }
            let mut n = 0;
            for &(mr, mc) in mines {
                let dr = mr as i64 - r as i64;
                let dc = mc as i64 - c as i64;
                if dr.abs() <= 1 && dc.abs() <= 1 {
                    n += 1;
                }
            }
            out.push(format!("square open{}", n));
        }
    }
    out
}

fn set_of(board: &Board, pick: fn(&Board, usize) -> bool) -> Vec<usize> {
    (0..board.cell_count()).filter(|&i| pick(board, i)).collect()
}

#[test]
fn fresh_board_is_all_blank() {
    let board = Board::new(false, true, 4, 5, 3);
    assert_eq!(board.cell_count(), 20);
    assert_eq!(board.mines(), 3);
    assert_eq!(board.blank_cells(), (0..20).collect::<Vec<usize>>());
    assert!(board.bomb_cells().is_empty());
    assert!(board.has_blank());
    for i in 0..20 {
        assert_eq!(board.cell(i).state, CellState::Blank);
        assert!(!board.is_number(i) && !board.in_workset(i));
    }
    let i = board.index_at(2, 3);
    assert_eq!(i, 13);
    assert_eq!(board.cell(i).posn.row, 2);
    assert_eq!(board.cell(i).posn.col, 3);
}

#[test]
fn neighbor_counts_corner_edge_inside() {
    let board = Board::new(false, false, 4, 5, 0);
    assert_eq!(board.cell(board.index_at(0, 0)).neighbors.len(), 3);
    assert_eq!(board.cell(board.index_at(3, 4)).neighbors.len(), 3);
    assert_eq!(board.cell(board.index_at(0, 4)).neighbors.len(), 3);
    assert_eq!(board.cell(board.index_at(0, 2)).neighbors.len(), 5);
    assert_eq!(board.cell(board.index_at(2, 0)).neighbors.len(), 5);
    assert_eq!(board.cell(board.index_at(1, 1)).neighbors.len(), 8);
    assert_eq!(board.cell(board.index_at(2, 3)).neighbors.len(), 8);
}

#[test]
fn neighbors_are_symmetric() {
    let board = Board::new(false, false, 4, 6, 0);
    for i in 0..board.cell_count() {
        for &j in &board.cell(i).neighbors {
            assert!(board.cell(j).neighbors.contains(&i));
        }
    }
}

#[test]
fn end_to_end_single_mine() {
    let mut board = Board::new(false, false, 3, 3, 1);
    let tokens = open_tokens(3, 3, &[(0, 0)]);
    let start = board.index_at(2, 2);
    assert!(!board.update_from(vec![start], &tokens));
    assert_eq!(board.blank_cells(), vec![0]);
    assert_eq!(set_of(&board, Board::is_number), (1..9).collect::<Vec<usize>>());
    match board.next_move() {
        Move::Flag(cells) => assert_eq!(cells, vec![0]),
        _ => panic!("expected a flag"),
    }
    assert_eq!(board.bomb_cells(), vec![0]);
    assert_eq!(board.cell(0).state, CellState::Mine);
    assert!(!board.has_blank());
    assert!(matches!(board.next_move(), Move::Done));
    // the partition holds at the stable point
    for i in 0..9 {
        let n = board.is_blank(i) as u8 + board.is_bomb(i) as u8 + board.is_number(i) as u8;
        assert_eq!(n, 1);
        assert!(!board.in_workset(i) || board.is_number(i));
    }
}

#[test]
fn flood_fill_opens_zero_region_and_border() {
    // 4 by 4 with a mine at (3, 3): every other cell is reached from (0, 0).
    let mut board = Board::new(false, false, 4, 4, 1);
    let tokens = open_tokens(4, 4, &[(3, 3)]);
    assert!(!board.update_from(vec![0], &tokens));
    assert_eq!(board.blank_cells(), vec![15]);
    assert_eq!(board.cell(board.index_at(2, 2)).state, CellState::Number(1));
    assert_eq!(board.cell(0).state, CellState::Number(0));
    assert!(board.in_workset(board.index_at(2, 2)));
    assert!(!board.in_workset(0));
}

#[test]
fn step_by_step_propagation() {
    let mut board = Board::new(false, false, 3, 3, 1);
    let tokens = open_tokens(3, 3, &[(0, 0)]);
    let mut prop = board.start_update(vec![8]);
    let mut opened = 0;
    while let Some(i) = board.next_to_observe(&mut prop) {
        let seen = board.observe_cell(&mut prop, i, tokens[i].clone());
        if i == 0 {
            assert_eq!(seen, Observed::Unchanged);
        } else {
            assert_eq!(seen, Observed::Opened);
            opened += 1;
        }
    }
    assert_eq!(opened, 8);
    assert_eq!(board.blank_cells(), vec![0]);
}

#[test]
fn empty_propagation_is_a_no_op() {
    let mut board = Board::new(false, false, 3, 3, 1);
    let tokens: Vec<String> = vec!["square bombdeath".to_string(); 9];
    assert!(!board.update_from(vec![], &tokens));
    assert_eq!(board.blank_cells(), (0..9).collect::<Vec<usize>>());
    let mut prop = board.start_update(vec![]);
    assert_eq!(board.next_to_observe(&mut prop), None);
}

#[test]
fn boom_resets_the_board() {
    let mut board = Board::new(false, false, 3, 3, 1);
    let mut tokens = open_tokens(3, 3, &[(0, 0)]);
    assert!(!board.update_from(vec![8], &tokens));
    tokens[0] = "square bombdeath".to_string();
    let mut prop = board.start_update(vec![0]);
    assert_eq!(board.next_to_observe(&mut prop), Some(0));
    assert_eq!(board.observe_cell(&mut prop, 0, tokens[0].clone()), Observed::Boom);
    assert_eq!(board.next_to_observe(&mut prop), None);
    assert_eq!(board.blank_cells(), (0..9).collect::<Vec<usize>>());
    for i in 0..9 {
        assert_eq!(board.cell(i).state, CellState::Blank);
        assert_eq!(board.cell(i).attribute, "square blank");
    }
}

#[test]
fn update_from_reports_boom() {
    let mut board = Board::new(false, false, 3, 3, 1);
    let mut tokens = open_tokens(3, 3, &[(0, 0)]);
    tokens[0] = "square bombdeath".to_string();
    assert!(board.update_from(vec![0], &tokens));
    assert_eq!(board.blank_cells().len(), 9);
}

#[test]
fn reveal_phase_and_reveal_all() {
    // 1 by 3: mine at column 0. Open column 2 (clue 0) then column 1 (clue 1).
    let mut board = Board::new(false, false, 1, 3, 1);
    let tokens = vec![
        "square blank".to_string(),
        "square open1".to_string(),
        "square open0".to_string(),
    ];
    assert!(!board.update_from(vec![2], &tokens));
    assert_eq!(board.blank_cells(), vec![0]);
    assert!(board.in_workset(1));
    // flag phase: cell 1 needs its one blank neighbor to be the mine
    assert_eq!(board.get_cells_to_flag(), vec![0]);
    assert!(!board.reveal_all(&vec![]));
    assert!(board.reveal_all(&vec![0]));
    assert!(board.blank_cells().is_empty());
    assert!(board.is_number(0));
}

#[test]
fn exhausted_cells_leave_the_workset() {
    // 1 by 4: mine at column 0; cell 1 shows 1, cell 2 and 3 show 0.
    let mut board = Board::new(false, false, 1, 4, 1);
    let tokens = vec![
        "square blank".to_string(),
        "square open1".to_string(),
        "square open0".to_string(),
        "square open0".to_string(),
    ];
    assert!(!board.update_from(vec![3], &tokens));
    assert!(board.in_workset(1));
    board.flag_all(&vec![0]);
    assert!(board.is_bomb(0));
    assert!(board.in_workset(1));
    // cell 1 is exhausted now: nothing to reveal, and it leaves the workset
    assert!(board.get_cells_to_reveal().is_empty());
    assert!(!board.in_workset(1));
}

#[test]
fn guess_on_a_fresh_board_spreads_mines() {
    let board = Board::new(false, false, 4, 5, 3);
    let g = board.lowest_risk();
    assert_eq!((g.numer, g.denom), (3, 20));
    assert_eq!(g.pool.len(), 20);
    let c = board.reveal_random().unwrap();
    assert!(c < 20);
}

#[test]
fn guess_prefers_lower_ratio() {
    // 1 by 5, 2 mines at columns 0 and 4. Open column 2 only: it shows 0,
    // so columns 1 and 3 open too, showing 1 each.
    let mut board = Board::new(false, false, 1, 5, 2);
    let tokens = vec![
        "square blank".to_string(),
        "square open1".to_string(),
        "square open0".to_string(),
        "square open1".to_string(),
        "square blank".to_string(),
    ];
    let mut prop = board.start_update(vec![2]);
    while let Some(i) = board.next_to_observe(&mut prop) {
        board.observe_cell(&mut prop, i, tokens[i].clone());
    }
    assert_eq!(board.blank_cells(), vec![0, 4]);
    // No unconstrained cell: start from certainty; cell 1 offers 1 / 1,
    // which is not lower, so the pool is every blank cell.
    let g = board.lowest_risk();
    assert_eq!((g.numer, g.denom), (1, 1));
    assert_eq!(g.pool, vec![0, 4]);
}

#[test]
fn guess_takes_workset_cell_when_lower() {
    // 2 by 3, one mine at (0, 0). Open (1, 1) alone: it shows 1 and touches
    // the five blank cells, so none is unconstrained and the start is
    // certainty; (1, 1) offers 1 / 5.
    let mut board = Board::new(false, false, 2, 3, 1);
    let mut prop = board.start_update(vec![board.index_at(1, 1)]);
    let i = board.next_to_observe(&mut prop).unwrap();
    assert_eq!(board.observe_cell(&mut prop, i, "square open1".to_string()), Observed::Opened);
    // stop here: the other cells stay unobserved
    let g = board.lowest_risk();
    assert_eq!((g.numer, g.denom), (1, 5));
    assert_eq!(g.pool.len(), 5);
    assert!(!g.pool.contains(&4));
    match board.next_move() {
        Move::Guess(c) => assert!(g.pool.contains(&c)),
        _ => panic!("expected a guess"),
    }
}

#[test]
fn next_move_reveals_when_certain() {
    // 1 by 4, mine at column 0; open column 3: 3 and 2 show 0, 1 shows 1.
    // Flag column 0, then column 1 is exhausted: nothing left but to finish.
    let mut board = Board::new(false, false, 1, 4, 1);
    let tokens = vec![
        "square blank".to_string(),
        "square open1".to_string(),
        "square open0".to_string(),
        "square open0".to_string(),
    ];
    assert!(!board.update_from(vec![3], &tokens));
    match board.next_move() {
        Move::Flag(cells) => assert_eq!(cells, vec![0]),
        _ => panic!("expected a flag"),
    }
    assert!(matches!(board.next_move(), Move::Done));
}

#[test]
fn next_move_reveal_all_at_the_end() {
    // 1 by 3 with a mine at column 0: open column 1 alone (it shows 1), flag
    // column 0; column 1 is exhausted and its last blank neighbor is the
    // whole blank set.
    let mut board = Board::new(false, false, 1, 3, 1);
    let mut prop = board.start_update(vec![1]);
    let i = board.next_to_observe(&mut prop).unwrap();
    assert_eq!(board.observe_cell(&mut prop, i, "square open1".to_string()), Observed::Opened);
    board.flag_all(&vec![0]);
    match board.next_move() {
        Move::RevealAll(cells) => assert_eq!(cells, vec![2]),
        _ => panic!("expected the final reveal"),
    }
    assert!(board.is_number(2));
    assert!(matches!(board.next_move(), Move::Done));
}

#[test]
fn next_move_reveals_proved_safe_cells() {
    // 1 by 4 with a mine at column 0: open column 1 alone (it shows 1) and
    // flag column 0; column 1 is exhausted, its blank neighbor 2 is safe,
    // while column 3 stays blank.
    let mut board = Board::new(false, false, 1, 4, 1);
    let mut prop = board.start_update(vec![1]);
    let i = board.next_to_observe(&mut prop).unwrap();
    assert_eq!(board.observe_cell(&mut prop, i, "square open1".to_string()), Observed::Opened);
    board.flag_all(&vec![0]);
    match board.next_move() {
        Move::Reveal(cells) => assert_eq!(cells, vec![2]),
        _ => panic!("expected a reveal"),
    }
    assert!(!board.in_workset(1));
    assert_eq!(board.blank_cells(), vec![2, 3]);
}

#[test]
fn empty_board_is_done() {
    let mut board = Board::new(false, false, 0, 0, 0);
    assert_eq!(board.cell_count(), 0);
    assert!(!board.has_blank());
    assert!(matches!(board.next_move(), Move::Done));
    assert_eq!(board.reveal_random(), None);
}

#[test]
fn expert_board_wiring() {
    let board = Board::new(true, true, 16, 30, 99);
    assert_eq!(board.cell_count(), 480);
    let mut corners = 0;
    let mut edges = 0;
    let mut inner = 0;
    for i in 0..480 {
        match board.cell(i).neighbors.len() {
            3 => corners += 1,
            5 => edges += 1,
            8 => inner += 1,
            n => panic!("unexpected neighbor count {}", n),
        }
    }
    assert_eq!((corners, edges, inner), (4, 2 * 14 + 2 * 28, 14 * 28));
    let g = board.lowest_risk();
    assert_eq!((g.numer, g.denom), (99, 480));
}
