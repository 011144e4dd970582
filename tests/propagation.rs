use sudoku_spiel::cell::Cell;
use sudoku_spiel::grid::SudokuSpiel;

fn symbols(g: &SudokuSpiel) -> Vec<char> {
    let mut out = Vec::new();
    for r in 0..9 {
        for c in 0..9 {
            out.push(g.cell(r, c).symbol());
        }
    }
    out
}

#[test]
fn fresh_cell_has_nine_candidates() {
    let c = Cell::new();
    assert_eq!(c.possibilities_left(), 9);
    assert_eq!(c.symbol(), '-');
    assert_eq!(c.lowest(), Some(1));
}

#[test]
fn restrict_removes_one_value() {
    let mut c = Cell::new();
    c.restrict(4);
    assert_eq!(c.possibilities_left(), 8);
    c.restrict(1);
    assert_eq!(c.lowest(), Some(2));
}

#[test]
fn restrict_absent_value_is_a_no_op() {
    let mut c = Cell::new();
    c.restrict(0);
    c.restrict(10);
    assert_eq!(c.possibilities_left(), 9);
}

#[test]
fn restrict_twice_equals_once() {
    let mut once = Cell::new();
    once.restrict(6);
    let mut twice = Cell::new();
    twice.restrict(6);
    twice.restrict(6);
    assert_eq!(once.possibilities_left(), twice.possibilities_left());
    for v in 1..=9u8 {
        let a = once.lowest();
        let b = twice.lowest();
        assert_eq!(a, b);
        once.restrict(v);
        twice.restrict(v);
    }
}

#[test]
fn collapse_leaves_only_the_value() {
    let mut c = Cell::new();
    c.restrict(2);
    let discarded = c.collapse(7);
    assert_eq!(c.possibilities_left(), 1);
    assert_eq!(c.lowest(), Some(7));
    assert_eq!(c.symbol(), '7');
    assert_eq!(discarded.len(), 7);
    assert!(!discarded.contains(7));
    assert!(!discarded.contains(2));
    assert!(discarded.contains(1));
    assert!(discarded.contains(9));
}

#[test]
fn collapse_on_value_that_was_ruled_out() {
    let mut c = Cell::new();
    c.restrict(3);
    let discarded = c.collapse(3);
    assert_eq!(c.possibilities_left(), 1);
    assert_eq!(c.symbol(), '3');
    assert_eq!(discarded.len(), 8);
}

#[test]
fn empty_cell_renders_zero() {
    let mut c = Cell::new();
    c.collapse(5);
    c.restrict(5);
    assert_eq!(c.possibilities_left(), 0);
    assert_eq!(c.lowest(), None);
    assert_eq!(c.symbol(), '0');
}

#[test]
fn block_ranges() {
    let g = SudokuSpiel::new();
    let (rx, ry) = g.get_3x3_block(&4, &8);
    assert_eq!(rx, 3..6);
    assert_eq!(ry, 6..9);
    let (rx, ry) = g.get_3x3_block(&0, &2);
    assert_eq!(rx, 0..3);
    assert_eq!(ry, 0..3);
}

#[test]
fn fresh_grid_selects_first_cell() {
    let g = SudokuSpiel::new();
    assert_eq!(g.get_least_amount_of_possibilities(), (0, 0, 9));
}

#[test]
fn collapse_block_at_origin() {
    let mut g = SudokuSpiel::new();
    let discarded = g.collapse_block(0, 0, 1);
    assert_eq!(discarded.len(), 8);
    for i in 1..9 {
        assert_eq!(g.cell(0, i).possibilities_left(), 8);
        assert_eq!(g.cell(i, 0).possibilities_left(), 8);
    }
    for (r, c) in [(1, 1), (1, 2), (2, 1), (2, 2)] {
        assert_eq!(g.cell(r, c).possibilities_left(), 8);
    }
    // Same column as the pivot: reached by the column step, once.
    assert_eq!(g.cell(1, 0).possibilities_left(), 8);
    // Outside every peer group.
    assert_eq!(g.cell(1, 3).possibilities_left(), 9);
    assert_eq!(g.cell(4, 4).possibilities_left(), 9);
}

#[test]
fn selector_prefers_fewest_then_row_major() {
    let mut g = SudokuSpiel::new();
    g.restrict_at(3, 4, 1);
    g.restrict_at(3, 4, 2);
    g.restrict_at(2, 7, 1);
    g.restrict_at(2, 7, 2);
    g.restrict_at(6, 0, 9);
    assert_eq!(g.get_least_amount_of_possibilities(), (2, 7, 7));
}

#[test]
fn selector_skips_determined_cells() {
    let mut g = SudokuSpiel::new();
    for v in 1..=9u8 {
        if v != 7 {
            g.restrict_at(4, 4, v);
        }
    }
    assert_eq!(g.cell(4, 4).possibilities_left(), 1);
    assert_eq!(g.cell(4, 4).symbol(), '7');
    assert_eq!(g.cell(4, 5).possibilities_left(), 9);
    assert_eq!(g.get_least_amount_of_possibilities(), (0, 0, 9));
}

#[test]
fn selector_reports_none_when_all_settled() {
    let mut g = SudokuSpiel::new();
    for r in 0..9 {
        for c in 0..9 {
            g.restrict_at(r, c, 1);
            for v in 3..=9u8 {
                g.restrict_at(r, c, v);
            }
        }
    }
    assert_eq!(g.get_least_amount_of_possibilities(), (0, 0, usize::MAX));
}

#[test]
fn program_seed_solves() {
    let mut g = SudokuSpiel::new();
    g.collapse_block(5, 5, 5);
    g.solve();
    assert_eq!(g.get_least_amount_of_possibilities(), (0, 0, usize::MAX));
    let s = symbols(&g);
    assert_eq!(s.len(), 81);
    for ch in &s {
        assert!(ch.is_ascii_digit());
    }
    assert_eq!(g.cell(5, 5).symbol(), '5');
    let text = g.render();
    let lines: Vec<&str> = text.lines().collect();
    assert_eq!(lines.len(), 12);
    assert_eq!(lines[3], "-----------------------------");
    assert_eq!(lines[7], "-----------------------------");
    assert_eq!(lines[11], "-----------------------------");
    let cells: String = text
        .chars()
        .filter(|c| c.is_ascii_digit() || *c == '-')
        .collect();
    assert_eq!(cells.len(), 81 + 3 * 29);
}

#[test]
fn solve_after_contradiction_terminates() {
    let mut g = SudokuSpiel::new();
    g.collapse_block(2, 3, 4);
    g.restrict_at(2, 3, 4);
    assert_eq!(g.cell(2, 3).possibilities_left(), 0);
    assert_eq!(g.cell(2, 3).symbol(), '0');
    g.solve();
    assert_eq!(g.get_least_amount_of_possibilities(), (0, 0, usize::MAX));
    assert_eq!(g.cell(2, 3).symbol(), '0');
}

#[test]
fn solve_on_fresh_grid_fixes_first_row_in_order() {
    let mut g = SudokuSpiel::new();
    g.solve();
    let s = symbols(&g);
    let first_row: String = s[0..9].iter().collect();
    assert_eq!(first_row, "123456789");
    assert_eq!(g.cell(1, 0).symbol(), '4');
}

#[test]
fn render_fresh_grid() {
    let g = SudokuSpiel::new();
    let text = g.render();
    let row = " -  -  - | -  -  - | -  -  - |\n";
    let sep = "-----------------------------\n";
    let block = format!("{row}{row}{row}{sep}");
    assert_eq!(text, format!("{block}{block}{block}"));
}

#[test]
fn render_shows_digits_and_zero() {
    let mut g = SudokuSpiel::new();
    g.collapse_block(0, 0, 3);
    g.collapse_block(8, 8, 9);
    g.restrict_at(8, 8, 9);
    let text = g.render();
    let lines: Vec<&str> = text.lines().collect();
    assert_eq!(lines[0], " 3  -  - | -  -  - | -  -  - |");
    assert_eq!(lines[10], " -  -  - | -  -  - | -  -  0 |");
}
