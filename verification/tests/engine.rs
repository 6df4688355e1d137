use minesweep_core::Content;
use minesweep_core::MineField;

/// test a
#[test]
fn test_a() {
    assert_eq!(true, true);
}

#[test]
fn fresh_field_is_closed_and_empty() {
    let m = MineField::new(3, 2, 4);
    assert_eq!(m.width, 3);
    assert_eq!(m.height, 2);
    assert_eq!(m.mine_count, 4);
    assert_eq!(m.opened_count, 0);
    assert!(!m.started);
    assert!(!m.exploded);
    assert!(!m.succeeded);
    assert!(!m.is_end());
    assert_eq!(m.cursor_row, 0);
    assert_eq!(m.cursor_col, 0);
    assert_eq!(m.grid.len(), 6);
    for cell in &m.grid {
        assert!(!cell.is_opened());
        assert!(!cell.is_mine());
        assert_eq!(cell.content_value(), 0);
        assert!(!cell.force_open_at_ending);
    }
}

#[test]
fn two_by_two_no_mines_first_click_wins() {
    let mut m = MineField::new(2, 2, 0);
    let changed = m.click();
    assert!(changed);
    assert!(m.started);
    assert!(!m.exploded);
    assert!(m.succeeded);
    assert!(m.is_end());
    assert_eq!(m.opened_count, 4);
    for cell in &m.grid {
        assert!(cell.is_opened());
        assert!(!cell.is_mine());
    }
}

#[test]
fn two_by_two_full_mines_first_click_explodes() {
    let mut m = MineField::new(2, 2, 4);
    let changed = m.click();
    assert!(changed);
    assert!(m.started);
    assert!(m.exploded);
    assert!(!m.succeeded);
    assert!(m.is_end());
    for cell in &m.grid {
        assert!(cell.is_mine());
        assert_eq!(cell.content_value(), 15);
    }
}

#[test]
fn mine_target_beyond_capacity_fills_every_cell() {
    let mut m = MineField::new(2, 2, 9);
    m.click();
    assert!(m.exploded);
    assert_eq!(m.grid.iter().filter(|c| c.is_mine()).count(), 4);
}

#[test]
fn first_click_never_explodes_when_winnable() {
    // the placement is random, so try several shapes and cursor spots
    for (w, h, mc) in [(4u16, 4u16, 5u16), (5, 3, 14), (1, 2, 1), (8, 8, 20)] {
        for _round in 0..20 {
            let mut m = MineField::new(w, h, mc);
            m.right();
            m.down();
            let changed = m.click();
            assert!(changed);
            assert!(!m.exploded, "first activation hit a mine on {}x{}/{}", w, h, mc);
            assert!(m.opened_count >= 1);
            let mines = m.grid.iter().filter(|c| c.is_mine()).count();
            assert_eq!(mines, mc as usize);
        }
    }
}

#[test]
fn deterministic_placement_lays_counts() {
    let mut m = MineField::new(2, 2, 1);
    // cursor sits at position 0; the first non-cursor entry wins
    m.place_mines(&vec![3, 2, 1, 0]);
    assert!(m.started);
    assert!(!m.grid[0].is_mine());
    assert!(!m.grid[1].is_mine());
    assert!(!m.grid[2].is_mine());
    assert!(m.grid[3].is_mine());
    // every non-mine cell touches the single mine exactly once
    assert_eq!(m.grid[0].content_value(), 1);
    assert_eq!(m.grid[1].content_value(), 1);
    assert_eq!(m.grid[2].content_value(), 1);
    assert_eq!(m.grid[3].content_value(), 15);
}

#[test]
fn deterministic_placement_skips_cursor() {
    let mut m = MineField::new(2, 2, 2);
    // the cursor position leads the order and must be passed over
    m.place_mines(&vec![0, 1, 2, 3]);
    assert!(!m.grid[0].is_mine());
    assert!(m.grid[1].is_mine());
    assert!(m.grid[2].is_mine());
    assert!(!m.grid[3].is_mine());
    assert_eq!(m.grid[0].content_value(), 2);
    assert_eq!(m.grid[3].content_value(), 2);
}

#[test]
fn content_sum_matches_mine_adjacency_incidences() {
    let mut m = MineField::new(3, 3, 2);
    m.place_mines(&vec![4, 8, 0, 1, 2, 3, 5, 6, 7]);
    // center and corner mine; count the (non-mine, adjacent mine) pairs
    let w = m.width as usize;
    let h = m.height as usize;
    let mut content_sum = 0u32;
    let mut incidences = 0u32;
    for r in 0..h {
        for c in 0..w {
            let cell = m.grid[r * w + c];
            if cell.is_mine() {
                continue;
            }
            content_sum += cell.content_value() as u32;
            for (dr, dc) in [
                (-1i32, -1i32),
                (-1, 0),
                (-1, 1),
                (0, -1),
                (0, 1),
                (1, -1),
                (1, 0),
                (1, 1),
            ] {
                let nr = r as i32 + dr;
                let nc = c as i32 + dc;
                if nr >= 0 && nc >= 0 && (nr as usize) < h && (nc as usize) < w {
                    if m.grid[nr as usize * w + nc as usize].is_mine() {
                        incidences += 1;
                    }
                }
            }
        }
    }
    assert_eq!(content_sum, incidences);
    // no non-mine cell reports the mine sentinel
    for cell in &m.grid {
        if !cell.is_mine() {
            assert_ne!(cell.content_value(), 15);
        }
    }
}

#[test]
fn flood_fill_opens_connected_zero_region() {
    let mut m = MineField::new(4, 1, 1);
    // the only mine sits at the far right end of the row
    m.place_mines(&vec![3, 0, 1, 2]);
    let ok = m.open(0, 0);
    assert!(ok);
    // cells 0 and 1 have no adjacent mines, cell 2 counts the mine
    assert!(m.grid[0].is_opened());
    assert!(m.grid[1].is_opened());
    assert!(m.grid[2].is_opened());
    assert!(!m.grid[3].is_opened());
    assert_eq!(m.opened_count, 3);
    assert_eq!(m.grid[2].content_value(), 1);
}

#[test]
fn open_is_idempotent_on_an_opened_region() {
    let mut m = MineField::new(4, 1, 1);
    m.place_mines(&vec![3, 0, 1, 2]);
    assert!(m.open(0, 0));
    let snapshot = m.grid.clone();
    let count = m.opened_count;
    // repeated opens over the already-open region change nothing
    assert!(m.open(0, 0));
    assert!(m.open(0, 1));
    assert!(m.open(0, 2));
    assert_eq!(m.opened_count, count);
    assert_eq!(m.grid, snapshot);
}

#[test]
fn open_on_a_mine_fails_and_changes_nothing() {
    let mut m = MineField::new(4, 1, 1);
    m.place_mines(&vec![3, 0, 1, 2]);
    let snapshot = m.grid.clone();
    assert!(!m.open(0, 3));
    assert_eq!(m.grid, snapshot);
    assert_eq!(m.opened_count, 0);
}

#[test]
fn reveal_all_after_explosion_force_opens_everything() {
    let mut m = MineField::new(2, 2, 4);
    m.click();
    assert!(m.exploded);
    let count_before = m.opened_count;
    m.reveal_all();
    assert!(m.revealed);
    assert!(m.exploded);
    assert!(!m.succeeded);
    assert_eq!(m.opened_count, count_before);
    for cell in &m.grid {
        assert!(cell.is_opened());
        assert!(cell.force_open_at_ending);
        assert!(cell.is_mine());
        assert_eq!(cell.content_value(), 15);
    }
}

#[test]
fn reveal_all_spares_player_opened_cells() {
    let mut m = MineField::new(4, 1, 1);
    m.place_mines(&vec![3, 0, 1, 2]);
    assert!(m.open(0, 0));
    // walking onto the mine loses the game
    m.right();
    m.right();
    m.right();
    assert!(m.click());
    assert!(m.exploded);
    m.reveal_all();
    for (i, cell) in m.grid.iter().enumerate() {
        assert!(cell.is_opened());
        // the three cells the flood opened keep the play palette
        assert_eq!(cell.force_open_at_ending, i == 3, "cell {}", i);
    }
}

#[test]
fn second_click_on_open_cell_is_a_no_op() {
    let mut m = MineField::new(3, 1, 1);
    // the mine in the middle keeps the first click from cascading
    m.place_mines(&vec![1, 0, 2]);
    assert!(m.click());
    assert!(!m.is_end());
    let snapshot = m.grid.clone();
    assert!(!m.click());
    assert_eq!(m.grid, snapshot);
}

#[test]
fn success_requires_exact_equality() {
    let mut m = MineField::new(3, 1, 1);
    // the mine in the middle splits the two safe cells
    m.place_mines(&vec![1, 0, 2]);
    // opening one of two safe cells must not win yet
    assert!(m.click());
    assert!(!m.succeeded);
    assert_eq!(m.opened_count, 1);
    m.right();
    m.right();
    assert!(m.click());
    assert!(m.succeeded);
    assert!(!m.exploded);
    assert_eq!(m.opened_count + m.mine_count as usize, 3);
}

#[test]
fn content_tags_never_mix_mine_and_count() {
    let mut m = MineField::new(3, 3, 3);
    m.place_mines(&vec![0, 4, 8, 1, 2, 3, 5, 6, 7]);
    for cell in &m.grid {
        match cell.content {
            Content::Mine => assert_eq!(cell.content_value(), 15),
            Content::Count(n) => assert!((1..=8).contains(&n)),
            Content::Empty => assert_eq!(cell.content_value(), 0),
        }
    }
}
