use minesweep_core::MineField;

#[test]
fn blink_clock_signals_at_half_and_full_period() {
    let mut m = MineField::new(2, 2, 0);
    assert_eq!(m.blink_period, 80);
    assert_eq!(m.tick_count, 0);
    for call in 1..=79u16 {
        let redraw = m.tick();
        if call == 40 {
            assert!(redraw, "call {} must redraw at half period", call);
            assert_eq!(m.tick_count, 40);
        } else {
            assert!(!redraw, "call {} must stay silent", call);
            assert_eq!(m.tick_count, call);
        }
    }
    // the call that completes the period redraws and resets
    let redraw = m.tick();
    assert!(redraw);
    assert_eq!(m.tick_count, 0);
}

#[test]
fn reset_tick_restarts_the_blink_phase() {
    let mut m = MineField::new(2, 2, 0);
    for _ in 0..25 {
        m.tick();
    }
    assert_eq!(m.tick_count, 25);
    m.reset_tick();
    assert_eq!(m.tick_count, 0);
}

#[test]
fn cursor_moves_clamp_at_the_edges() {
    let mut m = MineField::new(3, 2, 0);
    m.up();
    m.left();
    assert_eq!((m.cursor_row, m.cursor_col), (0, 0));
    m.right();
    m.right();
    m.right();
    assert_eq!(m.cursor_col, 2);
    m.down();
    m.down();
    assert_eq!(m.cursor_row, 1);
    m.up();
    assert_eq!(m.cursor_row, 0);
    m.left();
    assert_eq!(m.cursor_col, 1);
}

#[test]
fn pointer_update_reports_real_moves_only() {
    let mut m = MineField::new(4, 3, 0);
    assert!(m.update_by_pointer(2, 1));
    assert_eq!((m.cursor_row, m.cursor_col), (1, 2));
    // the same cell again is no move
    assert!(!m.update_by_pointer(2, 1));
    assert_eq!((m.cursor_row, m.cursor_col), (1, 2));
    // out-of-range coordinates are rejected, never clamped into bounds
    assert!(!m.update_by_pointer(4, 0));
    assert!(!m.update_by_pointer(0, 3));
    assert_eq!((m.cursor_row, m.cursor_col), (1, 2));
}

#[test]
fn closed_cells_render_as_placeholder() {
    let mut m = MineField::new(3, 1, 1);
    m.place_mines(&vec![1, 0, 2]);
    // the cell away from the cursor is a plain closed cell
    let (glyph, bgc, fgc) = m.cell_view(0, 2);
    assert_eq!(glyph, 'L');
    assert_eq!((bgc, fgc), (0, 1));
}

#[test]
fn focused_cell_blinks_the_aim_point() {
    let mut m = MineField::new(3, 1, 1);
    m.place_mines(&vec![1, 0, 2]);
    // right after a reset the blink phase shows the overlay
    assert_eq!(m.tick_count, 0);
    let (glyph, _, _) = m.cell_view(0, 0);
    assert_eq!(glyph, '@');
    // in the second half of the cycle the true glyph comes through
    for _ in 0..40 {
        m.tick();
    }
    let (glyph, _, _) = m.cell_view(0, 0);
    assert_eq!(glyph, 'L');
}

#[test]
fn opened_cells_render_value_glyphs() {
    let mut m = MineField::new(3, 1, 1);
    m.place_mines(&vec![1, 0, 2]);
    assert!(m.click());
    // the opened count-1 cell under the cursor, second blink half
    for _ in 0..40 {
        m.tick();
    }
    let (glyph, bgc, fgc) = m.cell_view(0, 0);
    assert_eq!(glyph, '1');
    assert_eq!((bgc, fgc), (2, 3));
}

#[test]
fn empty_opened_cells_render_underscore() {
    let mut m = MineField::new(2, 2, 0);
    assert!(m.click());
    // success suppresses the focus overlay: the true glyph shows
    let (glyph, bgc, fgc) = m.cell_view(0, 0);
    assert_eq!(glyph, '_');
    assert_eq!((bgc, fgc), (2, 3));
}

#[test]
fn explosion_marks_the_fatal_mine() {
    let mut m = MineField::new(2, 2, 4);
    m.click();
    assert!(m.exploded);
    // the cursor cell holds the mine that lost the game
    let (glyph, _, _) = m.cell_view(0, 0);
    assert_eq!(glyph, '*');
}

#[test]
fn ending_reveal_uses_its_own_palette() {
    let mut m = MineField::new(2, 2, 4);
    m.click();
    m.reveal_all();
    let (glyph, bgc, fgc) = m.cell_view(1, 1);
    assert_eq!(glyph, '@');
    assert_eq!((bgc, fgc), (4, 5));
}
