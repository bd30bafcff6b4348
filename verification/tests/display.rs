use linefreq::display::dec_string;
use linefreq::display::digit_width;
use linefreq::display::render_rows;
use linefreq::display::row_string;
use linefreq::display::should_render_final;
use linefreq::display::status_line;
use linefreq::display::DisplayState;

#[test]
fn digit_width_counts_decimal_digits() {
    assert_eq!(digit_width(0), 1);
    assert_eq!(digit_width(9), 1);
    assert_eq!(digit_width(10), 2);
    assert_eq!(digit_width(999), 3);
    assert_eq!(digit_width(1000), 4);
}

#[test]
fn decimal_rendering_is_exact() {
    assert_eq!(dec_string(0), "0");
    assert_eq!(dec_string(7), "7");
    assert_eq!(dec_string(42), "42");
    assert_eq!(dec_string(90210), "90210");
}

#[test]
fn status_line_spells_out_both_totals() {
    assert_eq!(status_line(3, 1), "3 total, 1 unique lines");
    assert_eq!(status_line(0, 0), "0 total, 0 unique lines");
    assert_eq!(status_line(1234, 56), "1234 total, 56 unique lines");
}

#[test]
fn rows_right_align_counts_and_separate_text() {
    assert_eq!(row_string(3, "apple", 3, 80), "  3: apple");
    assert_eq!(row_string(123, "apple", 3, 80), "123: apple");
}

#[test]
fn narrow_terminal_truncates_the_line_text() {
    // width 9 leaves 9 - 3 - 2 = 4 characters for the text
    assert_eq!(row_string(42, "elderberry", 3, 9), " 42: elde");
}

#[test]
fn too_narrow_terminal_prints_the_count_only() {
    assert_eq!(row_string(42, "elderberry", 3, 5), " 42");
    assert_eq!(row_string(42, "elderberry", 3, 4), " 42");
}

#[test]
fn frame_takes_top_entries_up_to_height() {
    let ranking = vec![
        (3, "pear".to_string()),
        (2, "apple".to_string()),
        (1, "fig".to_string()),
    ];

    let rows = render_rows(&ranking, 80, 3);
    assert_eq!(rows, vec!["3: pear".to_string(), "2: apple".to_string()]);

    let all = render_rows(&ranking, 80, 10);
    assert_eq!(all.len(), 3);
}

#[test]
fn counts_align_to_the_widest_count() {
    let ranking = vec![
        (120, "pear".to_string()),
        (35, "apple".to_string()),
        (7, "fig".to_string()),
    ];

    let rows = render_rows(&ranking, 80, 10);
    assert_eq!(
        rows,
        vec![
            "120: pear".to_string(),
            " 35: apple".to_string(),
            "  7: fig".to_string(),
        ]
    );
}

#[test]
fn single_row_terminal_shows_no_ranked_rows() {
    let ranking = vec![(3, "pear".to_string()), (1, "fig".to_string())];

    let rows = render_rows(&ranking, 80, 1);
    assert!(rows.is_empty());
}

#[test]
fn degenerate_terminal_sizes_render_nothing_and_do_not_crash() {
    let ranking = vec![(3, "pear".to_string())];

    assert!(render_rows(&ranking, 80, 0).is_empty());
    assert!(render_rows(&ranking, 0, 0).is_empty());
    assert_eq!(render_rows(&ranking, 0, 5).len(), 1);
}

#[test]
fn first_frame_always_redraws() {
    let mut state = DisplayState::new(0);
    assert!(state.step(0, 0));
}

#[test]
fn unchanged_total_waits_for_the_forced_redraw() {
    let mut state = DisplayState::new(0);
    assert!(state.step(5, 0));
    // same total, deadline five seconds away: nothing to redraw
    assert!(!state.step(5, 100));
    assert!(!state.step(5, 4999));
    // the forced redraw recovers from undetected terminal resizes
    assert!(state.step(5, 5000));
    // a change in the total redraws at once
    assert!(!state.step(5, 5100));
    assert!(state.step(6, 5200));
}

#[test]
fn final_frame_is_skipped_only_when_nothing_arrived() {
    assert!(!should_render_final(0));
    assert!(should_render_final(1));
}
