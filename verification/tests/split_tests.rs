use tui_rsx::constraint::{Constraint, SplitOptions};
use tui_rsx::geometry::{Direction, Rect};
use tui_rsx::split::{resolve_sizes, split};

fn opts() -> SplitOptions {
    SplitOptions { margin: 0 }
}

fn region(width: u16, height: u16) -> Rect {
    Rect::new(0, 0, width, height)
}

#[test]
fn length_then_min_fills_the_rest() {
    let cs = vec![Constraint::Length(2), Constraint::Min(0)];
    let sizes = resolve_sizes(&cs, 10);
    assert_eq!(sizes, vec![2, 8]);
}

#[test]
fn column_splits_heights() {
    let cs = vec![Constraint::Length(2), Constraint::Min(0)];
    let out = split(region(10, 10), Direction::Vertical, &cs, opts());
    assert_eq!(out.len(), 2);
    assert_eq!(out[0], Rect { x: 0, y: 0, width: 10, height: 2 });
    assert_eq!(out[1], Rect { x: 0, y: 2, width: 10, height: 8 });
}

#[test]
fn row_splits_widths() {
    let cs = vec![Constraint::Length(4), Constraint::Min(0)];
    let out = split(region(10, 3), Direction::Horizontal, &cs, opts());
    assert_eq!(out[0], Rect { x: 0, y: 0, width: 4, height: 3 });
    assert_eq!(out[1], Rect { x: 4, y: 0, width: 6, height: 3 });
}

#[test]
fn percentages_summing_to_100_cover_exactly() {
    let cs = vec![
        Constraint::Percentage(33),
        Constraint::Percentage(33),
        Constraint::Percentage(34),
    ];
    let sizes = resolve_sizes(&cs, 10);
    assert_eq!(sizes.iter().map(|s| *s as u32).sum::<u32>(), 10);
    // The rounding surplus goes to the earliest percentage child.
    assert_eq!(sizes, vec![4, 3, 3]);
}

#[test]
fn percentage_surplus_to_earliest_on_odd_extent() {
    let cs = vec![Constraint::Percentage(50), Constraint::Percentage(50)];
    let sizes = resolve_sizes(&cs, 7);
    assert_eq!(sizes, vec![4, 3]);
}

#[test]
fn split_is_length_preserving() {
    let cs = vec![
        Constraint::Length(3),
        Constraint::Percentage(20),
        Constraint::Min(1),
        Constraint::Max(2),
    ];
    let out = split(region(20, 20), Direction::Vertical, &cs, opts());
    assert_eq!(out.len(), cs.len());
    // Sub-regions tile the extent: consecutive, no gap, no overlap.
    let mut y = 0;
    let mut total = 0;
    for r in &out {
        assert_eq!(r.y, y);
        assert_eq!(r.x, 0);
        assert_eq!(r.width, 20);
        y += r.height;
        total += r.height;
    }
    assert_eq!(total, 20);
}

#[test]
fn overflow_starves_later_children() {
    let cs = vec![
        Constraint::Length(8),
        Constraint::Length(8),
        Constraint::Length(8),
    ];
    let sizes = resolve_sizes(&cs, 10);
    assert_eq!(sizes, vec![8, 2, 0]);
}

#[test]
fn max_is_capped_and_min_takes_the_rest() {
    let cs = vec![Constraint::Max(3), Constraint::Min(0)];
    let sizes = resolve_sizes(&cs, 10);
    assert_eq!(sizes, vec![3, 7]);
}

#[test]
fn min_floor_is_respected() {
    let cs = vec![Constraint::Min(4), Constraint::Length(2)];
    let sizes = resolve_sizes(&cs, 10);
    // The Min child holds its floor of 4 and absorbs the remaining 4.
    assert_eq!(sizes, vec![8, 2]);
}

#[test]
fn two_min_children_share_evenly_earlier_wins_odd_cell() {
    let cs = vec![Constraint::Min(0), Constraint::Min(0)];
    let sizes = resolve_sizes(&cs, 9);
    assert_eq!(sizes, vec![5, 4]);
}

#[test]
fn margin_shrinks_the_region_on_all_sides() {
    let cs = vec![Constraint::Min(0)];
    let out = split(region(10, 10), Direction::Vertical, &cs, SplitOptions { margin: 1 });
    assert_eq!(out[0], Rect { x: 1, y: 1, width: 8, height: 8 });
}

#[test]
fn empty_constraints_give_empty_split() {
    let cs: Vec<Constraint> = vec![];
    let out = split(region(10, 10), Direction::Vertical, &cs, opts());
    assert!(out.is_empty());
}

#[test]
fn zero_extent_gives_zero_sizes() {
    let cs = vec![Constraint::Percentage(50), Constraint::Min(0)];
    let sizes = resolve_sizes(&cs, 0);
    assert_eq!(sizes, vec![0, 0]);
}

#[test]
fn largest_extent_is_handled() {
    let cs = vec![Constraint::Min(0), Constraint::Length(1)];
    let sizes = resolve_sizes(&cs, u16::MAX);
    assert_eq!(sizes, vec![u16::MAX - 1, 1]);
}
