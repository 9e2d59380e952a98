use unobstructed::rect::Rect;
use unobstructed::sweep::{gaps_at, insert_coordinate, relevant_obstructions, sweep_coordinates, Gap};
use unobstructed::tracker::{
    advance, close_sections, fits_some_gap, interval_taken, sort_by_start_descending,
    ActiveSection,
};

fn section(start_x: i64, top: i64, bottom: i64) -> ActiveSection {
    ActiveSection { start_x, top, bottom }
}

fn gap(top: i64, bottom: i64) -> Gap {
    Gap { top, bottom }
}

#[test]
fn relevant_obstructions_drops_outside_and_orders_by_top() {
    let base = Rect::new(0, 0, 10, 10);
    let low = Rect::new(0, 0, 2, 2);
    let outside = Rect::new(20, 20, 5, 5);
    let high = Rect::new(3, 3, 2, 5);
    let middle = Rect::new(8, 1, 5, 4);
    let sorted = relevant_obstructions(&base, &[&low, &outside, &high, &middle]);
    assert_eq!(sorted, vec![high, middle, low]);
}

#[test]
fn relevant_obstructions_of_nothing_is_empty() {
    let base = Rect::new(0, 0, 10, 10);
    assert_eq!(relevant_obstructions(&base, &[]), Vec::<Rect>::new());
}

#[test]
fn relevant_obstructions_keeps_duplicates() {
    let base = Rect::new(0, 0, 10, 10);
    let a = Rect::new(1, 1, 2, 2);
    let sorted = relevant_obstructions(&base, &[&a, &a]);
    assert_eq!(sorted, vec![a, a]);
}

#[test]
fn insert_coordinate_puts_a_new_value_in_its_place() {
    let mut points: Vec<i64> = vec![1, 5];
    insert_coordinate(&mut points, 3);
    assert_eq!(points, vec![1, 3, 5]);
    insert_coordinate(&mut points, 9);
    assert_eq!(points, vec![1, 3, 5, 9]);
    insert_coordinate(&mut points, -2);
    assert_eq!(points, vec![-2, 1, 3, 5, 9]);
}

#[test]
fn insert_coordinate_leaves_a_known_value_alone() {
    let mut points: Vec<i64> = vec![1, 3, 5];
    insert_coordinate(&mut points, 5);
    assert_eq!(points, vec![1, 3, 5]);
    insert_coordinate(&mut points, 1);
    assert_eq!(points, vec![1, 3, 5]);
}

#[test]
fn sweep_coordinates_of_the_two_obstruction_scene() {
    let base = Rect::new(0, 0, 20, 7);
    let red = Rect::new(0, 3, 6, 4);
    let blue = Rect::new(10, 0, 10, 2);
    let sorted = relevant_obstructions(&base, &[&red, &blue]);
    assert_eq!(sweep_coordinates(&base, &sorted), vec![0, 6, 10]);
}

#[test]
fn sweep_coordinates_without_obstructions_is_the_left_edge() {
    let base = Rect::new(-3, 0, 20, 7);
    assert_eq!(sweep_coordinates(&base, &Vec::new()), vec![-3]);
}

#[test]
fn sweep_coordinates_stay_within_the_base() {
    let base = Rect::new(0, 0, 10, 10);
    let wide = Rect::new(-5, 2, 30, 2);
    let inner = Rect::new(4, 5, 2, 2);
    let sorted = relevant_obstructions(&base, &[&wide, &inner]);
    assert_eq!(sweep_coordinates(&base, &sorted), vec![0, 4, 6]);
}

#[test]
fn sweep_coordinates_at_the_edge_of_the_grid() {
    let base = Rect::new(i64::MAX - 9, 0, 10, 10);
    let edge = Rect::new(i64::MAX - 4, 0, 5, 3);
    let sorted = relevant_obstructions(&base, &[&edge]);
    assert_eq!(sweep_coordinates(&base, &sorted), vec![i64::MAX - 9, i64::MAX - 4]);
}

#[test]
fn gaps_of_the_two_obstruction_scene() {
    let base = Rect::new(0, 0, 20, 7);
    let red = Rect::new(0, 3, 6, 4);
    let blue = Rect::new(10, 0, 10, 2);
    let sorted = relevant_obstructions(&base, &[&red, &blue]);
    assert_eq!(gaps_at(&base, &sorted, 0), vec![gap(2, 0)]);
    assert_eq!(gaps_at(&base, &sorted, 6), vec![gap(6, 0)]);
    assert_eq!(gaps_at(&base, &sorted, 10), vec![gap(6, 2)]);
}

#[test]
fn gaps_between_stacked_obstructions() {
    let base = Rect::new(0, 0, 10, 20);
    let upper = Rect::new(0, 14, 10, 3);
    let lower = Rect::new(0, 5, 10, 4);
    let sorted = relevant_obstructions(&base, &[&lower, &upper]);
    assert_eq!(gaps_at(&base, &sorted, 3), vec![gap(19, 17), gap(13, 9), gap(4, 0)]);
}

#[test]
fn gaps_merge_overlapping_obstructions() {
    let base = Rect::new(0, 0, 10, 20);
    let a = Rect::new(0, 10, 10, 6);
    let b = Rect::new(0, 8, 10, 5);
    let inside = Rect::new(0, 11, 10, 2);
    let sorted = relevant_obstructions(&base, &[&a, &b, &inside]);
    assert_eq!(gaps_at(&base, &sorted, 0), vec![gap(19, 16), gap(7, 0)]);
}

#[test]
fn gap_of_the_bottom_row_alone_is_not_reported() {
    let base = Rect::new(0, 0, 10, 10);
    let above = Rect::new(0, 1, 10, 9);
    let sorted = relevant_obstructions(&base, &[&above]);
    assert_eq!(gaps_at(&base, &sorted, 0), Vec::<Gap>::new());
    let single = Rect::new(0, 0, 10, 1);
    assert_eq!(gaps_at(&single, &Vec::new(), 0), Vec::<Gap>::new());
}

#[test]
fn gap_of_one_row_above_the_bottom_is_reported() {
    let base = Rect::new(0, 0, 10, 10);
    let upper = Rect::new(0, 6, 10, 4);
    let lower = Rect::new(0, 0, 10, 5);
    let sorted = relevant_obstructions(&base, &[&upper, &lower]);
    assert_eq!(gaps_at(&base, &sorted, 0), vec![gap(5, 5)]);
}

#[test]
fn gaps_with_an_obstruction_reaching_the_lowest_row_of_the_grid() {
    let base = Rect::new(0, i64::MIN, 4, 10);
    let low = Rect::new(0, i64::MIN, 4, 3);
    let sorted = relevant_obstructions(&base, &[&low]);
    assert_eq!(gaps_at(&base, &sorted, 1), vec![gap(i64::MIN + 9, i64::MIN + 3)]);
}

#[test]
fn gaps_ignore_obstructions_that_do_not_span_the_column() {
    let base = Rect::new(0, 0, 10, 10);
    let left = Rect::new(0, 0, 3, 10);
    let sorted = relevant_obstructions(&base, &[&left]);
    assert_eq!(gaps_at(&base, &sorted, 2), Vec::<Gap>::new());
    assert_eq!(gaps_at(&base, &sorted, 3), vec![gap(9, 0)]);
}

#[test]
fn section_fits_a_gap_that_holds_all_its_rows() {
    let gaps = vec![gap(9, 7), gap(5, 0)];
    assert!(fits_some_gap(&section(0, 5, 0), &gaps));
    assert!(fits_some_gap(&section(0, 3, 1), &gaps));
    assert!(fits_some_gap(&section(0, 9, 8), &gaps));
    assert!(!fits_some_gap(&section(0, 6, 0), &gaps));
    assert!(!fits_some_gap(&section(0, 9, 5), &gaps));
    assert!(!fits_some_gap(&section(0, 3, 1), &Vec::new()));
}

#[test]
fn interval_taken_asks_for_the_same_rows() {
    let sections = vec![section(0, 5, 0), section(4, 9, 7)];
    assert!(interval_taken(&sections, 5, 0));
    assert!(interval_taken(&sections, 9, 7));
    assert!(!interval_taken(&sections, 5, 1));
    assert!(!interval_taken(&sections, 9, 0));
    assert!(!interval_taken(&Vec::new(), 5, 0));
}

#[test]
fn sections_sort_by_descending_start_and_keep_ties_in_order() {
    let sections = vec![section(0, 2, 0), section(6, 6, 0), section(3, 9, 8), section(6, 1, 1)];
    assert_eq!(
        sort_by_start_descending(&sections),
        vec![section(6, 6, 0), section(6, 1, 1), section(3, 9, 8), section(0, 2, 0)]
    );
}

#[test]
fn advance_starts_a_section_for_each_gap() {
    let base = Rect::new(0, 0, 10, 20);
    let mut out: Vec<Rect> = Vec::new();
    let next = advance(&base, &Vec::new(), &vec![gap(19, 17), gap(13, 9)], 0, &mut out);
    assert_eq!(next, vec![section(0, 19, 17), section(0, 13, 9)]);
    assert_eq!(out, Vec::<Rect>::new());
}

#[test]
fn advance_keeps_a_section_that_fits_and_starts_the_wider_gap() {
    let base = Rect::new(0, 0, 20, 7);
    let mut out: Vec<Rect> = Vec::new();
    let next = advance(&base, &vec![section(0, 2, 0)], &vec![gap(6, 0)], 6, &mut out);
    assert_eq!(next, vec![section(0, 2, 0), section(6, 6, 0)]);
    assert_eq!(out, Vec::<Rect>::new());
}

#[test]
fn advance_closes_blocked_sections_and_starts_the_shared_rows() {
    let base = Rect::new(0, 0, 20, 7);
    let mut out: Vec<Rect> = vec![Rect::new(50, 50, 1, 1)];
    let active = vec![section(0, 2, 0), section(6, 6, 0)];
    let next = advance(&base, &active, &vec![gap(6, 2)], 10, &mut out);
    assert_eq!(next, vec![section(10, 6, 2), section(10, 2, 2)]);
    assert_eq!(
        out,
        vec![Rect::new(50, 50, 1, 1), Rect::new(6, 0, 4, 7), Rect::new(0, 0, 10, 3)]
    );
}

#[test]
fn advance_with_no_gap_closes_everything() {
    let base = Rect::new(0, 0, 20, 7);
    let mut out: Vec<Rect> = Vec::new();
    let next = advance(&base, &vec![section(2, 6, 0)], &Vec::new(), 5, &mut out);
    assert_eq!(next, Vec::<ActiveSection>::new());
    assert_eq!(out, vec![Rect::new(2, 0, 3, 7)]);
}

#[test]
fn advance_starts_shared_rows_once() {
    let base = Rect::new(0, 0, 20, 10);
    let mut out: Vec<Rect> = Vec::new();
    let active = vec![section(0, 9, 0), section(3, 9, 0)];
    let next = advance(&base, &active, &vec![gap(9, 6)], 5, &mut out);
    assert_eq!(next, vec![section(5, 9, 6)]);
    assert_eq!(out, vec![Rect::new(3, 0, 2, 10), Rect::new(0, 0, 5, 10)]);
}

#[test]
fn close_sections_ends_each_at_the_right_edge() {
    let base = Rect::new(0, 0, 20, 7);
    let mut out: Vec<Rect> = vec![Rect::new(0, 0, 10, 3)];
    close_sections(&base, &vec![section(10, 6, 2), section(0, 2, 2)], &mut out);
    assert_eq!(
        out,
        vec![Rect::new(0, 0, 10, 3), Rect::new(10, 2, 10, 5), Rect::new(0, 2, 20, 1)]
    );
}
