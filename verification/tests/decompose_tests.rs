use unobstructed::rect::Rect;

fn has_cell(r: &Rect, px: i64, py: i64) -> bool {
    r.left() <= px && px <= r.right() && r.bottom() <= py && py <= r.top()
}

fn is_free(base: &Rect, obstructions: &[&Rect], px: i64, py: i64) -> bool {
    has_cell(base, px, py) && !obstructions.iter().any(|o| has_cell(o, px, py))
}

fn is_reported(base: &Rect, obstructions: &[&Rect], px: i64, py: i64) -> bool {
    is_free(base, obstructions, px, py)
        && (py > base.bottom() || is_free(base, obstructions, px, py + 1))
}

/// Holds the result against every cell of the base and a margin around it.
fn check_decomposition(base: &Rect, obstructions: &[&Rect], out: &[Rect]) {
    for r in out.iter() {
        assert!(r.width > 0 && r.height > 0);
        assert!(base.left() <= r.left() && r.right() <= base.right());
        assert!(base.bottom() <= r.bottom() && r.top() <= base.top());
        for o in obstructions.iter() {
            assert!(!r.intersects(o));
        }
    }
    for px in (base.left() - 2)..=(base.right() + 2) {
        for py in (base.bottom() - 2)..=(base.top() + 2) {
            let covered = out.iter().any(|r| has_cell(r, px, py));
            assert_eq!(covered, is_reported(base, obstructions, px, py));
        }
    }
}

fn every_free_cell_is_reported(base: &Rect, obstructions: &[&Rect]) -> bool {
    (base.left()..=base.right()).all(|px| {
        !is_free(base, obstructions, px, base.bottom())
            || is_free(base, obstructions, px, base.bottom() + 1)
    })
}

#[test]
fn two_obstruction_scene_leaves_exactly_the_free_cells() {
    let base = Rect::new(0, 0, 20, 7);
    let red = Rect::new(0, 3, 6, 4);
    let blue = Rect::new(10, 0, 10, 2);
    let out = base.unobstructed_rects(&[&red, &blue]);
    check_decomposition(&base, &[&red, &blue], &out);
    assert!(every_free_cell_is_reported(&base, &[&red, &blue]));
    for px in 0..20 {
        for py in 0..7 {
            let covered = out.iter().any(|r| has_cell(r, px, py));
            assert_eq!(covered, !has_cell(&red, px, py) && !has_cell(&blue, px, py));
        }
    }
    for r in out.iter() {
        assert!(!r.intersects(&red));
        assert!(!r.intersects(&blue));
    }
}

#[test]
fn two_obstruction_scene_rectangles() {
    let base = Rect::new(0, 0, 20, 7);
    let red = Rect::new(0, 3, 6, 4);
    let blue = Rect::new(10, 0, 10, 2);
    let out = base.unobstructed_rects(&[&red, &blue]);
    assert_eq!(
        out,
        vec![
            Rect::new(6, 0, 4, 7),
            Rect::new(0, 0, 10, 3),
            Rect::new(10, 2, 10, 5),
            Rect::new(10, 2, 10, 1),
        ]
    );
}

#[test]
fn no_obstruction_returns_the_base() {
    let base = Rect::new(-4, 3, 20, 7);
    assert_eq!(base.unobstructed_rects(&[]), vec![Rect::new(-4, 3, 20, 7)]);
    let column = Rect::new(0, 0, 1, 2);
    assert_eq!(column.unobstructed_rects(&[]), vec![column]);
}

#[test]
fn single_row_base_alone_returns_nothing() {
    let base = Rect::new(0, 0, 5, 1);
    assert_eq!(base.unobstructed_rects(&[]), Vec::<Rect>::new());
}

#[test]
fn free_bottom_row_under_an_obstruction_is_left_out() {
    let base = Rect::new(0, 0, 10, 10);
    let above = Rect::new(0, 1, 10, 9);
    let out = base.unobstructed_rects(&[&above]);
    assert_eq!(out, Vec::<Rect>::new());
    assert!(!every_free_cell_is_reported(&base, &[&above]));
    check_decomposition(&base, &[&above], &out);
}

#[test]
fn obstruction_equal_to_the_base_leaves_nothing() {
    let base = Rect::new(2, 3, 10, 10);
    let same = Rect::new(2, 3, 10, 10);
    assert_eq!(base.unobstructed_rects(&[&same]), Vec::<Rect>::new());
}

#[test]
fn obstruction_larger_than_the_base_leaves_nothing() {
    let base = Rect::new(2, 3, 10, 10);
    let larger = Rect::new(0, 0, 30, 30);
    assert_eq!(base.unobstructed_rects(&[&larger]), Vec::<Rect>::new());
}

#[test]
fn outside_obstruction_has_no_effect() {
    let base = Rect::new(0, 0, 10, 10);
    let outside = Rect::new(20, 20, 5, 5);
    let inside = Rect::new(2, 2, 3, 3);
    assert_eq!(base.unobstructed_rects(&[&outside]), base.unobstructed_rects(&[]));
    assert_eq!(base.unobstructed_rects(&[&outside]), vec![base]);
    assert_eq!(
        base.unobstructed_rects(&[&outside, &inside]),
        base.unobstructed_rects(&[&inside])
    );
    assert_eq!(
        base.unobstructed_rects(&[&inside, &outside]),
        base.unobstructed_rects(&[&inside])
    );
}

#[test]
fn adjacent_obstructions_make_no_empty_rectangle() {
    let base = Rect::new(0, 0, 10, 10);
    let a = Rect::new(0, 2, 5, 4);
    let b = Rect::new(5, 2, 5, 4);
    assert_eq!(a.right() + 1, b.left());
    let out = base.unobstructed_rects(&[&a, &b]);
    assert!(!out.is_empty());
    for r in out.iter() {
        assert!(r.width > 0);
        assert!(r.height > 0);
    }
    check_decomposition(&base, &[&a, &b], &out);
    assert_eq!(out, vec![Rect::new(0, 6, 10, 4), Rect::new(0, 0, 10, 2)]);
}

#[test]
fn adjacent_obstructions_of_different_rows() {
    let base = Rect::new(0, 0, 10, 10);
    let a = Rect::new(0, 2, 5, 4);
    let b = Rect::new(5, 4, 5, 4);
    let out = base.unobstructed_rects(&[&a, &b]);
    for r in out.iter() {
        assert!(r.width > 0);
        assert!(r.height > 0);
    }
    check_decomposition(&base, &[&a, &b], &out);
}

#[test]
fn rerun_returns_the_same_rectangles() {
    let base = Rect::new(0, 0, 20, 7);
    let red = Rect::new(0, 3, 6, 4);
    let blue = Rect::new(10, 0, 10, 2);
    let first = base.unobstructed_rects(&[&red, &blue]);
    let second = base.unobstructed_rects(&[&red, &blue]);
    assert_eq!(first, second);
}

#[test]
fn order_of_obstructions_does_not_change_the_cells() {
    let base = Rect::new(0, 0, 12, 12);
    let a = Rect::new(1, 1, 4, 4);
    let b = Rect::new(3, 3, 6, 6);
    let c = Rect::new(8, 0, 2, 12);
    let one = base.unobstructed_rects(&[&a, &b, &c]);
    let two = base.unobstructed_rects(&[&c, &b, &a]);
    check_decomposition(&base, &[&a, &b, &c], &one);
    check_decomposition(&base, &[&a, &b, &c], &two);
}

#[test]
fn duplicate_obstructions_count_once() {
    let base = Rect::new(0, 0, 10, 10);
    let a = Rect::new(3, 3, 4, 4);
    let out = base.unobstructed_rects(&[&a, &a]);
    check_decomposition(&base, &[&a, &a], &out);
    assert_eq!(out, base.unobstructed_rects(&[&a]));
}

#[test]
fn obstruction_in_the_middle_leaves_a_frame() {
    let base = Rect::new(0, 0, 10, 10);
    let a = Rect::new(3, 3, 4, 4);
    let out = base.unobstructed_rects(&[&a]);
    check_decomposition(&base, &[&a], &out);
    assert!(every_free_cell_is_reported(&base, &[&a]));
}

#[test]
fn obstructions_partly_outside_the_base() {
    let base = Rect::new(0, 0, 10, 10);
    let left = Rect::new(-5, 4, 8, 3);
    let top = Rect::new(6, 8, 10, 10);
    let below = Rect::new(2, -7, 3, 9);
    let out = base.unobstructed_rects(&[&left, &top, &below]);
    check_decomposition(&base, &[&left, &top, &below], &out);
}

#[test]
fn nested_and_overlapping_obstructions() {
    let base = Rect::new(-6, -6, 16, 14);
    let a = Rect::new(-4, -2, 8, 6);
    let b = Rect::new(-2, 0, 3, 2);
    let c = Rect::new(1, 2, 7, 5);
    let d = Rect::new(-6, 5, 3, 3);
    let e = Rect::new(6, -6, 2, 4);
    let out = base.unobstructed_rects(&[&a, &b, &c, &d, &e]);
    check_decomposition(&base, &[&a, &b, &c, &d, &e], &out);
}

#[test]
fn staircase_of_obstructions() {
    let base = Rect::new(0, 0, 12, 12);
    let s1 = Rect::new(0, 9, 3, 3);
    let s2 = Rect::new(3, 6, 3, 3);
    let s3 = Rect::new(6, 3, 3, 3);
    let s4 = Rect::new(9, 0, 3, 3);
    let out = base.unobstructed_rects(&[&s1, &s2, &s3, &s4]);
    check_decomposition(&base, &[&s1, &s2, &s3, &s4], &out);
    assert!(every_free_cell_is_reported(&base, &[&s1, &s2, &s3, &s4]));
}

#[test]
fn column_strips_leave_the_columns_between() {
    let base = Rect::new(0, 0, 9, 4);
    let a = Rect::new(1, 0, 2, 4);
    let b = Rect::new(5, 0, 1, 4);
    let out = base.unobstructed_rects(&[&a, &b]);
    check_decomposition(&base, &[&a, &b], &out);
    assert_eq!(
        out,
        vec![Rect::new(0, 0, 1, 4), Rect::new(3, 0, 2, 4), Rect::new(6, 0, 3, 4)]
    );
}

/// A small generator of repeatable numbers in `0..bound`.
fn next_number(state: &mut u64, bound: i64) -> i64 {
    *state = state.wrapping_mul(6364136223846793005).wrapping_add(1442695040888963407);
    ((*state >> 33) % (bound as u64)) as i64
}

#[test]
fn many_scenes_leave_exactly_the_reported_cells() {
    let mut state: u64 = 2024;
    for _ in 0..300 {
        let base = Rect::new(
            next_number(&mut state, 5) - 2,
            next_number(&mut state, 5) - 2,
            next_number(&mut state, 9) + 1,
            next_number(&mut state, 9) + 1,
        );
        let count = next_number(&mut state, 6);
        let mut owned: Vec<Rect> = Vec::new();
        for _ in 0..count {
            owned.push(Rect::new(
                next_number(&mut state, 14) - 4,
                next_number(&mut state, 14) - 4,
                next_number(&mut state, 6) + 1,
                next_number(&mut state, 6) + 1,
            ));
        }
        let obstructions: Vec<&Rect> = owned.iter().collect();
        let out = base.unobstructed_rects(&obstructions);
        check_decomposition(&base, &obstructions, &out);
        assert_eq!(out, base.unobstructed_rects(&obstructions));
    }
}

#[test]
fn scenes_without_a_lone_bottom_cell_leave_exactly_the_free_cells() {
    let mut state: u64 = 77;
    let mut seen = 0;
    for _ in 0..300 {
        let base = Rect::new(0, 0, next_number(&mut state, 9) + 1, next_number(&mut state, 9) + 2);
        let count = next_number(&mut state, 4);
        let mut owned: Vec<Rect> = Vec::new();
        for _ in 0..count {
            owned.push(Rect::new(
                next_number(&mut state, 12) - 2,
                next_number(&mut state, 12) - 2,
                next_number(&mut state, 6) + 1,
                next_number(&mut state, 6) + 1,
            ));
        }
        let obstructions: Vec<&Rect> = owned.iter().collect();
        if !every_free_cell_is_reported(&base, &obstructions) {
            continue;
        }
        seen += 1;
        let out = base.unobstructed_rects(&obstructions);
        for px in base.left()..=base.right() {
            for py in base.bottom()..=base.top() {
                let covered = out.iter().any(|r| has_cell(r, px, py));
                assert_eq!(covered, is_free(&base, &obstructions, px, py));
            }
        }
    }
    assert!(seen > 50);
}
