use modal_editor::divide::divide;
use modal_editor::layout::{Anchors, Constraints, Dimension, Direction, Position, Rect};

fn rect(x: u16, y: u16, w: u16, h: u16) -> Rect {
    Rect { x, y, h, w }
}

fn sides(r: &Rect) -> (u16, u16, u16, u16) {
    (r.x, r.y, r.w, r.h)
}

#[test]
fn an_extent_is_the_sum_of_its_terms() {
    let c = Constraints {
        min_height: Some(vec![Dimension::AddAbsolute(3)]),
        max_height: Some(vec![Dimension::AddRelative(1), Dimension::SubAbsolute(1)]),
        min_width: Some(vec![Dimension::AddRelative(4), Dimension::AddAbsolute(2)]),
        max_width: Some(vec![Dimension::AddAbsolute(50), Dimension::SubRelative(2)]),
    };
    let parent = rect(3, 4, 80, 24);
    assert_eq!(c.calc_min_height(parent), Some(3));
    assert_eq!(c.calc_max_height(parent), Some(23));
    assert_eq!(c.calc_min_width(parent), Some(22));
    assert_eq!(c.calc_max_width(parent), Some(10));
}

#[test]
fn an_extent_stops_at_zero_and_at_the_parent() {
    let c = Constraints {
        min_height: Some(vec![Dimension::SubAbsolute(5), Dimension::AddAbsolute(2)]),
        max_height: Some(vec![Dimension::AddAbsolute(100)]),
        min_width: None,
        max_width: Some(vec![]),
    };
    let parent = rect(0, 0, 80, 24);
    assert_eq!(c.calc_min_height(parent), Some(2));
    assert_eq!(c.calc_max_height(parent), Some(24));
    assert_eq!(c.calc_min_width(parent), None);
    assert_eq!(c.calc_max_width(parent), Some(0));
}

#[test]
fn constraints_and_anchors_start_free() {
    let c = Constraints::new();
    let a = Anchors::new();
    let parent = rect(0, 0, 80, 24);
    assert_eq!(c.calc_min_height(parent), None);
    assert_eq!(c.calc_max_height(parent), None);
    assert_eq!(c.calc_min_width(parent), None);
    assert_eq!(c.calc_max_width(parent), None);
    assert_eq!(a.calc_x(parent), None);
    assert_eq!(a.calc_y(parent), None);
}

#[test]
fn an_anchor_is_the_sum_of_its_terms() {
    let a = Anchors {
        x: Some(vec![Position::AddRelative(2), Position::AddAbsolute(1)]),
        y: Some(vec![Position::AddRelative(1), Position::SubAbsolute(8)]),
    };
    assert_eq!(a.calc_x(rect(0, 0, 80, 24)), Some(41));
    assert_eq!(a.calc_y(rect(0, 0, 80, 24)), Some(16));
    assert_eq!(a.calc_y(rect(0, 0, 80, 5)), Some(0));
    let b = a.copy();
    assert_eq!(b.calc_x(rect(0, 0, 80, 24)), Some(41));
}

#[test]
fn children_without_wishes_share_alike() {
    let none = vec![None, None, None];
    let rects = divide(Direction::Vertical, rect(10, 2, 80, 24), &none, &none, &none, &none);
    let got: Vec<_> = rects.iter().map(sides).collect();
    assert_eq!(got, vec![(10, 2, 26, 24), (36, 2, 26, 24), (62, 2, 26, 24)]);
    let rects = divide(Direction::Horizontal, rect(10, 2, 80, 24), &none, &none, &none, &none);
    let got: Vec<_> = rects.iter().map(sides).collect();
    assert_eq!(got, vec![(10, 2, 80, 8), (10, 10, 80, 8), (10, 18, 80, 8)]);
}

#[test]
fn what_a_full_child_leaves_goes_to_the_others() {
    let none = vec![None, None];
    let maxes = vec![Some(10), None];
    let rects = divide(Direction::Vertical, rect(0, 0, 80, 24), &none, &maxes, &none, &none);
    let got: Vec<_> = rects.iter().map(sides).collect();
    assert_eq!(got, vec![(0, 0, 10, 24), (10, 0, 70, 24)]);
}

#[test]
fn the_parts_are_no_more_than_the_whole_and_do_not_overlap() {
    let none: Vec<Option<u16>> = vec![None; 7];
    let maxes = vec![Some(3), None, Some(0), None, Some(40), None, None];
    let parent = rect(5, 6, 101, 30);
    let rects = divide(Direction::Vertical, parent, &none, &maxes, &none, &none);
    assert_eq!(rects.len(), 7);
    let mut end = parent.x;
    for r in &rects {
        assert!(end <= r.x);
        end = r.x + r.w;
        assert!(end <= parent.x + parent.w);
        assert_eq!((r.y, r.h), (6, 30));
    }
}

#[test]
fn an_anchored_child_stands_where_it_says() {
    let none = vec![None];
    let along = vec![Some(16)];
    let maxes = vec![Some(7)];
    let rects = divide(Direction::Horizontal, rect(0, 0, 80, 24), &none, &maxes, &none, &along);
    let got: Vec<_> = rects.iter().map(sides).collect();
    assert_eq!(got, vec![(0, 16, 80, 7)]);
}
