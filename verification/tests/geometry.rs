use match_linestrings::geometry::{buffer_aabb, Coord, Envelope, Line};

fn line(points: &[(i32, i32)]) -> Line {
    Line::new(points.iter().map(|&(x, y)| Coord { x, y }).collect()).unwrap()
}

#[test]
fn a_line_needs_two_points() {
    assert!(Line::new(vec![]).is_none());
    assert!(Line::new(vec![Coord { x: 1, y: 2 }]).is_none());
    assert!(Line::new(vec![Coord { x: 1, y: 2 }, Coord { x: 1, y: 2 }]).is_some());
}

#[test]
fn a_line_keeps_its_points_in_order() {
    let l = line(&[(3, 4), (-1, 7), (5, -2)]);
    assert_eq!(
        l.points(),
        &vec![Coord { x: 3, y: 4 }, Coord { x: -1, y: 7 }, Coord { x: 5, y: -2 }]
    );
    assert_eq!(l.first(), Coord { x: 3, y: 4 });
    assert_eq!(l.last(), Coord { x: 5, y: -2 });
}

#[test]
fn a_clone_has_the_same_points() {
    let l = line(&[(3, 4), (-1, 7), (5, -2)]);
    assert_eq!(l.clone().points(), l.points());
}

#[test]
fn the_envelope_is_the_smallest_box_around_the_points() {
    let l = line(&[(3, 4), (-1, 7), (5, -2)]);
    assert_eq!(l.envelope(), Envelope { min_x: -1, min_y: -2, max_x: 5, max_y: 7 });
}

#[test]
fn the_envelope_of_a_line_along_an_axis_is_flat() {
    let l = line(&[(0, 0), (100_000, 0)]);
    assert_eq!(l.envelope(), Envelope { min_x: 0, min_y: 0, max_x: 100_000, max_y: 0 });
}

#[test]
fn the_envelope_holds_the_extreme_coordinates() {
    let l = line(&[(i32::MIN, i32::MAX), (i32::MAX, i32::MIN)]);
    assert_eq!(
        l.envelope(),
        Envelope {
            min_x: i32::MIN as i64,
            min_y: i32::MIN as i64,
            max_x: i32::MAX as i64,
            max_y: i32::MAX as i64,
        }
    );
}

#[test]
fn a_buffer_grows_the_box_on_all_four_sides() {
    let grown = buffer_aabb(Envelope { min_x: 0, min_y: -5, max_x: 100, max_y: 5 }, 20);
    assert_eq!(grown, Envelope { min_x: -20, min_y: -25, max_x: 120, max_y: 25 });
}

#[test]
fn a_buffer_of_zero_keeps_the_box() {
    let e = Envelope { min_x: 1, min_y: 2, max_x: 3, max_y: 4 };
    assert_eq!(buffer_aabb(e, 0), e);
}

#[test]
fn the_largest_buffer_on_the_largest_box_does_not_overflow() {
    let l = line(&[(i32::MIN, i32::MIN), (i32::MAX, i32::MAX)]);
    let grown = buffer_aabb(l.envelope(), u32::MAX);
    assert_eq!(grown.min_x, i32::MIN as i64 - u32::MAX as i64);
    assert_eq!(grown.max_y, i32::MAX as i64 + u32::MAX as i64);
}

#[test]
fn boxes_that_touch_overlap() {
    let a = Envelope { min_x: 0, min_y: 0, max_x: 10, max_y: 10 };
    let b = Envelope { min_x: 10, min_y: 10, max_x: 20, max_y: 20 };
    assert!(a.overlaps(&b));
    assert!(b.overlaps(&a));
}

#[test]
fn boxes_apart_on_one_axis_do_not_overlap() {
    let a = Envelope { min_x: 0, min_y: 0, max_x: 10, max_y: 10 };
    let right = Envelope { min_x: 11, min_y: 0, max_x: 20, max_y: 10 };
    let above = Envelope { min_x: 0, min_y: 11, max_x: 10, max_y: 20 };
    assert!(!a.overlaps(&right));
    assert!(!right.overlaps(&a));
    assert!(!a.overlaps(&above));
    assert!(!above.overlaps(&a));
}
