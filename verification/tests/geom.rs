use sg_wasm::geom::{clip_plan, lattice, odd_row, orient, ClipStep, Pattern};

#[test]
fn clip_enter_and_leave() {
    assert_eq!(
        clip_plan(&[true, false, true]),
        vec![ClipStep::Keep(0), ClipStep::Cross(0, 1), ClipStep::Cross(1, 2), ClipStep::Keep(2)]
    );
}

#[test]
fn clip_first_vertex_outside() {
    assert_eq!(
        clip_plan(&[false, true, true, false]),
        vec![ClipStep::Cross(0, 1), ClipStep::Keep(1), ClipStep::Keep(2), ClipStep::Cross(2, 3)]
    );
}

#[test]
fn clip_all_inside_and_outside() {
    assert_eq!(clip_plan(&[true, true, true]), vec![ClipStep::Keep(0), ClipStep::Keep(1), ClipStep::Keep(2)]);
    assert!(clip_plan(&[false, false, false, false]).is_empty());
    assert!(clip_plan(&[]).is_empty());
}

#[test]
fn orient_reverses_clockwise() {
    assert_eq!(orient(&[1, 2, 3], true), vec![3, 2, 1]);
    assert_eq!(orient(&[1, 2, 3], false), vec![1, 2, 3]);
    let pts = [[0.0f64, 0.0], [0.0, 1.0], [1.0, 0.0]];
    assert_eq!(orient(&pts, true), vec![[1.0, 0.0], [0.0, 1.0], [0.0, 0.0]]);
}

#[test]
fn pattern_names() {
    assert_eq!(Pattern::from_name("rectangle"), Pattern::Rectangle);
    assert_eq!(Pattern::from_name("brick"), Pattern::Brick);
    assert_eq!(Pattern::from_name("diamond"), Pattern::Diamond);
    assert_eq!(Pattern::from_name("hexagonal"), Pattern::Hexagonal);
    assert_eq!(Pattern::from_name("triangle"), Pattern::Triangle);
}

#[test]
fn unknown_pattern_is_diamond() {
    assert_eq!(Pattern::from_name("hexagon"), Pattern::Diamond);
    assert_eq!(Pattern::from_name(""), Pattern::Diamond);
    assert_eq!(Pattern::from_name("Brick"), Pattern::Diamond);
}

#[test]
fn lattice_is_row_major() {
    assert_eq!(lattice(-1, 1, 0, 3), vec![(-1, 0), (-1, 1), (-1, 2), (0, 0), (0, 1), (0, 2)]);
    assert_eq!(lattice(-1, 19, -1, 27).len(), 20 * 28);
}

#[test]
fn lattice_empty_ranges() {
    assert!(lattice(2, 2, 0, 5).is_empty());
    assert!(lattice(3, 1, 0, 5).is_empty());
    assert!(lattice(0, 5, 4, 4).is_empty());
    assert!(lattice(0, 5, 4, -4).is_empty());
}

#[test]
fn odd_rows_alternate_below_zero() {
    assert!(odd_row(-1));
    assert!(!odd_row(-2));
    assert!(!odd_row(0));
    assert!(odd_row(1));
    assert!(odd_row(i32::MIN + 1));
    assert!(!odd_row(i32::MIN));
}
