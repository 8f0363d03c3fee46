use maze_arena::grid::{encode_grid_to_rgba, EntityType, GridError, LogitClass, OccupancyGrid, LOGIT_CLAMP};

#[test]
fn new_grid_is_neutral() {
    let g = OccupancyGrid::new(4, 3, 1000);
    assert_eq!(g.shape(), (4, 3));
    assert_eq!(g.cell_size(), 1000);
    assert_eq!(g.len(), 12);
    let e = g.get(3, 2).unwrap();
    assert_eq!(e.assignment, None);
    assert_eq!(e.logit_free, 0);
    assert_eq!(e.logit_wall, 0);
    assert_eq!(e.logit_flag, 0);
    assert_eq!(e.logit_capture_point, 0);
}

#[test]
fn index_is_col_plus_row_times_width() {
    let g = OccupancyGrid::new(4, 3, 1000);
    assert_eq!(g.index(0, 0), Ok(0));
    assert_eq!(g.index(3, 0), Ok(3));
    assert_eq!(g.index(1, 2), Ok(9));
    assert_eq!(g.index(4, 0), Err(GridError::IndexOutOfBounds));
    assert_eq!(g.index(0, 3), Err(GridError::IndexOutOfBounds));
}

#[test]
fn set_logit_then_get_returns_clamped_value() {
    let mut g = OccupancyGrid::new(5, 5, 1000);
    assert_eq!(g.set_logit(2, 3, LogitClass::Wall, 1234), Ok(()));
    assert_eq!(g.logit(2, 3, LogitClass::Wall), Ok(1234));
    assert_eq!(g.set_logit(2, 3, LogitClass::Free, 9000), Ok(()));
    assert_eq!(g.logit(2, 3, LogitClass::Free), Ok(LOGIT_CLAMP));
    assert_eq!(g.set_logit(0, 0, LogitClass::Flag, -9000), Ok(()));
    assert_eq!(g.logit(0, 0, LogitClass::Flag), Ok(-LOGIT_CLAMP));
    assert_eq!(g.set_logit(4, 4, LogitClass::CapturePoint, i32::MIN), Ok(()));
    assert_eq!(g.logit(4, 4, LogitClass::CapturePoint), Ok(-6000));
    assert_eq!(g.set_logit(4, 4, LogitClass::CapturePoint, 6000), Ok(()));
    assert_eq!(g.logit(4, 4, LogitClass::CapturePoint), Ok(6000));
    // the other logits of the cell stay
    assert_eq!(g.logit(2, 3, LogitClass::Wall), Ok(1234));
    assert_eq!(g.logit(2, 3, LogitClass::Flag), Ok(0));
}

#[test]
fn out_of_range_access_is_an_error() {
    let mut g = OccupancyGrid::new(2, 2, 1000);
    assert_eq!(g.set_logit(2, 0, LogitClass::Free, 1), Err(GridError::IndexOutOfBounds));
    assert_eq!(g.logit(0, 2, LogitClass::Free), Err(GridError::IndexOutOfBounds));
    assert_eq!(g.get(5, 5), Err(GridError::IndexOutOfBounds));
    assert_eq!(g.assignment(2, 2), Err(GridError::IndexOutOfBounds));
    assert_eq!(g.set_assignment(9, 0, Some(EntityType::Wall)), Err(GridError::IndexOutOfBounds));
}

#[test]
fn set_assignment_keeps_logits() {
    let mut g = OccupancyGrid::new(3, 3, 1000);
    g.set_logit(1, 1, LogitClass::Flag, 300).unwrap();
    g.set_assignment(1, 1, Some(EntityType::Flag)).unwrap();
    assert_eq!(g.assignment(1, 1), Ok(Some(EntityType::Flag)));
    assert_eq!(g.logit(1, 1, LogitClass::Flag), Ok(300));
    assert_eq!(g.assignment(0, 1), Ok(None));
}

#[test]
fn stamp_saturates_logits() {
    let mut g = OccupancyGrid::new(3, 1, 1000);
    g.stamp_at(2, EntityType::Wall);
    let e = g.entry_at(2);
    assert_eq!(e.assignment, Some(EntityType::Wall));
    assert_eq!((e.logit_free, e.logit_wall, e.logit_flag, e.logit_capture_point), (-6000, 6000, -6000, -6000));
}

#[test]
fn grid_image_has_one_colour_per_cell() {
    let mut g = OccupancyGrid::new(3, 2, 1000);
    g.stamp_at(0, EntityType::Wall);
    g.stamp_at(1, EntityType::Empty);
    g.stamp_at(2, EntityType::Flag);
    g.stamp_at(3, EntityType::CapturePoint);
    g.stamp_at(4, EntityType::Unknown);
    let img = encode_grid_to_rgba(&g);
    assert_eq!(
        img,
        vec![
            0, 0, 0, 200, 0, 0, 0, 0, 219, 112, 147, 200, 199, 21, 133, 200, 127, 127, 127, 100, 127, 127, 127, 100
        ]
    );
}
