use cell_move_router::components::{
    CellType, Direction, Layer, Pair, Point, Pointer, PosNode, Route, Towards,
};

#[test]
fn pair_and_point_hand_out_their_coordinates() {
    let pair = Pair(3usize, 4usize);
    assert_eq!(pair.x(), 3);
    assert_eq!(pair.y(), 4);
    assert_eq!(pair.size(), 12);
    assert_eq!(pair.with(5), Point(3, 4, 5));
    let point = Point::new(1usize, 2usize, 3usize);
    assert_eq!(point.row(), 1);
    assert_eq!(point.col(), 2);
    assert_eq!(point.lay(), 3);
    assert_eq!(point.flatten(), Pair(1, 2));
}

#[test]
fn route_hands_out_its_ends() {
    let route = Route::raw(1usize, 2, 3, 1, 5, 3);
    assert_eq!(route, Route::new(Point(1, 2, 3), Point(1, 5, 3)));
    assert_eq!(route.source(), Point(1, 2, 3));
    assert_eq!(route.target(), Point(1, 5, 3));
}

#[test]
fn towards_goes_by_the_coordinate_that_differs() {
    assert_eq!(Route::raw(1usize, 1, 1, 4, 1, 1).towards(), Towards::Right);
    assert_eq!(Route::raw(4usize, 1, 1, 1, 1, 1).towards(), Towards::Left);
    assert_eq!(Route::raw(1usize, 1, 1, 1, 4, 1).towards(), Towards::Up);
    assert_eq!(Route::raw(1usize, 4, 1, 1, 1, 1).towards(), Towards::Down);
    assert_eq!(Route::raw(1usize, 1, 1, 1, 1, 4).towards(), Towards::Top);
    assert_eq!(Route::raw(1usize, 1, 4, 1, 1, 1).towards(), Towards::Bottom);
}

#[test]
fn vector_is_target_less_source() {
    assert_eq!(Route::raw(1usize, 7, 3, 4, 7, 3).vector(), Point(3isize, 0, 0));
    assert_eq!(Route::raw(4usize, 7, 3, 4, 2, 3).vector(), Point(0isize, -5, 0));
}

#[test]
fn only_routes_along_one_axis_are_axis_aligned() {
    assert!(Route::raw(1usize, 1, 1, 1, 2, 1).is_axis_aligned());
    assert!(Route::raw(1usize, 1, 1, 1, 1, 2).is_axis_aligned());
    assert!(!Route::raw(1usize, 1, 1, 1, 1, 1).is_axis_aligned());
    assert!(!Route::raw(1usize, 1, 1, 2, 2, 1).is_axis_aligned());
    assert!(!Route::raw(1usize, 1, 1, 1, 2, 2).is_axis_aligned());
}

#[test]
fn negation_gives_the_opposite_direction() {
    assert_eq!(-Towards::Up, Towards::Down);
    assert_eq!(-Towards::Down, Towards::Up);
    assert_eq!(-Towards::Left, Towards::Right);
    assert_eq!(-Towards::Right, Towards::Left);
    assert_eq!(-Towards::Top, Towards::Bottom);
    assert_eq!(-Towards::Bottom, Towards::Top);
    for t in [Towards::Up, Towards::Left, Towards::Top] {
        assert_eq!(-(-t), t);
    }
    assert!(Towards::Left.is_planar());
    assert!(!Towards::Top.is_planar());
}

#[test]
fn texts_are_decimal_numbers_with_single_spaces() {
    assert_eq!(Pair(10usize, 2usize).to_text(), "10 2");
    assert_eq!(Point(1usize, 20, 300).to_text(), "1 20 300");
    assert_eq!(Route::raw(1usize, 2, 3, 4, 5, 6).to_text(), "1 2 3 4 5 6");
    assert_eq!(Pair(0usize, usize::MAX).to_text(), format!("0 {}", usize::MAX));
}

#[test]
fn layer_capacity_is_bounds_checked() {
    let mut layer = Layer {
        id: 0,
        direction: Direction::Horizontal,
        dim: Pair(2, 3),
        capacity: vec![0, 1, 2, 3, 4, 5],
    };
    assert_eq!(layer.get_capacity(0, 0), Some(&0));
    assert_eq!(layer.get_capacity(1, 2), Some(&5));
    assert_eq!(layer.get_capacity(1, 0), Some(&3));
    assert_eq!(layer.get_capacity(0, 3), None);
    assert_eq!(layer.get_capacity(2, 0), None);
    if let Some(cap) = layer.get_capacity_mut(1, 1) {
        *cap = 40;
    }
    assert_eq!(layer.capacity, vec![0, 1, 2, 3, 40, 5]);
    assert!(layer.get_capacity_mut(0, 3).is_none());
    assert!(layer.get_capacity_mut(2, 0).is_none());
}

#[test]
fn span_takes_in_every_pointer() {
    let mut node = PosNode {
        id: None,
        position: Pair(2, 2),
        left: None,
        right: None,
        down: None,
        up: None,
        bottom: None,
        top: None,
    };
    assert_eq!(node.span(), (usize::MAX, usize::MIN));
    node.up = Some(Pointer { index: 1, height: 4 });
    assert_eq!(node.span(), (4, 4));
    node.left = Some(Pointer { index: 2, height: 2 });
    node.right = Some(Pointer { index: 3, height: 7 });
    assert_eq!(node.span(), (2, 7));
    node.bottom = Some(Pointer { index: 0, height: 1 });
    node.top = Some(Pointer { index: 0, height: 9 });
    assert_eq!(node.span(), (1, 9));
    assert_eq!(node.neightbors(), [node.up, node.down, node.left, node.right]);
    assert_eq!(node.index(Towards::Up), node.up);
    assert_eq!(node.index(Towards::Down), None);
    assert_eq!(node.index(Towards::Left), node.left);
    assert_eq!(node.index(Towards::Right), node.right);
}

#[test]
fn cell_types_are_told_apart() {
    assert_ne!(CellType::Movable, CellType::Fixed);
    assert_ne!(Direction::Horizontal, Direction::Vertical);
}

#[test]
fn a_capacity_vector_that_is_too_short_gives_nothing_beyond_its_end() {
    let mut layer = Layer {
        id: 0,
        direction: Direction::Vertical,
        dim: Pair(2, 2),
        capacity: vec![7, 8, 9],
    };
    assert_eq!(layer.get_capacity(1, 0), Some(&9));
    assert_eq!(layer.get_capacity(1, 1), None);
    assert!(layer.get_capacity_mut(1, 1).is_none());
    assert_eq!(layer.cell_index(1, 0), Some(2));
    assert_eq!(layer.cell_index(0, 2), None);
    let wide = Layer {
        id: 0,
        direction: Direction::Vertical,
        dim: Pair(usize::MAX, usize::MAX),
        capacity: vec![1],
    };
    assert_eq!(wide.get_capacity(0, 0), Some(&1));
    assert_eq!(wide.get_capacity(5, 5), None);
}
