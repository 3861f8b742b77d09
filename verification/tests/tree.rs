use cell_move_router::components::{Pair, Point, Pointer, PosNode, Route, Towards};
use cell_move_router::error::Error;
use cell_move_router::tree::{Net, NetTree};

fn pointer_pairs(tree: &NetTree) -> usize {
    let mut count = 0;
    for node in tree.nodes.iter() {
        for slot in node.neightbors() {
            if slot.is_some() {
                count += 1;
            }
        }
    }
    assert_eq!(count % 2, 0);
    count / 2
}

fn components(tree: &NetTree) -> usize {
    let n = tree.nodes.len();
    let mut seen = vec![false; n];
    let mut count = 0;
    for start in 0..n {
        if seen[start] {
            continue;
        }
        count += 1;
        let mut stack = vec![start];
        seen[start] = true;
        while let Some(at) = stack.pop() {
            for slot in tree.nodes[at].neightbors() {
                if let Some(p) = slot {
                    if !seen[p.index] {
                        seen[p.index] = true;
                        stack.push(p.index);
                    }
                }
            }
        }
    }
    count
}

fn assert_symmetric(tree: &NetTree) {
    for (i, node) in tree.nodes.iter().enumerate() {
        for t in [Towards::Up, Towards::Down, Towards::Left, Towards::Right] {
            if let Some(p) = node.index(t) {
                let back = tree.nodes[p.index].index(-t);
                assert_eq!(back, Some(Pointer { index: i, height: p.height }));
            }
        }
    }
}

fn assert_atomic(tree: &NetTree) {
    for node in tree.nodes.iter() {
        for slot in node.neightbors() {
            if let Some(p) = slot {
                let a = node.position;
                let b = tree.nodes[p.index].position;
                assert!(a.0 == b.0 || a.1 == b.1);
                for other in tree.nodes.iter() {
                    let c = other.position;
                    if a.0 == b.0 && c.0 == a.0 {
                        assert!(!(a.1.min(b.1) < c.1 && c.1 < a.1.max(b.1)));
                    }
                    if a.1 == b.1 && c.1 == a.1 {
                        assert!(!(a.0.min(b.0) < c.0 && c.0 < a.0.max(b.0)));
                    }
                }
            }
        }
    }
}

#[test]
fn identity_net_keeps_its_two_atomic_routes() {
    let pins = vec![(0, Pair(1, 1)), (1, Pair(1, 3))];
    let segments = vec![Route::raw(1, 1, 1, 1, 2, 1), Route::raw(1, 2, 1, 1, 3, 1)];
    let tree = NetTree::build(&pins, &segments).unwrap();
    let positions: Vec<Pair<usize>> = tree.nodes.iter().map(|n| n.position).collect();
    assert_eq!(positions, vec![Pair(1, 1), Pair(1, 2), Pair(1, 3)]);
    assert_eq!(tree.nodes[0].id, Some(0));
    assert_eq!(tree.nodes[1].id, None);
    assert_eq!(tree.nodes[2].id, Some(1));
    assert_eq!(tree.routes(), segments);
    assert_eq!(tree.nodes[0].up, Some(Pointer { index: 1, height: 1 }));
    assert_eq!(tree.nodes[1].down, Some(Pointer { index: 0, height: 1 }));
    assert_eq!(tree.nodes[1].up, Some(Pointer { index: 2, height: 1 }));
    assert_eq!(tree.nodes[2].down, Some(Pointer { index: 1, height: 1 }));
    assert_symmetric(&tree);
}

#[test]
fn a_route_is_split_at_a_node_under_it() {
    let pins = vec![(0, Pair(1, 1)), (1, Pair(1, 3)), (2, Pair(2, 2))];
    let segments = vec![Route::raw(1, 1, 1, 1, 3, 1), Route::raw(1, 2, 1, 2, 2, 1)];
    let tree = NetTree::build(&pins, &segments).unwrap();
    let positions: Vec<Pair<usize>> = tree.nodes.iter().map(|n| n.position).collect();
    assert_eq!(positions, vec![Pair(1, 1), Pair(1, 2), Pair(1, 3), Pair(2, 2)]);
    assert_eq!(tree.nodes.len(), 4);
    assert_eq!(pointer_pairs(&tree), 3);
    assert_eq!(components(&tree), 1);
    assert_eq!(tree.nodes[1].id, None);
    assert_eq!(tree.nodes[0].up, Some(Pointer { index: 1, height: 1 }));
    assert_eq!(tree.nodes[1].up, Some(Pointer { index: 2, height: 1 }));
    assert_eq!(tree.nodes[1].right, Some(Pointer { index: 3, height: 1 }));
    assert_eq!(tree.nodes[3].left, Some(Pointer { index: 1, height: 1 }));
    assert_symmetric(&tree);
    assert_atomic(&tree);
    assert_eq!(
        tree.routes(),
        vec![
            Route::raw(1, 1, 1, 1, 2, 1),
            Route::raw(1, 2, 1, 1, 3, 1),
            Route::raw(1, 2, 1, 2, 2, 1),
        ]
    );
}

#[test]
fn vertical_segments_alone_give_one_node_with_their_span() {
    let pins = vec![(0, Pair(2, 2)), (1, Pair(2, 2))];
    let segments = vec![Route::raw(2, 2, 1, 2, 2, 2), Route::raw(2, 2, 2, 2, 2, 3)];
    let tree = NetTree::build(&pins, &segments).unwrap();
    assert_eq!(tree.nodes.len(), 1);
    assert_eq!(tree.nodes[0].position, Pair(2, 2));
    assert_eq!(tree.nodes[0].span(), (1, 3));
    assert_eq!(tree.nodes[0].id, Some(0));
    assert_eq!(tree.nodes[0].bottom, Some(Pointer { index: 0, height: 1 }));
    assert_eq!(tree.nodes[0].top, Some(Pointer { index: 0, height: 3 }));
    assert_eq!(pointer_pairs(&tree), 0);
    assert_eq!(tree.routes(), vec![Route::raw(2, 2, 1, 2, 2, 3)]);
}

#[test]
fn a_net_that_its_routes_do_not_join_is_refused() {
    let pins = vec![(0, Pair(1, 1)), (1, Pair(5, 5))];
    let segments = vec![Route::raw(1, 1, 1, 1, 2, 1)];
    assert_eq!(NetTree::build(&pins, &segments).err(), Some(Error::DisconnectedNet));
    assert_eq!(Net::new(0, 0, &pins, &segments).err(), Some(Error::DisconnectedNet));
}

#[test]
fn a_net_without_pins_and_routes_is_refused() {
    assert_eq!(NetTree::build(&vec![], &vec![]).err(), Some(Error::DisconnectedNet));
}

#[test]
fn a_single_pin_is_a_tree_of_one_node() {
    let tree = NetTree::build(&vec![(7, Pair(4, 9))], &vec![]).unwrap();
    assert_eq!(tree.nodes.len(), 1);
    assert_eq!(tree.nodes[0].id, Some(7));
    assert_eq!(tree.nodes[0].span(), (usize::MAX, usize::MIN));
    assert_eq!(tree.routes(), vec![]);
}

#[test]
fn crossing_routes_without_a_node_at_the_crossing_stay_apart() {
    let pins = vec![(0, Pair(2, 1)), (1, Pair(1, 2))];
    let segments = vec![Route::raw(2, 1, 1, 2, 3, 1), Route::raw(1, 2, 1, 3, 2, 1)];
    assert_eq!(NetTree::build(&pins, &segments).err(), Some(Error::DisconnectedNet));
}

#[test]
fn a_loop_of_routes_loses_one_piece() {
    let pins = vec![(0, Pair(1, 1)), (1, Pair(3, 3))];
    let segments = vec![
        Route::raw(1, 1, 1, 1, 3, 1),
        Route::raw(1, 3, 2, 3, 3, 2),
        Route::raw(3, 3, 1, 3, 1, 1),
        Route::raw(3, 1, 2, 1, 1, 2),
    ];
    let tree = NetTree::build(&pins, &segments).unwrap();
    assert_eq!(tree.nodes.len(), 4);
    assert_eq!(pointer_pairs(&tree), 3);
    assert_eq!(components(&tree), 1);
    assert_symmetric(&tree);
    assert_atomic(&tree);
    assert_eq!(tree.nodes[0].left, None);
    assert_eq!(tree.nodes[0].right, None);
    assert_eq!(tree.nodes[0].span(), (1, 1));
    assert_eq!(tree.nodes[1].span(), (1, 2));
}

#[test]
fn the_same_route_twice_counts_once() {
    let pins = vec![(0, Pair(1, 1)), (1, Pair(1, 4))];
    let once = vec![Route::raw(1, 1, 2, 1, 4, 2)];
    let twice = vec![Route::raw(1, 1, 2, 1, 4, 2), Route::raw(1, 4, 2, 1, 1, 2)];
    let a = NetTree::build(&pins, &once).unwrap();
    let b = NetTree::build(&pins, &twice).unwrap();
    assert_eq!(a.routes(), b.routes());
    assert_eq!(pointer_pairs(&b), 1);
}

#[test]
fn a_route_through_a_pin_gives_the_node_the_pin() {
    let pins = vec![(5, Pair(1, 1)), (6, Pair(1, 2)), (7, Pair(1, 3))];
    let segments = vec![Route::raw(1, 3, 1, 1, 1, 1)];
    let tree = NetTree::build(&pins, &segments).unwrap();
    assert_eq!(tree.nodes.len(), 3);
    assert_eq!(tree.nodes[1].id, Some(6));
    assert_eq!(pointer_pairs(&tree), 2);
    assert_eq!(tree.nodes[2].down, Some(Pointer { index: 1, height: 1 }));
}

#[test]
fn the_first_pin_at_a_position_names_the_node() {
    let pins = vec![(3, Pair(2, 2)), (1, Pair(2, 2)), (2, Pair(2, 5))];
    let segments = vec![Route::raw(2, 2, 1, 2, 5, 1)];
    let tree = NetTree::build(&pins, &segments).unwrap();
    assert_eq!(tree.nodes[0].id, Some(3));
    assert_eq!(tree.nodes[1].id, Some(2));
}

#[test]
fn every_connected_pin_has_a_node_that_the_walk_reaches() {
    let pins = vec![(0, Pair(1, 1)), (1, Pair(4, 1)), (2, Pair(4, 4)), (3, Pair(4, 4))];
    let segments = vec![
        Route::raw(1, 1, 1, 4, 1, 1),
        Route::raw(4, 1, 2, 4, 4, 2),
        Route::raw(4, 4, 2, 4, 4, 3),
    ];
    let tree = NetTree::build(&pins, &segments).unwrap();
    assert_eq!(components(&tree), 1);
    for (_, position) in pins.iter() {
        let node = tree.nodes.iter().find(|n| n.position == *position).unwrap();
        assert!(node.id.is_some());
    }
    let corner = tree.nodes.iter().find(|n| n.position == Pair(4, 4)).unwrap();
    assert_eq!(corner.span(), (2, 3));
    let bend = tree.nodes.iter().find(|n| n.position == Pair(4, 1)).unwrap();
    assert_eq!(bend.span(), (1, 2));
    assert_eq!(
        tree.routes(),
        vec![
            Route::raw(4, 1, 1, 4, 1, 2),
            Route::raw(4, 4, 2, 4, 4, 3),
            Route::raw(1, 1, 1, 4, 1, 1),
            Route::raw(4, 1, 2, 4, 4, 2),
        ]
    );
}

#[test]
fn the_walk_takes_up_down_left_right_in_turn() {
    let pins = vec![(0, Pair(3, 3))];
    let segments = vec![
        Route::raw(3, 3, 1, 5, 3, 1),
        Route::raw(3, 3, 1, 1, 3, 1),
        Route::raw(3, 3, 1, 3, 1, 1),
        Route::raw(3, 3, 1, 3, 5, 1),
    ];
    let tree = NetTree::build(&pins, &segments).unwrap();
    let root = tree.nodes[0].position;
    assert_eq!(root, Pair(1, 3));
    assert_eq!(
        tree.routes(),
        vec![
            Route::raw(1, 3, 1, 3, 3, 1),
            Route::raw(3, 3, 1, 3, 5, 1),
            Route::raw(3, 3, 1, 3, 1, 1),
            Route::raw(3, 3, 1, 5, 3, 1),
        ]
    );
}

#[test]
fn building_again_from_the_written_routes_writes_the_same_routes() {
    let pins = vec![(0, Pair(1, 1)), (1, Pair(1, 5)), (2, Pair(3, 3)), (3, Pair(3, 3))];
    let segments = vec![
        Route::raw(1, 1, 1, 1, 5, 1),
        Route::raw(1, 3, 1, 1, 3, 2),
        Route::raw(1, 3, 2, 3, 3, 2),
        Route::raw(3, 3, 2, 3, 3, 4),
    ];
    let first = NetTree::build(&pins, &segments).unwrap();
    let written = first.routes();
    let second = NetTree::build(&pins, &written).unwrap();
    assert_eq!(second.routes(), written);
    let mut planar_first: Vec<Route<usize>> =
        written.iter().copied().filter(|r| r.towards().is_planar()).collect();
    let mut planar_second: Vec<Route<usize>> =
        second.routes().into_iter().filter(|r| r.towards().is_planar()).collect();
    planar_first.sort_by_key(|r| (r.0 .0, r.0 .1, r.0 .2, r.1 .0, r.1 .1, r.1 .2));
    planar_second.sort_by_key(|r| (r.0 .0, r.0 .1, r.0 .2, r.1 .0, r.1 .1, r.1 .2));
    assert_eq!(planar_first, planar_second);
    assert_eq!(planar_first.len(), first.nodes.len() - 1);
}

#[test]
fn connect_installs_a_pointer_pair() {
    let node = |row, col| PosNode {
        id: None,
        position: Pair(row, col),
        left: None,
        right: None,
        down: None,
        up: None,
        bottom: None,
        top: None,
    };
    let mut tree = NetTree { nodes: vec![node(1, 1), node(4, 1)] };
    tree.connect(0, 1, 3, Towards::Right);
    assert_eq!(tree.nodes[0].right, Some(Pointer { index: 1, height: 3 }));
    assert_eq!(tree.nodes[1].left, Some(Pointer { index: 0, height: 3 }));
    assert_eq!(tree.nodes[0].left, None);
    assert_eq!(tree.routes(), vec![Route(Point(1, 1, 3), Point(4, 1, 3))]);
}

#[test]
fn net_text_lists_spans_before_the_walk() {
    let pins = vec![(0, Pair(1, 1)), (1, Pair(1, 3))];
    let segments = vec![Route::raw(1, 1, 1, 1, 3, 1), Route::raw(1, 3, 1, 1, 3, 2)];
    let net = Net::new(4, 0, &pins, &segments).unwrap();
    assert_eq!(net.id, 4);
    assert_eq!(net.min_layer, 0);
    assert_eq!(net.to_text(), Some(String::from("1 3 1 1 3 2 N5\n1 1 1 1 3 1 N5\n")));
}

#[test]
fn the_walk_writes_one_route_less_than_there_are_nodes() {
    let pins = vec![(0, Pair(2, 2)), (1, Pair(6, 6))];
    let segments = vec![
        Route::raw(2, 2, 1, 2, 6, 1),
        Route::raw(2, 4, 1, 4, 4, 1),
        Route::raw(4, 4, 1, 4, 6, 1),
        Route::raw(4, 6, 1, 6, 6, 1),
        Route::raw(2, 6, 1, 4, 6, 1),
        Route::raw(1, 4, 1, 2, 4, 1),
    ];
    let tree = NetTree::build(&pins, &segments).unwrap();
    assert_eq!(tree.nodes.len(), 7);
    let routes = tree.routes();
    assert_eq!(routes.len(), 6);
    assert_eq!(pointer_pairs(&tree), 6);
    for (k, a) in routes.iter().enumerate() {
        for b in routes.iter().skip(k + 1) {
            assert_ne!(a, b);
            assert_ne!(*a, Route(b.1, b.0));
        }
    }
    assert_symmetric(&tree);
    assert_atomic(&tree);
}
