use cell_move_router::args::Args;
use cell_move_router::chip::{pin_cell, Chip, Step};
use cell_move_router::components::{Cell, CellType, Pair, Route};
use cell_move_router::error::Error;
use cell_move_router::loader::pin_position;

fn options(sec: Option<usize>, min: Option<usize>, hr: Option<usize>, cell: bool, net: bool) -> Args {
    Args { infile: String::new(), outfile: String::new(), sec, min, hr, cell, net }
}

#[test]
fn binary_search_finds_the_first_greater_entry() {
    let ends = vec![2, 3, 3, 7];
    assert_eq!(Chip::binary_search(&ends, 0, 0, 4), Some(0));
    assert_eq!(Chip::binary_search(&ends, 1, 0, 4), Some(0));
    assert_eq!(Chip::binary_search(&ends, 2, 0, 4), Some(1));
    assert_eq!(Chip::binary_search(&ends, 3, 0, 4), Some(3));
    assert_eq!(Chip::binary_search(&ends, 6, 0, 4), Some(3));
    assert_eq!(Chip::binary_search(&ends, 7, 0, 4), Some(4));
    assert_eq!(Chip::binary_search(&ends, 3, 0, 2), Some(2));
    assert_eq!(Chip::binary_search(&ends, 0, 2, 2), Some(2));
    assert_eq!(Chip::binary_search(&ends, 0, 3, 2), None);
    assert_eq!(Chip::binary_search(&ends, 0, 0, 5), None);
    assert_eq!(Chip::binary_search(&vec![], 0, 0, 0), Some(0));
}

#[test]
fn pins_belong_to_the_cell_whose_run_holds_them() {
    let ends = vec![2, 3, 3, 7];
    assert_eq!(pin_cell(&ends, 0), Some(0));
    assert_eq!(pin_cell(&ends, 1), Some(0));
    assert_eq!(pin_cell(&ends, 2), Some(1));
    assert_eq!(pin_cell(&ends, 3), Some(3));
    assert_eq!(pin_cell(&ends, 6), Some(3));
    assert_eq!(pin_cell(&ends, 7), None);
    assert_eq!(pin_cell(&vec![], 0), None);
    let cell = |id, row, col, pins: Vec<usize>| Cell {
        id,
        movable: CellType::Fixed,
        moved: false,
        position: Pair(row, col),
        pins,
    };
    let cells = vec![cell(0, 1, 1, vec![0, 1]), cell(1, 2, 5, vec![2]), cell(2, 3, 3, vec![])];
    let ends = vec![2, 3, 3];
    assert_eq!(pin_position(&cells, &ends, 1), Some(Pair(1, 1)));
    assert_eq!(pin_position(&cells, &ends, 2), Some(Pair(2, 5)));
    assert_eq!(pin_position(&cells, &ends, 3), None);
}

#[test]
fn layers_are_reached_by_index() {
    let mut chip = Chip::parse(
        "MaxCellMove 0 GGridBoundaryIdx 1 1 1 2 NumLayer 2 Lay M1 1 H 5 Lay M2 2 V 7
         NumNonDefaultSupplyGGrid 0 NumMasterCell 0 NumNeighborCellExtraDemand 0
         NumCellInst 0 NumNets 0 NumRoutes 0",
    )
    .unwrap();
    assert_eq!(chip.get_layer(1).unwrap().capacity, vec![7, 7]);
    assert!(chip.get_layer(2).is_none());
    if let Some(layer) = chip.get_layer_mut(0) {
        if let Some(cap) = layer.get_capacity_mut(0, 1) {
            *cap = 1;
        }
    }
    assert_eq!(chip.layers[0].capacity, vec![5, 1]);
    assert!(chip.get_layer_mut(2).is_none());
}

#[test]
fn the_budget_goes_by_seconds_then_minutes_then_hours() {
    assert_eq!(Chip::duration(&options(None, None, None, false, false)), 3600);
    assert_eq!(Chip::duration(&options(Some(5), None, None, false, false)), 5);
    assert_eq!(Chip::duration(&options(None, Some(5), None, false, false)), 300);
    assert_eq!(Chip::duration(&options(None, None, Some(2), false, false)), 7200);
    assert_eq!(Chip::duration(&options(Some(5), Some(7), Some(2), false, false)), 5);
    assert_eq!(Chip::duration(&options(None, Some(7), Some(2), false, false)), 420);
    assert_eq!(Chip::duration(&options(None, Some(usize::MAX), None, false, false)), u64::MAX);
    assert_eq!(Chip::duration(&options(Some(0), None, None, false, false)), 0);
}

#[test]
fn time_expires_when_the_budget_is_reached() {
    assert_eq!(Chip::check_time(0, 1), Ok(()));
    assert_eq!(Chip::check_time(999_999_999, 1), Ok(()));
    assert_eq!(Chip::check_time(1_000_000_000, 1), Err(Error::TimeExpired));
    assert_eq!(Chip::check_time(1_000_000_001, 1), Err(Error::TimeExpired));
    assert_eq!(Chip::check_time(0, 0), Err(Error::TimeExpired));
    assert_eq!(Chip::check_time(u128::MAX, u64::MAX), Err(Error::TimeExpired));
}

#[test]
fn the_controller_asks_for_steps_until_time_expires() {
    let chip = Chip::default();
    let cell = options(Some(2), None, None, true, false);
    let net = options(Some(2), None, None, false, true);
    let both = options(Some(2), None, None, true, true);
    let none = options(Some(2), None, None, false, false);
    assert_eq!(chip.run(&cell, 0), Ok(Step::CellMove));
    assert_eq!(chip.run(&net, 1_999_999_999), Ok(Step::NetReroute));
    assert_eq!(chip.run(&both, 5), Ok(Step::CellMove));
    assert_eq!(chip.run(&cell, 2_000_000_000), Err(Error::TimeExpired));
    assert_eq!(chip.run(&net, 3_000_000_000), Err(Error::TimeExpired));
    assert_eq!(chip.run(&none, 0), Ok(Step::Idle));
    assert_eq!(chip.run(&none, 3_000_000_000), Ok(Step::Idle));
}

#[test]
fn moved_cells_are_listed_in_order() {
    let mut chip = Chip::parse(
        "MaxCellMove 2 GGridBoundaryIdx 1 1 9 9 NumLayer 1 Lay M1 1 H 5
         NumNonDefaultSupplyGGrid 0 NumMasterCell 1 MasterCell MC1 0 0
         NumNeighborCellExtraDemand 0
         NumCellInst 3 CellInst C1 MC1 1 1 Movable CellInst C2 MC1 2 2 Fixed
         CellInst C3 MC1 3 3 Movable NumNets 0 NumRoutes 0",
    )
    .unwrap();
    chip.cells[2].position = Pair(7, 8);
    chip.cells[2].moved = true;
    chip.already_moved = 1;
    assert_eq!(
        chip.to_text(),
        Some(String::from("NumMovedCellInst 1\nCellInst C3 7 8\nNumRoutes 0\n"))
    );
    chip.cells[0].position = Pair(4, 4);
    chip.cells[0].moved = true;
    chip.already_moved = 2;
    assert_eq!(
        chip.to_text(),
        Some(String::from("NumMovedCellInst 2\nCellInst C1 4 4\nCellInst C3 7 8\nNumRoutes 0\n"))
    );
    assert_eq!(chip.cells[0].to_text(), Some(String::from("CellInst C1 4 4")));
    chip.cells[1].id = usize::MAX;
    assert_eq!(chip.to_text(), None);
    assert_eq!(chip.cells[1].to_text(), None);
}

#[test]
fn cells_move_within_the_limit() {
    let mut chip = Chip::parse(
        "MaxCellMove 1 GGridBoundaryIdx 1 1 9 9 NumLayer 1 Lay M1 1 H 5
         NumNonDefaultSupplyGGrid 0 NumMasterCell 1 MasterCell MC1 0 0
         NumNeighborCellExtraDemand 0
         NumCellInst 3 CellInst C1 MC1 1 1 Movable CellInst C2 MC1 2 2 Fixed
         CellInst C3 MC1 3 3 Movable NumNets 0 NumRoutes 0",
    )
    .unwrap();
    assert!(!chip.move_cell(1, Pair(5, 5)));
    assert!(!chip.move_cell(3, Pair(5, 5)));
    assert_eq!(chip.already_moved, 0);
    assert!(chip.move_cell(0, Pair(5, 5)));
    assert_eq!(chip.cells[0].position, Pair(5, 5));
    assert!(chip.cells[0].moved);
    assert_eq!(chip.already_moved, 1);
    assert!(!chip.move_cell(2, Pair(6, 6)));
    assert_eq!(chip.cells[2].position, Pair(3, 3));
    assert!(!chip.cells[2].moved);
    assert!(chip.move_cell(0, Pair(7, 7)));
    assert_eq!(chip.cells[0].position, Pair(7, 7));
    assert_eq!(chip.already_moved, 1);
    assert_eq!(
        chip.to_text(),
        Some(String::from("NumMovedCellInst 1\nCellInst C1 7 7\nNumRoutes 0\n"))
    );
}

#[test]
fn a_net_is_routed_anew_from_the_places_of_its_cells() {
    let mut chip = Chip::parse(
        "MaxCellMove 2 GGridBoundaryIdx 1 1 9 9 NumLayer 2 Lay M1 1 H 5 Lay M2 2 V 5
         NumNonDefaultSupplyGGrid 0 NumMasterCell 1 MasterCell MC1 1 0 Pin P1 M1
         NumNeighborCellExtraDemand 0
         NumCellInst 2 CellInst C1 MC1 1 1 Movable CellInst C2 MC1 1 3 Movable
         NumNets 1 Net N1 2 NoCstr Pin C1/P1 Pin C2/P1
         NumRoutes 1 1 1 1 1 3 1 N1",
    )
    .unwrap();
    assert_eq!(chip.pin_owner(0), Some(0));
    assert_eq!(chip.pin_owner(1), Some(1));
    assert_eq!(chip.pin_owner(2), None);
    assert!(chip.move_cell(1, Pair(4, 1)));
    let route = vec![Route::raw(1, 1, 2, 4, 1, 2)];
    assert_eq!(chip.reroute(1, &vec![0, 1], &route), Err(Error::Corrupt));
    assert_eq!(chip.reroute(0, &vec![0, 2], &route), Err(Error::Corrupt));
    assert_eq!(chip.reroute(0, &vec![0, 1], &vec![Route::raw(1, 1, 2, 4, 2, 2)]), Err(Error::Corrupt));
    assert_eq!(
        chip.reroute(0, &vec![0, 1], &vec![Route::raw(1, 1, 2, 3, 1, 2)]),
        Err(Error::DisconnectedNet)
    );
    assert_eq!(chip.nets[0].tree.nodes.len(), 2);
    assert_eq!(chip.nets[0].tree.nodes[1].position, Pair(1, 3));
    assert_eq!(chip.reroute(0, &vec![0, 1], &route), Ok(()));
    assert_eq!(chip.nets[0].tree.nodes[1].position, Pair(4, 1));
    assert_eq!(
        chip.to_text(),
        Some(String::from("NumMovedCellInst 1\nCellInst C2 4 1\nNumRoutes 1\n1 1 2 4 1 2 N1\n"))
    );
}
