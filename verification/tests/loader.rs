use cell_move_router::chip::Chip;
use cell_move_router::components::{
    Blockage, CellType, Conflict, ConflictType, Direction, MasterPin, Pair, Route,
};
use cell_move_router::error::Error;
use cell_move_router::loader::parse_description;

const MINIMUM: &str = "MaxCellMove 0
GGridBoundaryIdx 1 1 1 1
NumLayer 1
Lay M1 1 H 10
NumNonDefaultSupplyGGrid 0
NumMasterCell 1
MasterCell MC1 0 0
NumNeighborCellExtraDemand 0
NumCellInst 0
NumNets 0
NumRoutes 0
";

const IDENTITY: &str = "MaxCellMove 2
GGridBoundaryIdx 1 1 3 3
NumLayer 2
Lay M1 1 H 10
Lay M2 2 V 8
NumNonDefaultSupplyGGrid 0
NumMasterCell 1
MasterCell MC1 1 0
Pin P1 M1
NumNeighborCellExtraDemand 0
NumCellInst 2
CellInst C1 MC1 1 1 Fixed
CellInst C2 MC1 1 3 Fixed
NumNets 1
Net N1 2 NoCstr
Pin C1/P1
Pin C2/P1
NumRoutes 2
1 1 1 1 2 1 N1
1 2 1 1 3 1 N1
";

const FULL: &str = "MaxCellMove 3
GGridBoundaryIdx 1 1 4 5
NumLayer 3
Lay M1 1 H 10
Lay M2 2 V 8
Lay M3 3 H 6
NumNonDefaultSupplyGGrid 2
2 3 1 +4
4 5 3 -6
NumMasterCell 2
MasterCell MC1 2 1
Pin P1 M1
Pin P2 M2
Blkg B1 M1 2
MasterCell MC2 1 2
Pin P1 M3
Blkg B1 M2 1
Blkg B2 M3 4
NumNeighborCellExtraDemand 3
sameGGrid MC1 MC2 M1 3
adjHGGrid MC2 MC2 M2 1
sameGGrid MC2 MC1 M1 3
NumCellInst 3
CellInst C1 MC1 1 1 Movable
CellInst C2 MC2 1 3 Fixed
CellInst C3 MC1 2 2 Movable
NumNets 2
Net N1 3 NoCstr
Pin C1/P1
Pin C2/P1
Pin C3/P2
Net N2 2 M2
Pin C1/P2
Pin C3/P1
NumRoutes 5
1 1 1 1 3 1 N1
1 2 1 2 2 1 N1
1 1 2 1 2 2 N2
1 2 2 2 2 2 N2
2 2 1 2 2 2 N2
";

fn with(text: &str, old: &str, new: &str) -> String {
    assert!(text.contains(old));
    text.replacen(old, new, 1)
}

#[test]
fn minimum_file_loads_and_writes_two_empty_sections() {
    let chip = Chip::parse(MINIMUM).unwrap();
    assert_eq!(chip.max_move, 0);
    assert_eq!(chip.already_moved, 0);
    assert_eq!(chip.dim, Pair(1, 1));
    assert_eq!(chip.layers.len(), 1);
    assert_eq!(chip.layers[0].id, 0);
    assert_eq!(chip.layers[0].direction, Direction::Horizontal);
    assert_eq!(chip.layers[0].capacity, vec![10]);
    assert_eq!(chip.mastercells.len(), 1);
    assert!(chip.mastercells[0].pins.is_empty());
    assert!(chip.mastercells[0].blkgs.is_empty());
    assert!(chip.conflicts.is_empty());
    assert!(chip.cells.is_empty());
    assert!(chip.nets.is_empty());
    assert_eq!(chip.to_text(), Some(String::from("NumMovedCellInst 0\nNumRoutes 0\n")));
}

#[test]
fn identity_net_loads_and_writes_its_routes_back() {
    let chip = Chip::parse(IDENTITY).unwrap();
    assert_eq!(chip.nets.len(), 1);
    let tree = &chip.nets[0].tree;
    let positions: Vec<Pair<usize>> = tree.nodes.iter().map(|n| n.position).collect();
    assert_eq!(positions, vec![Pair(1, 1), Pair(1, 2), Pair(1, 3)]);
    assert_eq!(tree.nodes[0].id, Some(0));
    assert_eq!(tree.nodes[1].id, None);
    assert_eq!(tree.nodes[2].id, Some(1));
    assert_eq!(
        chip.to_text(),
        Some(String::from("NumMovedCellInst 0\nNumRoutes 2\n1 1 1 1 2 1 N1\n1 2 1 1 3 1 N1\n"))
    );
}

#[test]
fn supply_changes_one_grid_cell() {
    let text = "MaxCellMove 0 GGridBoundaryIdx 1 1 2 2 NumLayer 1 Lay M1 1 H 5
NumNonDefaultSupplyGGrid 1
 1 1 1 -3
NumMasterCell 0 NumNeighborCellExtraDemand 0 NumCellInst 0 NumNets 0 NumRoutes 0";
    let chip = Chip::parse(text).unwrap();
    assert_eq!(chip.layers[0].get_capacity(0, 0), Some(&2));
    assert_eq!(chip.layers[0].get_capacity(0, 1), Some(&5));
    assert_eq!(chip.layers[0].get_capacity(1, 0), Some(&5));
    assert_eq!(chip.layers[0].get_capacity(1, 1), Some(&5));
    assert_eq!(chip.layers[0].capacity, vec![2, 5, 5, 5]);
}

#[test]
fn full_file_fills_every_table() {
    let chip = Chip::parse(FULL).unwrap();
    assert_eq!(chip.max_move, 3);
    assert_eq!(chip.dim, Pair(4, 5));
    assert_eq!(chip.layers.len(), 3);
    assert_eq!(chip.layers[1].direction, Direction::Vertical);
    assert_eq!(chip.layers[1].dim, Pair(4, 5));
    assert_eq!(chip.layers[0].capacity.len(), 20);
    assert_eq!(chip.layers[0].get_capacity(1, 2), Some(&14));
    assert_eq!(chip.layers[0].get_capacity(0, 0), Some(&10));
    assert_eq!(chip.layers[2].get_capacity(3, 4), Some(&0));
    assert_eq!(chip.layers[2].get_capacity(3, 3), Some(&6));
    assert_eq!(
        chip.mastercells[0].pins,
        vec![MasterPin { id: 0, layer: 0 }, MasterPin { id: 1, layer: 1 }]
    );
    assert_eq!(chip.mastercells[0].blkgs, vec![Blockage { id: 0, layer: 0, demand: 2 }]);
    assert_eq!(chip.mastercells[1].id, 1);
    assert_eq!(chip.mastercells[1].blkgs.len(), 2);
    let same = |id| Conflict { kind: ConflictType::SameGGrid, id, layer: 0, demand: 3 };
    let adj = Conflict { kind: ConflictType::AdjHGGrid, id: 1, layer: 1, demand: 1 };
    assert_eq!(chip.conflicts, vec![(0, same(1)), (1, same(0)), (1, adj)]);
    assert_eq!(chip.cells.len(), 3);
    assert_eq!(chip.cells[0].pins, vec![0, 1]);
    assert_eq!(chip.cells[1].pins, vec![2]);
    assert_eq!(chip.cells[2].pins, vec![3, 4]);
    assert_eq!(chip.pin_ends, vec![2, 3, 5]);
    assert_eq!(chip.cells[0].movable, CellType::Movable);
    assert_eq!(chip.cells[1].movable, CellType::Fixed);
    assert_eq!(chip.cells[2].position, Pair(2, 2));
    assert!(!chip.cells[0].moved);
    assert_eq!(chip.nets.len(), 2);
    assert_eq!(chip.nets[0].id, 0);
    assert_eq!(chip.nets[0].min_layer, 0);
    assert_eq!(chip.nets[1].min_layer, 1);
    assert_eq!(chip.nets[0].tree.nodes.len(), 4);
    let ids: Vec<Option<usize>> = chip.nets[0].tree.nodes.iter().map(|n| n.id).collect();
    assert_eq!(ids, vec![Some(0), None, Some(2), Some(4)]);
    let ids: Vec<Option<usize>> = chip.nets[1].tree.nodes.iter().map(|n| n.id).collect();
    assert_eq!(ids, vec![Some(1), None, Some(3)]);
    assert_eq!(
        chip.to_text().unwrap(),
        "NumMovedCellInst 0\nNumRoutes 6\n\
         1 1 1 1 2 1 N1\n1 2 1 1 3 1 N1\n1 2 1 2 2 1 N1\n\
         2 2 1 2 2 2 N2\n1 1 2 1 2 2 N2\n1 2 2 2 2 2 N2\n"
    );
}

#[test]
fn description_keeps_the_pins_and_segments_of_every_net() {
    let desc = parse_description(FULL.as_bytes()).unwrap();
    assert_eq!(desc.nets.len(), 2);
    assert_eq!(desc.nets[0].pins, vec![(0, Pair(1, 1)), (2, Pair(1, 3)), (4, Pair(2, 2))]);
    assert_eq!(desc.nets[1].pins, vec![(1, Pair(1, 1)), (3, Pair(2, 2))]);
    assert_eq!(
        desc.nets[0].segments,
        vec![Route::raw(1, 1, 1, 1, 3, 1), Route::raw(1, 2, 1, 2, 2, 1)]
    );
    assert_eq!(desc.nets[1].segments.len(), 3);
    let chip = Chip::from_description(desc).unwrap();
    assert_eq!(chip.nets.len(), 2);
}

#[test]
fn any_whitespace_separates_tokens() {
    let text = MINIMUM.replace('\n', " \t\r\n\x0c ");
    assert!(Chip::parse(&text).is_ok());
    let text = format!("\n\n  {}", MINIMUM);
    assert!(Chip::parse(&text).is_ok());
}

#[test]
fn input_that_ends_early_is_truncated() {
    assert_eq!(Chip::parse("").err(), Some(Error::TruncatedInput));
    assert_eq!(Chip::parse("MaxCellMove").err(), Some(Error::TruncatedInput));
    let cut = &MINIMUM[..MINIMUM.len() - 2];
    assert_eq!(Chip::parse(cut).err(), Some(Error::TruncatedInput));
    let cut = with(IDENTITY, "1 2 1 1 3 1 N1\n", "1 2 1 1 3 1");
    assert_eq!(Chip::parse(&cut).err(), Some(Error::TruncatedInput));
}

#[test]
fn a_wrong_keyword_is_a_syntax_error_that_names_the_keyword() {
    let bad = with(MINIMUM, "MaxCellMove", "MaxCellMoves");
    assert_eq!(Chip::parse(&bad).err(), Some(Error::SyntaxError { expected: "MaxCellMove" }));
    let bad = with(MINIMUM, "NumLayer", "Layers");
    assert_eq!(Chip::parse(&bad).err(), Some(Error::SyntaxError { expected: "NumLayer" }));
    let bad = with(MINIMUM, "Lay ", "Layer ");
    assert_eq!(Chip::parse(&bad).err(), Some(Error::SyntaxError { expected: "Lay" }));
    let bad = with(MINIMUM, " H ", " X ");
    assert_eq!(Chip::parse(&bad).err(), Some(Error::SyntaxError { expected: "V" }));
    let bad = with(IDENTITY, "Fixed", "Frozen");
    assert_eq!(Chip::parse(&bad).err(), Some(Error::SyntaxError { expected: "Fixed" }));
    let bad = with(FULL, "adjHGGrid", "adjacent");
    assert_eq!(Chip::parse(&bad).err(), Some(Error::SyntaxError { expected: "sameGGrid" }));
    let bad = with(IDENTITY, "Pin C1/P1", "Pins C1/P1");
    assert_eq!(Chip::parse(&bad).err(), Some(Error::SyntaxError { expected: "Pin" }));
    let bad = with(IDENTITY, "NumRoutes", "Routes");
    assert_eq!(Chip::parse(&bad).err(), Some(Error::SyntaxError { expected: "NumRoutes" }));
}

#[test]
fn a_token_that_is_no_integer_is_a_syntax_error() {
    let bad = with(MINIMUM, "MaxCellMove 0", "MaxCellMove zero");
    assert_eq!(Chip::parse(&bad).err(), Some(Error::SyntaxError { expected: "integer" }));
    let bad = with(MINIMUM, "MaxCellMove 0", "MaxCellMove -1");
    assert_eq!(Chip::parse(&bad).err(), Some(Error::SyntaxError { expected: "integer" }));
    let bad = with(MINIMUM, "H 10", "H 99999999999999999999999999");
    assert_eq!(Chip::parse(&bad).err(), Some(Error::SyntaxError { expected: "integer" }));
    let bad = with(FULL, "2 3 1 +4", "2 3 1 4.5");
    assert_eq!(Chip::parse(&bad).err(), Some(Error::SyntaxError { expected: "integer" }));
    let good = with(MINIMUM, "MaxCellMove 0", "MaxCellMove +07");
    assert_eq!(Chip::parse(&good).unwrap().max_move, 7);
}

#[test]
fn tokens_after_the_last_section_are_a_syntax_error() {
    let bad = format!("{} 1", MINIMUM);
    assert_eq!(Chip::parse(&bad).err(), Some(Error::SyntaxError { expected: "end of input" }));
}

#[test]
fn names_of_the_wrong_form_are_malformed() {
    let bad = with(MINIMUM, "Lay M1", "Lay L1");
    assert_eq!(Chip::parse(&bad).err(), Some(Error::MalformedName));
    let bad = with(MINIMUM, "MasterCell MC1", "MasterCell MC");
    assert_eq!(Chip::parse(&bad).err(), Some(Error::MalformedName));
    let bad = with(IDENTITY, "Pin C1/P1", "Pin C1");
    assert_eq!(Chip::parse(&bad).err(), Some(Error::MalformedName));
    let bad = with(IDENTITY, "Pin C1/P1", "Pin C1/P1/P1");
    assert_eq!(Chip::parse(&bad).err(), Some(Error::MalformedName));
    let bad = with(IDENTITY, "Pin C1/P1", "Pin P1/C1");
    assert_eq!(Chip::parse(&bad).err(), Some(Error::MalformedName));
    let bad = with(IDENTITY, "Net N1 2 NoCstr", "Net N1 2 None");
    assert_eq!(Chip::parse(&bad).err(), Some(Error::MalformedName));
    let bad = with(IDENTITY, "1 1 1 1 2 1 N1", "1 1 1 1 2 1 N0");
    assert_eq!(Chip::parse(&bad).err(), Some(Error::MalformedName));
}

#[test]
fn numbers_that_break_an_invariant_are_corrupt() {
    let bad = with(MINIMUM, "GGridBoundaryIdx 1 1", "GGridBoundaryIdx 0 1");
    assert_eq!(Chip::parse(&bad).err(), Some(Error::Corrupt));
    let bad = with(MINIMUM, "GGridBoundaryIdx 1 1", "GGridBoundaryIdx 1 2");
    assert_eq!(Chip::parse(&bad).err(), Some(Error::Corrupt));
    let bad = with(MINIMUM, "Lay M1 1", "Lay M2 2");
    assert_eq!(Chip::parse(&bad).err(), Some(Error::Corrupt));
    let bad = with(MINIMUM, "Lay M1 1", "Lay M1 2");
    assert_eq!(Chip::parse(&bad).err(), Some(Error::Corrupt));
    let bad = with(MINIMUM, "MasterCell MC1", "MasterCell MC2");
    assert_eq!(Chip::parse(&bad).err(), Some(Error::Corrupt));
    let bad = with(IDENTITY, "CellInst C2", "CellInst C3");
    assert_eq!(Chip::parse(&bad).err(), Some(Error::Corrupt));
    let bad = with(IDENTITY, "CellInst C2 MC1", "CellInst C2 MC2");
    assert_eq!(Chip::parse(&bad).err(), Some(Error::Corrupt));
    let bad = with(IDENTITY, "Net N1", "Net N2");
    assert_eq!(Chip::parse(&bad).err(), Some(Error::Corrupt));
    let bad = with(IDENTITY, "Pin C2/P1", "Pin C3/P1");
    assert_eq!(Chip::parse(&bad).err(), Some(Error::Corrupt));
    let bad = with(IDENTITY, "Pin C2/P1", "Pin C2/P2");
    assert_eq!(Chip::parse(&bad).err(), Some(Error::Corrupt));
    let bad = with(IDENTITY, "1 1 1 1 2 1 N1", "1 1 1 1 2 1 N2");
    assert_eq!(Chip::parse(&bad).err(), Some(Error::Corrupt));
    let bad = with(IDENTITY, "1 1 1 1 2 1 N1", "1 1 1 2 2 1 N1");
    assert_eq!(Chip::parse(&bad).err(), Some(Error::Corrupt));
    let bad = with(IDENTITY, "1 1 1 1 2 1 N1", "1 1 1 1 1 1 N1");
    assert_eq!(Chip::parse(&bad).err(), Some(Error::Corrupt));
    let bad = with(FULL, "Pin P2 M2", "Pin P1 M2");
    assert_eq!(Chip::parse(&bad).err(), Some(Error::Corrupt));
    let bad = with(FULL, "Blkg B2 M3 4", "Blkg B1 M3 4");
    assert_eq!(Chip::parse(&bad).err(), Some(Error::Corrupt));
}

#[test]
fn supply_that_would_turn_negative_is_corrupt() {
    let bad = with(FULL, "4 5 3 -6", "4 5 3 -7");
    assert_eq!(Chip::parse(&bad).err(), Some(Error::Corrupt));
    let bad = with(FULL, "4 5 3 -6", "4 6 3 -6");
    assert_eq!(Chip::parse(&bad).err(), Some(Error::Corrupt));
    let bad = with(FULL, "4 5 3 -6", "5 5 3 -6");
    assert_eq!(Chip::parse(&bad).err(), Some(Error::Corrupt));
    let bad = with(FULL, "4 5 3 -6", "4 5 4 -6");
    assert_eq!(Chip::parse(&bad).err(), Some(Error::Corrupt));
    let bad = with(FULL, "4 5 3 -6", "0 5 3 -6");
    assert_eq!(Chip::parse(&bad).err(), Some(Error::Corrupt));
    let bad = with(FULL, "2 3 1 +4", "2 3 1 18446744073709551615");
    assert_eq!(Chip::parse(&bad).err(), Some(Error::SyntaxError { expected: "integer" }));
    let bad = with(FULL, "2 3 1 +4", "2 3 1 9223372036854775807");
    assert!(Chip::parse(&bad).is_ok());
}

#[test]
fn a_net_that_its_routes_leave_apart_fails_the_load() {
    let bad = with(IDENTITY, "NumRoutes 2\n1 1 1 1 2 1 N1\n1 2 1 1 3 1 N1", "NumRoutes 1\n1 1 1 1 2 1 N1");
    assert_eq!(Chip::parse(&bad).err(), Some(Error::DisconnectedNet));
    let bad = with(IDENTITY, "NumRoutes 2\n1 1 1 1 2 1 N1\n1 2 1 1 3 1 N1", "NumRoutes 0");
    assert_eq!(Chip::parse(&bad).err(), Some(Error::DisconnectedNet));
}

#[test]
fn read_text_fills_a_chip_and_leaves_it_alone_on_an_error() {
    let mut chip = Chip::default();
    assert_eq!(chip.read_text(IDENTITY), Ok(()));
    assert_eq!(chip.cells.len(), 2);
    assert_eq!(chip.read_text("MaxCellMove"), Err(Error::TruncatedInput));
    assert_eq!(chip.cells.len(), 2);
    assert_eq!(chip.max_move, 2);
    assert_eq!(chip.read_text(MINIMUM), Ok(()));
    assert_eq!(chip.cells.len(), 0);
}

#[test]
fn a_chip_read_from_what_it_wrote_writes_the_same_again() {
    let chip = Chip::parse(FULL).unwrap();
    let written = chip.to_text().unwrap();
    let routes = written.split_once("NumRoutes").unwrap().1;
    let head = FULL.split_once("NumRoutes").unwrap().0;
    let again = format!("{}NumRoutes{}", head, routes);
    let second = Chip::parse(&again).unwrap();
    assert_eq!(second.to_text().unwrap(), written);
    for (a, b) in chip.nets.iter().zip(second.nets.iter()) {
        assert_eq!(a.tree.nodes.len(), b.tree.nodes.len());
        for (x, y) in a.tree.nodes.iter().zip(b.tree.nodes.iter()) {
            assert_eq!(x.position, y.position);
            assert_eq!(x.id, y.id);
            assert_eq!(x.neightbors(), y.neightbors());
            assert_eq!(x.span(), y.span());
        }
    }
}
