use cell_move_router::components::{
    Blockage, Cell, FactoryID, Layer, MasterCell, MasterPin,
};
use cell_move_router::error::Error;
use cell_move_router::tree::Net;

#[test]
fn every_class_has_its_prefix() {
    assert_eq!(Layer::prefix(), "M");
    assert_eq!(MasterPin::prefix(), "P");
    assert_eq!(Blockage::prefix(), "B");
    assert_eq!(MasterCell::prefix(), "MC");
    assert_eq!(Cell::prefix(), "C");
    assert_eq!(Net::prefix(), "N");
}

#[test]
fn names_decode_to_ids_one_less_than_their_number() {
    assert_eq!(Layer::from_str("M3"), Ok(2));
    assert_eq!(MasterCell::from_str("MC7"), Ok(6));
    assert_eq!(Net::from_str("N142"), Ok(141));
    assert_eq!(Cell::from_str("C1001"), Ok(1000));
    assert_eq!(MasterPin::from_str("P1"), Ok(0));
    assert_eq!(Blockage::from_str("B10"), Ok(9));
}

#[test]
fn ids_encode_to_names_with_their_number_one_more() {
    assert_eq!(Layer::from_num(2), Ok(String::from("M3")));
    assert_eq!(MasterCell::from_num(6), Ok(String::from("MC7")));
    assert_eq!(Net::from_num(141), Ok(String::from("N142")));
    assert_eq!(Cell::from_num(1000), Ok(String::from("C1001")));
    assert_eq!(Cell::from_num(0), Ok(String::from("C1")));
    assert_eq!(Cell::from_num(8), Ok(String::from("C9")));
    assert_eq!(Cell::from_num(9), Ok(String::from("C10")));
}

#[test]
fn decode_undoes_encode() {
    for id in [0usize, 1, 8, 9, 10, 98, 99, 100, 12345, usize::MAX - 1] {
        let name = Net::from_num(id).unwrap();
        assert_eq!(Net::from_str(&name), Ok(id));
        let name = MasterCell::from_num(id).unwrap();
        assert_eq!(MasterCell::from_str(&name), Ok(id));
    }
}

#[test]
fn encode_undoes_decode_of_well_formed_names() {
    for name in ["M1", "M9", "M10", "M18446744073709551615", "M4096"] {
        let id = Layer::from_str(name).unwrap();
        assert_eq!(Layer::from_num(id), Ok(String::from(name)));
    }
}

#[test]
fn malformed_names_are_refused() {
    assert_eq!(Layer::from_str(""), Err(Error::MalformedName));
    assert_eq!(Layer::from_str("M"), Err(Error::MalformedName));
    assert_eq!(Layer::from_str("M0"), Err(Error::MalformedName));
    assert_eq!(Layer::from_str("N3"), Err(Error::MalformedName));
    assert_eq!(Layer::from_str("3"), Err(Error::MalformedName));
    assert_eq!(Layer::from_str("M-3"), Err(Error::MalformedName));
    assert_eq!(Layer::from_str("M+3"), Err(Error::MalformedName));
    assert_eq!(Layer::from_str("M3x"), Err(Error::MalformedName));
    assert_eq!(Layer::from_str("M 3"), Err(Error::MalformedName));
    assert_eq!(MasterCell::from_str("M3"), Err(Error::MalformedName));
    assert_eq!(Cell::from_str("MC3"), Err(Error::MalformedName));
    assert_eq!(Layer::from_str("M18446744073709551616"), Err(Error::MalformedName));
    assert_eq!(Layer::from_str("M\u{663}"), Err(Error::MalformedName));
}

#[test]
fn leading_zeros_decode_but_are_not_written() {
    assert_eq!(Layer::from_str("M007"), Ok(6));
    assert_eq!(Layer::from_num(6), Ok(String::from("M7")));
}

#[test]
fn the_greatest_id_has_no_name() {
    assert_eq!(Layer::from_num(usize::MAX), Err(Error::MalformedName));
}
