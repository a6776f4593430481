use rubiks::action::{Action, Move, QuarterTurn, Turn};
use rubiks::codec::{pack, pack_bits, unpack, unpack_bits, unpack_symbols, Packable};
use rubiks::cubelet::{Axis, Face, Rotation};

// All of these tests are of a length that requires padding at the end of
// the packed version. The six faces are the symbols 0 to 5 of three bits.

#[test]
fn book_test_pack() {
    let bytes = [Face::Left, Face::Right, Face::Front, Face::Back, Face::Down, Face::Up];
    let expected = [0b00000101u8, 0b00111001, 0b01111111];
    let actual = pack(bytes.as_slice());
    assert_eq!(expected.as_slice(), actual.as_slice());
}

#[test]
fn book_test_unpack() {
    let expected = [Face::Left, Face::Right, Face::Front, Face::Back, Face::Down, Face::Up];
    let bytes = [0b00000101u8, 0b00111001, 0b01111111];
    let actual: Vec<Face> = unpack(bytes.as_slice());
    assert_eq!(expected.as_slice(), actual.as_slice());
}

#[test]
fn book_test_pack_unpack_move() {
    let input = vec![Move(Axis::X, 1, 1), Move(Axis::Y, 1, 3), Move(Axis::X, 0, 1)];
    let output: Vec<Move> = unpack(&pack(&input));
    assert_eq!(input, output);
}

#[test]
fn book_test_pack_unpack_turn() {
    let input = vec![Turn::L, Turn::B, Turn::R3, Turn::D3, Turn::F2];
    let output: Vec<Turn> = unpack(&pack(&input));
    assert_eq!(input, output);
}

#[test]
fn book_test_pack_unpack_quarter_turn() {
    let input = vec![
        QuarterTurn::L,
        QuarterTurn::B,
        QuarterTurn::R3,
        QuarterTurn::D3,
        QuarterTurn::F,
    ];
    let output: Vec<QuarterTurn> = unpack(&pack(&input));
    assert_eq!(input, output);
}

#[test]
fn book_test_pack_unpack_rotation() {
    let input = vec![Rotation::X, Rotation::XY3, Rotation::Z2, Rotation::Y3, Rotation::X3Z3];
    let output: Vec<Rotation> = unpack(&pack(&input));
    assert_eq!(input, output);
}

#[test]
fn unpack_bits_keeps_the_sentinels() {
    let bytes = [0b00000101u8, 0b00111001, 0b01111111];
    assert_eq!(unpack_bits(bytes.as_slice(), 3), vec![0, 1, 2, 3, 4, 5, 7, 7]);
}

#[test]
fn pack_leaves_bits_that_hold_no_sentinel_at_zero() {
    // five symbols of five bits: 25 bits in four bytes, one sentinel, two
    // bits over
    let packed = pack_bits(&[1, 2, 3, 4, 5], 5);
    assert_eq!(packed, vec![0b00001000, 0b10000110, 0b01000010, 0b11111100]);
    assert_eq!(unpack_bits(&packed, 5), vec![1, 2, 3, 4, 5, 31]);
    assert_eq!(unpack_symbols(&packed, 5), vec![1, 2, 3, 4, 5]);
}

#[test]
fn pack_of_nothing_is_nothing() {
    assert_eq!(pack_bits(&[], 5), Vec::<u8>::new());
    assert_eq!(unpack_bits(&[], 5), Vec::<u8>::new());
    let none: Vec<Turn> = unpack(&[]);
    assert!(none.is_empty());
}

#[test]
fn width_one_and_width_seven() {
    let bits = [1u8, 0, 0, 0, 1, 0, 0, 0, 0];
    let packed = pack_bits(&bits, 1);
    assert_eq!(packed, vec![0b10001000, 0b01111111]);
    assert_eq!(unpack_bits(&packed, 1).len(), 16);
    let wide = [0u8, 126, 64];
    let packed = pack_bits(&wide, 7);
    assert_eq!(packed.len(), 3);
    assert_eq!(unpack_symbols(&packed, 7), vec![0, 126, 64]);
}

#[test]
fn leftover_bits_under_another_width_surface() {
    // the accepted hazard: bytes packed at width 5 and read at width 4
    let packed = pack_bits(&[1, 2, 3, 4, 5], 5);
    let misread = unpack_symbols(&packed, 4);
    assert_ne!(misread, vec![1, 2, 3, 4, 5]);
    assert_eq!(unpack_bits(&packed, 4).len(), 8);
}

#[test]
fn every_value_round_trips() {
    let rotations: Vec<Rotation> = Rotation::variants().to_vec();
    assert_eq!(unpack::<Rotation>(&pack(&rotations)), rotations);
    let moves = <Move as Action>::all();
    assert_eq!(moves.len(), 45);
    assert_eq!(unpack::<Move>(&pack(&moves)), moves);
    let turns = <Turn as Action>::all();
    assert_eq!(unpack::<Turn>(&pack(&turns)), turns);
    let quarters = <QuarterTurn as Action>::all();
    assert_eq!(unpack::<QuarterTurn>(&pack(&quarters)), quarters);
}

#[test]
fn codes_are_positions() {
    assert_eq!(Rotation::X3Z3.to_byte(), 23);
    assert_eq!(Rotation::from_byte(31), None);
    assert_eq!(Rotation::from_byte(24), None);
    assert_eq!(Move(Axis::X, 0, 1).to_byte(), 0);
    assert_eq!(Move(Axis::Z, 3, 3).to_byte(), 44);
    assert_eq!(Move::from_byte(45), None);
    assert_eq!(Move::from_byte(63), None);
    assert_eq!(Turn::U3.to_byte(), 17);
    assert_eq!(Turn::from_byte(3), Some(Turn::R));
    assert_eq!(Turn::from_byte(18), None);
    assert_eq!(QuarterTurn::B3.to_byte(), 11);
    assert_eq!(QuarterTurn::from_byte(15), None);
    assert_eq!(<Turn as Packable>::packed_bits(), 5);
    assert_eq!(<QuarterTurn as Packable>::packed_bits(), 4);
    assert_eq!(<Move as Packable>::packed_bits(), 6);
}

// The same six once more, under the names by which the keys of a store
// know them.

#[test]
fn test_pack() {
    let bytes = [Face::Left, Face::Right, Face::Front, Face::Back, Face::Down, Face::Up];
    let expected = [0b00000101u8, 0b00111001, 0b01111111];
    let actual = pack(bytes.as_slice());
    assert_eq!(expected.as_slice(), actual.as_slice());
}

#[test]
fn test_unpack() {
    let expected = [Face::Left, Face::Right, Face::Front, Face::Back, Face::Down, Face::Up];
    let bytes = [0b00000101u8, 0b00111001, 0b01111111];
    let actual: Vec<Face> = unpack(bytes.as_slice());
    assert_eq!(expected.as_slice(), actual.as_slice());
}

#[test]
fn test_pack_unpack_move() {
    let input = vec![Move(Axis::X, 1, 1), Move(Axis::Y, 1, 3), Move(Axis::X, 0, 1)];
    let output: Vec<Move> = unpack(&pack(&input));
    assert_eq!(input, output);
}

#[test]
fn test_pack_unpack_turn() {
    let input = vec![Turn::L, Turn::B, Turn::R3, Turn::D3, Turn::F2];
    let output: Vec<Turn> = unpack(&pack(&input));
    assert_eq!(input, output);
}

#[test]
fn test_pack_unpack_quarter_turn() {
    let input = vec![
        QuarterTurn::L,
        QuarterTurn::B,
        QuarterTurn::R3,
        QuarterTurn::D3,
        QuarterTurn::F,
    ];
    let output: Vec<QuarterTurn> = unpack(&pack(&input));
    assert_eq!(input, output);
}

#[test]
fn test_pack_unpack_rotation() {
    let input = vec![Rotation::X, Rotation::XY3, Rotation::Z2, Rotation::Y3, Rotation::X3Z3];
    let output: Vec<Rotation> = unpack(&pack(&input));
    assert_eq!(input, output);
}
