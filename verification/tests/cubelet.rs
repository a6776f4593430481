use rubiks::cubelet::{Axis, Cubelet, Face, Facelet, Rotation};

#[test]
fn composition_is_associative() {
    let all = Rotation::variants();
    for a in all {
        for b in all {
            for c in all {
                assert_eq!(a.compose(b).compose(c), a.compose(b.compose(c)));
            }
        }
    }
}

#[test]
fn neutral_is_the_only_identity() {
    let all = Rotation::variants();
    for a in all {
        assert_eq!(a.compose(Rotation::Neutral), a);
        assert_eq!(Rotation::Neutral.compose(a), a);
    }
    for e in all {
        if e != Rotation::Neutral {
            assert!(all.iter().all(|a| a.compose(e) != *a));
            assert!(all.iter().all(|a| e.compose(*a) != *a));
        }
    }
}

#[test]
fn every_rotation_has_its_inverse() {
    for a in Rotation::variants() {
        assert_eq!(a.compose(a.inverse()), Rotation::Neutral);
        assert_eq!(a.inverse().compose(a), Rotation::Neutral);
        assert_eq!(a.inverse().inverse(), a);
    }
    assert_eq!(Rotation::X.inverse(), Rotation::X3);
    assert_eq!(Rotation::Y2.inverse(), Rotation::Y2);
    assert_eq!(Rotation::XY.inverse(), Rotation::X3Z);
    assert_eq!(Rotation::XZ3.inverse(), Rotation::X3Y);
}

#[test]
fn composition_is_not_commutative() {
    assert_eq!(Rotation::X.compose(Rotation::Y), Rotation::XY);
    assert_ne!(Rotation::Y.compose(Rotation::X), Rotation::XY);
    assert_eq!(Rotation::Y.compose(Rotation::X), Rotation::XZ);
}

#[test]
fn names_spell_products_of_axis_turns() {
    assert_eq!(Rotation::X.compose(Rotation::X), Rotation::X2);
    assert_eq!(Rotation::X2.compose(Rotation::Y3), Rotation::X2Y3);
    assert_eq!(Rotation::X3.compose(Rotation::Z), Rotation::X3Z);
    assert_eq!(Rotation::X2.compose(Rotation::Y2), Rotation::Z2);
    for r in Rotation::variants() {
        let [(axis1, turns1), (axis2, turns2)] = r.into_parts();
        let first = Rotation::from((turns1, axis1));
        let second = Rotation::from((turns2, axis2));
        assert_eq!(first.compose(second), r);
        assert_eq!(
            Rotation::simple_rotation(Rotation::simple_rotation(Rotation::Neutral, axis1, turns1), axis2, turns2),
            r
        );
    }
    assert_eq!(Rotation::X2Y3.into_parts(), [(Axis::X, 2), (Axis::Y, 3)]);
    assert_eq!(Rotation::Neutral.into_parts(), [(Axis::X, 0), (Axis::X, 0)]);
    assert_eq!(Rotation::Z3.into_parts(), [(Axis::Z, 3), (Axis::Z, 0)]);
}

#[test]
fn simple_rotation_counts_quarter_turns() {
    assert_eq!(Rotation::simple_rotation(Rotation::Y, Axis::X, 0), Rotation::Y);
    assert_eq!(Rotation::simple_rotation(Rotation::Y, Axis::X, 1), Rotation::XZ);
    assert_eq!(Rotation::simple_rotation(Rotation::Neutral, Axis::Z, 3), Rotation::Z3);
    assert_eq!(Rotation::simple_rotation(Rotation::X, Axis::X, 3), Rotation::Neutral);
    assert_eq!(Rotation::simple_rotation(Rotation::XY, Axis::Z, 4), Rotation::XY);
    assert_eq!(Rotation::simple_rotation(Rotation::XY, Axis::Z, 5), Rotation::Y);
    for r in Rotation::variants() {
        for axis in [Axis::X, Axis::Y, Axis::Z] {
            for turns in 0..8u8 {
                assert_eq!(
                    Rotation::simple_rotation(r, axis, turns),
                    r.compose(Rotation::from((turns, axis)))
                );
            }
        }
    }
}

#[test]
fn turns_about_an_axis() {
    assert_eq!(Rotation::from((0, Axis::Y)), Rotation::Neutral);
    assert_eq!(Rotation::from((1, Axis::Y)), Rotation::Y);
    assert_eq!(Rotation::from((2, Axis::Z)), Rotation::Z2);
    assert_eq!(Rotation::from((3, Axis::X)), Rotation::X3);
    assert_eq!(Rotation::from((7, Axis::X)), Rotation::X3);
    assert_eq!(Rotation::from((4, Axis::Z)), Rotation::Neutral);
    assert_eq!(Rotation::default(), Rotation::Neutral);
}

#[test]
fn codes_letters_and_names() {
    let all = Rotation::variants();
    for (i, r) in all.iter().enumerate() {
        assert_eq!(r.into_usize(), i);
        assert_eq!(Rotation::from_code(i as u8), Ok(*r));
        assert_eq!(r.to_letter(), b'A' + i as u8);
        assert_eq!(Rotation::from_letter(b'A' + i as u8), Some(*r));
    }
    assert_eq!(Rotation::from_code(24), Err(24));
    assert_eq!(Rotation::try_from(5u8), Ok(Rotation::Y2));
    assert_eq!(Rotation::try_from(24u8), Err(24));
    assert_eq!(Rotation::from_code(255), Err(255));
    assert_eq!(Rotation::from_letter(b'Y'), None);
    assert_eq!(Rotation::from_letter(b'@'), None);
    assert_eq!(Rotation::from_letter(b'a'), None);
    assert_eq!(Rotation::Neutral.name(), "Neutral");
    assert_eq!(Rotation::X2Y3.name(), "X2Y3");
    assert_eq!(Axis::Z.name(), "Z");
    let generators = Rotation::generators();
    assert_eq!(generators[0], Rotation::X);
    assert_eq!(generators[8], Rotation::Z3);
}

#[test]
fn len_counts_axis_turns() {
    assert_eq!(Rotation::Neutral.len(), 0);
    for r in Rotation::generators() {
        assert_eq!(r.len(), 1);
    }
    for r in Rotation::variants().iter().skip(10) {
        assert_eq!(r.len(), 2);
    }
}

#[test]
fn turning_a_cubelet_is_an_action_of_the_group() {
    let home = Cubelet::default();
    assert_eq!(home.up, Facelet::White);
    assert_eq!(home.facelet(Face::Down), Facelet::Yellow);
    for a in Rotation::variants() {
        for b in Rotation::variants() {
            assert_eq!(home.compose(a).compose(b), home.compose(a.compose(b)));
        }
    }
    let x = home.compose(Rotation::X);
    assert_eq!(x.up, Facelet::Blue);
    assert_eq!(x.front, Facelet::White);
    assert_eq!(x.left, Facelet::Orange);
    assert_eq!(x.down, Facelet::Green);
}

#[test]
fn the_24_rotations_show_24_cubelets() {
    let home = Cubelet::default();
    let all = Rotation::variants();
    for a in all {
        for b in all {
            assert_eq!(home.compose(a) == home.compose(b), a == b);
        }
    }
    // a half turn about Z is not three quarter turns
    let half = home.compose(Rotation::Z2);
    assert_eq!(half.front, Facelet::Blue);
    assert_eq!(half.left, Facelet::Red);
    assert_eq!(half.up, Facelet::White);
}

#[test]
fn two_facelets_fix_a_rotation() {
    for r in Rotation::variants() {
        let seen = Cubelet::default().compose(r);
        let found = Rotation::from_two_facelets(&(Face::Up, seen.up), &(Face::Front, seen.front));
        assert_eq!(found, Some(r));
        let found = Rotation::from_two_facelets(&(Face::Left, seen.left), &(Face::Down, seen.down));
        assert_eq!(found, Some(r));
        assert_eq!(
            Cubelet::from_two_facelets((Face::Back, seen.back), (Face::Right, seen.right)),
            seen
        );
    }
    // no cubelet shows one color on two faces
    assert_eq!(
        Rotation::from_two_facelets(&(Face::Up, Facelet::White), &(Face::Front, Facelet::White)),
        None
    );
    assert_eq!(
        Cubelet::from_two_facelets((Face::Up, Facelet::White), (Face::Front, Facelet::White)),
        Cubelet::default().compose(Rotation::X3Z3)
    );
    // one facelet given twice leaves four rotations: the one of greatest
    // code is taken
    assert_eq!(
        Rotation::from_two_facelets(&(Face::Up, Facelet::White), &(Face::Up, Facelet::White)),
        Some(Rotation::Z3)
    );
}
