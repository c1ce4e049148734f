use half_scramble::cube::{Cube, Face, Move};
use half_scramble::scramble::{generate_scramble, invert_move, invert_path};

fn opposite(f: Face) -> Face {
    match f {
        Face::U => Face::D,
        Face::R => Face::L,
        Face::F => Face::B,
        Face::L => Face::R,
        Face::B => Face::F,
        Face::D => Face::U,
    }
}

#[test]
fn scramble_has_requested_length_and_shape() {
    for _ in 0..20 {
        let s = generate_scramble(12);
        assert_eq!(s.len(), 12);
        for mv in &s {
            assert!(mv.coeff == -1 || mv.coeff == 1 || mv.coeff == 2);
        }
        for i in 1..s.len() {
            assert_ne!(s[i].face, s[i - 1].face);
        }
        for i in 2..s.len() {
            assert!(!(s[i].face == opposite(s[i - 1].face) && s[i].face == s[i - 2].face));
        }
    }
}

#[test]
fn scramble_of_no_moves_is_empty() {
    assert!(generate_scramble(0).is_empty());
    assert!(generate_scramble(-3).is_empty());
}

#[test]
fn invert_move_flips_the_direction() {
    let u = Move { face: Face::U, coeff: 1 };
    let f_prime = Move { face: Face::F, coeff: -1 };
    let d2 = Move { face: Face::D, coeff: 2 };
    assert_eq!(invert_move(u), Move { face: Face::U, coeff: -1 });
    assert_eq!(invert_move(f_prime), Move { face: Face::F, coeff: 1 });
    assert_eq!(invert_move(d2), d2);
}

#[test]
fn invert_path_reverses_and_inverts() {
    let path = vec![
        Move { face: Face::U, coeff: 1 },
        Move { face: Face::R, coeff: 2 },
        Move { face: Face::F, coeff: -1 },
    ];
    let inv = invert_path(&path);
    assert_eq!(inv.len(), 3);
    assert_eq!(inv[0], Move { face: Face::F, coeff: 1 });
    assert_eq!(inv[1], Move { face: Face::R, coeff: 2 });
    assert_eq!(inv[2], Move { face: Face::U, coeff: -1 });
}

#[test]
fn path_then_inverted_path_returns_to_start() {
    let path = vec![
        Move { face: Face::U, coeff: 1 },
        Move { face: Face::R, coeff: 2 },
        Move { face: Face::F, coeff: -1 },
        Move { face: Face::L, coeff: 1 },
        Move { face: Face::B, coeff: 2 },
        Move { face: Face::D, coeff: 1 },
    ];
    let mut cube = Cube::new();
    for &mv in &path {
        cube.make_move(mv);
    }
    assert!(!cube.is_solved());
    for &mv in &invert_path(&path) {
        cube.make_move(mv);
    }
    assert!(cube.is_solved());
}

#[test]
fn quarter_turns_cycle_back() {
    let mut cube = Cube::new();
    for _ in 0..4 {
        cube.make_move(Move { face: Face::R, coeff: 1 });
    }
    assert!(cube.is_solved());

    cube.make_move(Move { face: Face::F, coeff: 2 });
    assert!(!cube.is_solved());
    cube.make_move(Move { face: Face::F, coeff: 2 });
    assert!(cube.is_solved());

    cube.make_move(Move { face: Face::U, coeff: 1 });
    assert!(!cube.is_solved());
    cube.make_move(Move { face: Face::U, coeff: -1 });
    assert!(cube.is_solved());
}
