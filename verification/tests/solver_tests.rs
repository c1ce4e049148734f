use std::collections::VecDeque;

use half_scramble::cube::{nth_move, Cube, Face, Move};
use half_scramble::pdb::{encode_pieces, get_max_heuristic, PieceSet, PDB};
use half_scramble::solver::solve;

const CORNER_SIZE: usize = 88_179_840;
const EDGE_SIZE: usize = 5_160_960;

/// Exact projected distances up to this depth; everything farther holds
/// `DEPTH_CAP + 1`, still a lower bound on the true distance, so the table
/// is admissible and the searches under test stay quick.
const DEPTH_CAP: u8 = 4;

fn encode_for(cube: &Cube, selector: PieceSet, lo: usize, hi: usize, base: usize) -> usize {
    match selector {
        PieceSet::Corners => encode_pieces(&cube.corners, base, lo, hi),
        PieceSet::Edges => encode_pieces(&cube.edges, base, lo, hi),
    }
}

fn partial_table(selector: PieceSet, lo: usize, hi: usize, base: usize, size: usize) -> Vec<u8> {
    let mut table = vec![DEPTH_CAP + 1; size];
    let solved = Cube::new();
    table[encode_for(&solved, selector, lo, hi, base)] = 0;
    let mut queue = VecDeque::new();
    queue.push_back(solved);
    while let Some(node) = queue.pop_front() {
        let depth = table[encode_for(&node, selector, lo, hi, base)];
        if depth >= DEPTH_CAP {
            continue;
        }
        for mi in 0..18 {
            let mv = nth_move(mi);
            let mut child = node;
            child.make_move(mv);
            let idx = encode_for(&child, selector, lo, hi, base);
            if table[idx] > depth + 1 {
                table[idx] = depth + 1;
                queue.push_back(child);
            }
        }
    }
    table
}

fn make_pdbs() -> [PDB; 3] {
    [
        PDB::new(
            partial_table(PieceSet::Corners, 0, 8, 3, CORNER_SIZE),
            0,
            8,
            PieceSet::Corners,
            3,
        )
        .unwrap(),
        PDB::new(partial_table(PieceSet::Edges, 0, 8, 2, EDGE_SIZE), 0, 8, PieceSet::Edges, 2)
            .unwrap(),
        PDB::new(partial_table(PieceSet::Edges, 4, 12, 2, EDGE_SIZE), 4, 12, PieceSet::Edges, 2)
            .unwrap(),
    ]
}

fn apply_all(cube: &mut Cube, path: &[Move]) {
    for &mv in path {
        cube.make_move(mv);
    }
}

fn check_canonical(path: &[Move]) {
    let opposite = |f: Face| match f {
        Face::U => Face::D,
        Face::R => Face::L,
        Face::F => Face::B,
        Face::L => Face::R,
        Face::B => Face::F,
        Face::D => Face::U,
    };
    for w in path.windows(2) {
        assert_ne!(w[1].face, w[0].face);
        assert_ne!(w[1].face, opposite(w[0].face));
    }
}

#[test]
fn solved_cube_gives_empty_path() {
    let pdbs = make_pdbs();
    let cube = Cube::new();
    let path = solve(&cube, Move { face: Face::U, coeff: 1 }, &pdbs, 0).unwrap();
    assert!(path.is_empty());
}

#[test]
fn heuristic_is_zero_at_solved() {
    let pdbs = make_pdbs();
    assert_eq!(get_max_heuristic(&Cube::new(), &pdbs), 0);
}

#[test]
fn heuristic_is_admissible_along_scrambles() {
    // Each cube reached from solved in d moves gets a heuristic of at
    // most d.
    let pdbs = make_pdbs();
    let scrambles: [&[(Face, i32)]; 3] = [
        &[(Face::R, 1), (Face::U, 1)],
        &[(Face::R, 1), (Face::U, 1), (Face::R, -1), (Face::U, -1)],
        &[(Face::F, 2), (Face::U, 1), (Face::R, 2), (Face::B, 2)],
    ];
    for moves in scrambles {
        let mut cube = Cube::new();
        for &(face, coeff) in moves {
            cube.make_move(Move { face, coeff });
        }
        assert!(get_max_heuristic(&cube, &pdbs) <= moves.len() as i32);
    }
}

#[test]
fn heuristic_bounds_after_four_moves() {
    // R U R' U' does not solve the cube; its heuristic lies in 2..=4.
    let pdbs = make_pdbs();
    let mut cube = Cube::new();
    for &(face, coeff) in &[(Face::R, 1), (Face::U, 1), (Face::R, -1), (Face::U, -1)] {
        cube.make_move(Move { face, coeff });
    }
    assert!(!cube.is_solved());
    let h = get_max_heuristic(&cube, &pdbs);
    assert!(2 <= h && h <= 4, "heuristic {} out of the expected band", h);
}

#[test]
fn solve_rebuilds_a_half_turn() {
    // Scramble F2: the inverse scramble F2 is forbidden as the first move,
    // so the solver must rebuild the position through other moves.
    let pdbs = make_pdbs();
    let f2 = Move { face: Face::F, coeff: 2 };
    let mut cube = Cube::new();
    cube.make_move(f2);

    let path = solve(&cube, f2, &pdbs, 1).unwrap();
    assert!(path.len() >= 1);
    assert_ne!(path[0], f2);
    check_canonical(&path);

    let mut check = cube;
    apply_all(&mut check, &path);
    assert!(check.is_solved());
}

#[test]
fn solve_four_move_scramble() {
    // Scramble F2 U R2 B2. The one four-move solution, B2 R2 U' F2, starts
    // with the forbidden B2, and the move-pruning rules leave no
    // replacement shorter than ten moves (exhausting all canonical words of
    // lengths 4 and below finds none, and the iterative deepening passes
    // through every length on its way up), so the solver returns the
    // ten-move rebuild.
    let pdbs = make_pdbs();
    let scramble = [
        Move { face: Face::F, coeff: 2 },
        Move { face: Face::U, coeff: 1 },
        Move { face: Face::R, coeff: 2 },
        Move { face: Face::B, coeff: 2 },
    ];
    let mut cube = Cube::new();
    apply_all(&mut cube, &scramble);

    let b2 = Move { face: Face::B, coeff: 2 };
    let path = solve(&cube, b2, &pdbs, 4).unwrap();
    assert!(path.len() >= 4);
    assert_eq!(path.len(), 10);
    assert_ne!(path[0], b2);
    check_canonical(&path);

    let mut check = cube;
    apply_all(&mut check, &path);
    assert!(check.is_solved());
}

#[test]
fn solve_is_deterministic() {
    let pdbs = make_pdbs();
    let scramble = [
        Move { face: Face::F, coeff: 2 },
        Move { face: Face::U, coeff: 1 },
        Move { face: Face::R, coeff: 2 },
        Move { face: Face::B, coeff: 2 },
    ];
    let mut cube = Cube::new();
    apply_all(&mut cube, &scramble);

    let b2 = Move { face: Face::B, coeff: 2 };
    let first = solve(&cube, b2, &pdbs, 4).unwrap();
    let second = solve(&cube, b2, &pdbs, 4).unwrap();
    assert_eq!(first, second);
}
