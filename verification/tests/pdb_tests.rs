use half_scramble::cube::{Cube, Face, Move};
use half_scramble::pdb::{encode_pieces, get_max_heuristic, PieceSet, PDB};

const CORNER_SIZE: usize = 88_179_840;
const EDGE_SIZE: usize = 5_160_960;

#[test]
fn pdb_new_rejects_wrong_size() {
    assert!(PDB::new(vec![0u8; 10], 0, 8, PieceSet::Corners, 3).is_none());
    assert!(PDB::new(vec![0u8; EDGE_SIZE], 0, 8, PieceSet::Corners, 3).is_none());
    assert!(PDB::new(vec![0u8; CORNER_SIZE + 1], 0, 8, PieceSet::Corners, 3).is_none());
    assert!(PDB::new(vec![0u8; CORNER_SIZE], 0, 8, PieceSet::Corners, 3).is_some());
    assert!(PDB::new(vec![0u8; EDGE_SIZE], 0, 8, PieceSet::Edges, 2).is_some());
    assert!(PDB::new(vec![0u8; EDGE_SIZE], 4, 12, PieceSet::Edges, 2).is_some());
}

#[test]
fn pdb_new_rejects_bad_projection() {
    // Window and base must match the piece group.
    assert!(PDB::new(vec![0u8; CORNER_SIZE], 0, 8, PieceSet::Corners, 2).is_none());
    assert!(PDB::new(vec![0u8; EDGE_SIZE], 0, 8, PieceSet::Edges, 3).is_none());
    assert!(PDB::new(vec![0u8; EDGE_SIZE], 2, 9, PieceSet::Edges, 2).is_none());
    assert!(PDB::new(vec![0u8; EDGE_SIZE], 5, 13, PieceSet::Edges, 2).is_none());
    assert!(PDB::new(vec![0u8; CORNER_SIZE], 1, 8, PieceSet::Corners, 3).is_none());
}

#[test]
fn heuristic_reads_the_projected_entry() {
    // Stamp a value at the index of a scrambled state's projection and see
    // the store hand it back for that cube, and zero for the solved cube.
    let mut cube = Cube::new();
    cube.make_move(Move { face: Face::R, coeff: 1 });
    cube.make_move(Move { face: Face::U, coeff: -1 });

    let idx = encode_pieces(&cube.corners, 3, 0, 8);
    let mut data = vec![0u8; CORNER_SIZE];
    data[idx] = 7;
    let pdb = PDB::new(data, 0, 8, PieceSet::Corners, 3).unwrap();
    assert_eq!(pdb.get_heuristic(&cube), 7);
    assert_eq!(pdb.get_heuristic(&Cube::new()), 0);
}

#[test]
fn max_heuristic_takes_the_largest() {
    let mut cube = Cube::new();
    cube.make_move(Move { face: Face::F, coeff: 2 });

    let c_idx = encode_pieces(&cube.corners, 3, 0, 8);
    let e1_idx = encode_pieces(&cube.edges, 2, 0, 8);
    let e2_idx = encode_pieces(&cube.edges, 2, 4, 12);

    let mut c_data = vec![0u8; CORNER_SIZE];
    c_data[c_idx] = 3;
    let mut e1_data = vec![0u8; EDGE_SIZE];
    e1_data[e1_idx] = 9;
    let mut e2_data = vec![0u8; EDGE_SIZE];
    e2_data[e2_idx] = 5;

    let pdbs = [
        PDB::new(c_data, 0, 8, PieceSet::Corners, 3).unwrap(),
        PDB::new(e1_data, 0, 8, PieceSet::Edges, 2).unwrap(),
        PDB::new(e2_data, 4, 12, PieceSet::Edges, 2).unwrap(),
    ];
    assert_eq!(get_max_heuristic(&cube, &pdbs), 9);
    assert_eq!(get_max_heuristic(&Cube::new(), &pdbs), 0);
}
