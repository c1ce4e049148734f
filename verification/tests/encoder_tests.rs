use half_scramble::cube::{Cube, Face, Move};
use half_scramble::pdb::{decode_pieces, encode_pieces};

#[test]
fn solved_projection_encodes_to_zero() {
    let cube = Cube::new();
    assert_eq!(encode_pieces(&cube.corners, 3, 0, 8), 0);
    assert_eq!(encode_pieces(&cube.edges, 2, 0, 8), 0);
    assert_eq!(encode_pieces(&cube.edges, 2, 4, 12), 0);
}

#[test]
fn encoder_round_trip_along_scramble() {
    // Apply U R2 F' L B2 D; after each prefix the corner projection encodes
    // to a distinct value, and decoding reproduces the piece group exactly.
    let moves = vec![
        Move { face: Face::U, coeff: 1 },
        Move { face: Face::R, coeff: 2 },
        Move { face: Face::F, coeff: -1 },
        Move { face: Face::L, coeff: 1 },
        Move { face: Face::B, coeff: 2 },
        Move { face: Face::D, coeff: 1 },
    ];
    let mut cube = Cube::new();
    let mut codes: Vec<usize> = Vec::new();
    for mv in moves {
        cube.make_move(mv);
        let code = encode_pieces(&cube.corners, 3, 0, 8);
        assert!(code < 88_179_840);
        codes.push(code);

        let decoded = decode_pieces(code, 3);
        assert_eq!(decoded.len(), 8);
        for i in 0..8 {
            assert_eq!(decoded[i].pos, cube.corners[i].pos);
            assert_eq!(decoded[i].ori, cube.corners[i].ori);
        }
    }
    for i in 0..codes.len() {
        for j in 0..i {
            assert_ne!(codes[i], codes[j]);
        }
    }
}

#[test]
fn decode_then_encode_is_identity() {
    for &code in &[0usize, 1, 2186, 2187, 123_456, 40_319 * 2187, 88_179_839] {
        let pieces = decode_pieces(code, 3);
        assert_eq!(encode_pieces(&pieces, 3, 0, 8), code);
        // The decoded positions are a permutation of 0..8 and the
        // orientation sum keeps the parity invariant.
        let mut seen = [false; 8];
        let mut ori_sum = 0;
        for p in &pieces {
            assert!(0 <= p.pos && p.pos < 8);
            assert!(!seen[p.pos as usize]);
            seen[p.pos as usize] = true;
            assert!(0 <= p.ori && p.ori < 3);
            ori_sum += p.ori;
        }
        assert_eq!(ori_sum % 3, 0);
    }
    for &code in &[0usize, 1, 127, 128, 99_999, 5_160_959] {
        let pieces = decode_pieces(code, 2);
        assert_eq!(encode_pieces(&pieces, 2, 0, 8), code);
        let mut ori_sum = 0;
        for p in &pieces {
            ori_sum += p.ori;
        }
        assert_eq!(ori_sum % 2, 0);
    }
}

#[test]
fn encoding_separates_projections() {
    // One quarter turn moves pieces inside each window, so each projection
    // encodes away from zero.
    let mut cube = Cube::new();
    cube.make_move(Move { face: Face::F, coeff: 1 });
    assert_ne!(encode_pieces(&cube.corners, 3, 0, 8), 0);
    assert_ne!(encode_pieces(&cube.edges, 2, 0, 8), 0);
    assert_ne!(encode_pieces(&cube.edges, 2, 4, 12), 0);
}

#[test]
fn rendering_shows_solid_faces_when_solved() {
    let state = half_scramble::render::fill_state(&Cube::new());
    let centers = ['W', 'R', 'G', 'O', 'B', 'Y'];
    for f in 0..6 {
        for r in 0..3 {
            for c in 0..3 {
                assert_eq!(state[f][r][c], centers[f]);
            }
        }
    }
}

#[test]
fn rendering_moves_stickers_with_a_turn() {
    let mut cube = Cube::new();
    cube.make_move(Move { face: Face::U, coeff: 1 });
    let state = half_scramble::render::fill_state(&cube);
    // The top face stays solid under a U turn; its side rows rotate.
    for r in 0..3 {
        for c in 0..3 {
            assert_eq!(state[0][r][c], 'W');
        }
    }
    // The front top row now shows the old right-face colour.
    assert_eq!(state[2][0][1], 'R');
}
