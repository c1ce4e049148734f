//! Scramble generation and path inversion.
//!
//! A scramble is a random move sequence in which no move repeats the face of
//! the move before it, and no move both opposes the previous move's face and
//! repeats the face two moves back (which would let three moves collapse
//! into fewer).

use vstd::prelude::*;

use crate::cube::{
    lemma_apply_path_concat, lemma_move_wf, lemma_quarter_four, lemma_quarter_inverse,
    opposite_spec, solved_cube, CubeV, Face, Move,
};
use crate::solver::nth_face_spec;

verus! {

/// The source of randomness for scrambles.
#[verifier::external_type_specification]
#[verifier::external_body]
pub struct ExThreadRng(rand::rngs::ThreadRng);

/// Relies on rand::rng: a handle to the thread-local generator.
#[verifier::external_body]
fn new_rng() -> rand::rngs::ThreadRng {
    rand::rng()
}

/// Relies on rand::Rng::random_range: a sample from `0..n` lies below `n`
/// (the method panics only on an empty range).
#[verifier::external_body]
fn random_below(rng: &mut rand::rngs::ThreadRng, n: usize) -> (r: usize)
    requires
        n > 0,
    ensures
        r < n,
{
    rand::Rng::random_range(rng, 0..n)
}

/// The face `f` may stand at position `i` of a scramble whose two previous
/// faces are `prev` (position `i - 1`) and `prev2` (position `i - 2`); the
/// options are `None` at the start of the scramble.
pub open spec fn scramble_face_ok(f: Face, prev: Option<Face>, prev2: Option<Face>) -> bool {
    &&& (prev matches Some(p) ==> f != p)
    &&& !(prev matches Some(p) && prev2 matches Some(q) && f == opposite_spec(p) && f == q)
}

/// A scramble never repeats a face and never opposes the previous face while
/// repeating the face two moves back.
pub open spec fn scramble_wf(s: Seq<Move>) -> bool {
    &&& forall|i: int| 0 <= i < s.len() ==> (#[trigger] s[i]).wf()
    &&& forall|i: int| 0 <= i && i + 1 < s.len() ==> (#[trigger] s[i + 1]).face != s[i].face
    &&& forall|i: int|
        0 <= i && i + 2 < s.len() ==> !((#[trigger] s[i + 2]).face == opposite_spec(s[i + 1].face)
            && s[i + 2].face == s[i].face)
}

/// Returns the faces allowed after the given previous two faces, in the
/// fixed face order; at least four of the six faces always qualify.
fn allowed_faces(prev: Option<Face>, prev2: Option<Face>) -> (fs: Vec<Face>)
    ensures
        fs@.len() > 0,
        forall|k: int| 0 <= k < fs@.len() ==> scramble_face_ok(#[trigger] fs@[k], prev, prev2),
{
    let mut fs: Vec<Face> = Vec::new();
    let mut fi: usize = 0;
    while fi < 6
        invariant
            fi <= 6,
            forall|k: int| 0 <= k < fs@.len() ==> scramble_face_ok(#[trigger] fs@[k], prev, prev2),
            forall|j: int|
                0 <= j < fi && scramble_face_ok(nth_face_spec(j), prev, prev2) ==> fs@.contains(
                    #[trigger] nth_face_spec(j),
                ),
        decreases 6 - fi,
    {
        let f = match fi {
            0 => Face::U,
            1 => Face::R,
            2 => Face::F,
            3 => Face::L,
            4 => Face::B,
            _ => Face::D,
        };
        let mut ok = true;
        match prev {
            Some(p) => {
                if f == p {
                    ok = false;
                }
                match prev2 {
                    Some(q) => {
                        let opp_p = crate::cube::opposite_face(p);
                        if f == opp_p && f == q {
                            ok = false;
                        }
                    },
                    None => {},
                }
            },
            None => {},
        }
        let ghost fs_old = fs@;
        if ok {
            fs.push(f);
        }
        proof {
            assert forall|j: int|
                0 <= j < fi + 1 && scramble_face_ok(nth_face_spec(j), prev, prev2) implies fs@.contains(
                #[trigger] nth_face_spec(j),
            ) by {
                if j < fi {
                    assert(fs_old.contains(nth_face_spec(j)));
                    let k = choose|k: int| 0 <= k < fs_old.len() && fs_old[k] == nth_face_spec(j);
                    assert(fs@[k] == nth_face_spec(j));
                } else {
                    assert(fs@[fs@.len() - 1] == f);
                }
            }
        }
        fi = fi + 1;
    }
    proof {
        // At most two faces are barred, so one of the first three qualifies.
        if scramble_face_ok(nth_face_spec(0), prev, prev2) {
            assert(fs@.contains(nth_face_spec(0)));
        } else if scramble_face_ok(nth_face_spec(1), prev, prev2) {
            assert(fs@.contains(nth_face_spec(1)));
        } else {
            assert(scramble_face_ok(nth_face_spec(2), prev, prev2));
            assert(fs@.contains(nth_face_spec(2)));
        }
    }
    fs
}

/// Generates a random scramble of `len` moves (none for `len <= 0`): each
/// move is drawn uniformly among the moves the scramble rules allow there.
pub fn generate_scramble(len: i32) -> (s: Vec<Move>)
    ensures
        s@.len() == (if len <= 0 {
            0int
        } else {
            len as int
        }),
        scramble_wf(s@),
{
    let mut rng = new_rng();

    let mut scramble: Vec<Move> = Vec::new();
    if len <= 0 {
        return scramble;
    }
    let n = len as usize;
    let mut i: usize = 0;
    while i < n
        invariant
            i <= n,
            scramble@.len() == i,
            scramble_wf(scramble@),
        decreases n - i,
    {
        let prev: Option<Face> = if i >= 1 {
            Some(scramble[i - 1].face)
        } else {
            None
        };
        let prev2: Option<Face> = if i >= 2 {
            Some(scramble[i - 2].face)
        } else {
            None
        };
        let faces = allowed_faces(prev, prev2);
        let fk = random_below(&mut rng, faces.len());
        let face = faces[fk];
        let ck = random_below(&mut rng, 3);
        let coeff: i32 = if ck == 0 {
            -1
        } else if ck == 1 {
            1
        } else {
            2
        };
        let mv = Move { face, coeff };
        let ghost before = scramble@;
        scramble.push(mv);
        proof {
            assert forall|j: int|
                0 <= j && j + 1 < scramble@.len() implies (#[trigger] scramble@[j + 1]).face
                != scramble@[j].face by {
                if j + 2 < scramble@.len() {
                    assert(scramble@[j] == before[j]);
                    assert(scramble@[j + 1] == before[j + 1]);
                } else {
                    assert(scramble@[j] == before[j]);
                    assert(scramble@[j + 1] == mv);
                }
            }
            assert forall|j: int|
                0 <= j && j + 2 < scramble@.len() implies !((#[trigger] scramble@[j + 2]).face
                == opposite_spec(scramble@[j + 1].face) && scramble@[j + 2].face
                == scramble@[j].face) by {
                if j + 3 < scramble@.len() {
                    assert(scramble@[j] == before[j]);
                    assert(scramble@[j + 1] == before[j + 1]);
                    assert(scramble@[j + 2] == before[j + 2]);
                } else {
                    assert(scramble@[j] == before[j]);
                    assert(scramble@[j + 1] == before[j + 1]);
                    assert(scramble@[j + 2] == mv);
                }
            }
        }
        i = i + 1;
    }
    scramble
}

/// What inverting a move gives: the same face, the opposite direction (a
/// half turn is its own inverse).
pub open spec fn invert_move_spec(mv: Move) -> Move {
    Move {
        face: mv.face,
        coeff: if mv.coeff == 2 {
            mv.coeff
        } else {
            (-mv.coeff) as i32
        },
    }
}

/// Returns the inverse of a given move: turning the same face the other way
/// (a half turn stays a half turn).
pub fn invert_move(mv: Move) -> (r: Move)
    requires
        mv.wf(),
    ensures
        r == invert_move_spec(mv),
        r.wf(),
{
    Move {
        face: mv.face,
        coeff: if mv.coeff == 2 {
            2
        } else {
            -mv.coeff
        },
    }
}

/// Takes a path and returns the inverted path: each move inverted, in
/// reverse order, so that applying the path and then its inverse returns a
/// cube to its original state.
pub fn invert_path(path: &[Move]) -> (r: Vec<Move>)
    requires
        forall|i: int| 0 <= i < path@.len() ==> (#[trigger] path@[i]).wf(),
    ensures
        r@.len() == path@.len(),
        forall|i: int|
            0 <= i < r@.len() ==> #[trigger] r@[i] == invert_move_spec(
                path@[path@.len() - 1 - i],
            ),
        r@ == invert_path_spec(path@),
{
    let mut reversed_path: Vec<Move> = Vec::new();
    let n = path.len();
    let mut i: usize = 0;
    while i < n
        invariant
            i <= n,
            n == path@.len(),
            forall|k: int| 0 <= k < path@.len() ==> (#[trigger] path@[k]).wf(),
            reversed_path@.len() == i,
            forall|k: int|
                0 <= k < i ==> #[trigger] reversed_path@[k] == invert_move_spec(
                    path@[n - 1 - k],
                ),
        decreases n - i,
    {
        reversed_path.push(invert_move(path[n - 1 - i]));
        i = i + 1;
    }
    proof {
        assert(reversed_path@ =~= invert_path_spec(path@));
    }
    reversed_path
}


/// The inverted path: each move inverted, in reverse order.
pub open spec fn invert_path_spec(s: Seq<Move>) -> Seq<Move> {
    Seq::new(s.len(), |i: int| invert_move_spec(s[s.len() - 1 - i]))
}

/// Law: a move and then its inverse leave the cube unchanged.
pub proof fn lemma_move_then_inverse(v: CubeV, mv: Move)
    requires
        v.wf(),
        mv.wf(),
    ensures
        v.apply_move(mv).apply_move(invert_move_spec(mv)) == v,
{
    if mv.coeff == 2 {
        lemma_quarter_four(v, mv.face);
    } else {
        lemma_quarter_inverse(v, mv.face);
    }
}

/// Law: applying a path and then its inverted path returns the cube to its
/// original state.
pub proof fn lemma_path_then_inverse(v: CubeV, path: Seq<Move>)
    requires
        v.wf(),
        forall|i: int| 0 <= i < path.len() ==> (#[trigger] path[i]).wf(),
    ensures
        v.apply_path(path).apply_path(invert_path_spec(path)) == v,
    decreases path.len(),
{
    if path.len() == 0 {
        assert(v.apply_path(path) == v);
        assert(invert_path_spec(path) =~= Seq::<Move>::empty());
    } else {
        let m0 = path[0];
        let rest = path.skip(1);
        let w = v.apply_move(m0);
        lemma_move_wf(v, m0);
        lemma_path_then_inverse(w, rest);
        assert(invert_path_spec(path) =~= invert_path_spec(rest) + seq![invert_move_spec(m0)]);
        lemma_apply_path_concat(
            w.apply_path(rest),
            invert_path_spec(rest),
            seq![invert_move_spec(m0)],
        );
        let one = seq![invert_move_spec(m0)];
        assert(one.skip(1) =~= Seq::<Move>::empty());
        assert(one[0] == invert_move_spec(m0));
        assert(w.apply_path(one) == w.apply_move(one[0]).apply_path(one.skip(1)));
        assert(w.apply_move(invert_move_spec(m0)).apply_path(Seq::<Move>::empty())
            == w.apply_move(invert_move_spec(m0)));
        lemma_move_then_inverse(v, m0);
    }
}

/// Law: the inverse of a solution is an alternative scramble — a path that
/// carries a cube to the solved state is, inverted, a path from the solved
/// cube back to that cube.
pub proof fn lemma_inverse_solution_is_scramble(cube: CubeV, path: Seq<Move>)
    requires
        cube.wf(),
        forall|i: int| 0 <= i < path.len() ==> (#[trigger] path[i]).wf(),
        cube.apply_path(path).is_solved(),
    ensures
        solved_cube().apply_path(invert_path_spec(path)) == cube,
{
    lemma_path_then_inverse(cube, path);
    let end = cube.apply_path(path);
    assert forall|i: int| 0 <= i < 8 implies end.corners[i] == solved_cube().corners[i] by {
        assert(end.corners[i].pos == i && end.corners[i].ori == 0);
    }
    assert forall|i: int| 0 <= i < 12 implies end.edges[i] == solved_cube().edges[i] by {
        assert(end.edges[i].pos == i && end.edges[i].ori == 0);
    }
    assert(end.corners =~= solved_cube().corners);
    assert(end.edges =~= solved_cube().edges);
    assert(end =~= solved_cube());
}

} // verus!
