//! The cube model: pieces, faces, moves, and move application.
//!
//! A cube is two groups of pieces: 8 corners and 12 edges. Each piece records
//! the position it currently sits in and its orientation (base 3 for corners,
//! base 2 for edges). A move is a face together with a coefficient: `-1` for a
//! counter-clockwise quarter turn, `1` for a clockwise quarter turn, `2` for a
//! half turn. Each quarter turn cycles four positions of each group and adds a
//! fixed orientation delta that depends only on the face and the position a
//! piece sits in, so a move acts on every piece independently.

use vstd::prelude::*;

verus! {

/// One of the six faces of the cube: up, right, front, left, back, down.
#[derive(Clone, Copy, PartialEq, Eq, Structural, Debug)]
pub enum Face {
    U,
    R,
    F,
    L,
    B,
    D,
}

/// A single face turn: the face and a coefficient in `{-1, 1, 2}`
/// (counter-clockwise quarter, clockwise quarter, half turn).
#[derive(Clone, Copy, PartialEq, Eq, Structural, Debug)]
pub struct Move {
    pub face: Face,
    pub coeff: i32,
}

impl Move {
    /// A legal move has coefficient -1, 1 or 2.
    pub open spec fn wf(self) -> bool {
        self.coeff == -1 || self.coeff == 1 || self.coeff == 2
    }
}

/// One piece of the cube: the position it sits in and its orientation.
#[derive(Clone, Copy, PartialEq, Eq, Structural, Debug)]
pub struct Piece {
    pub pos: i32,
    pub ori: i32,
}

/// The whole cube: 8 corner pieces and 12 edge pieces.
#[derive(Clone, Copy)]
pub struct Cube {
    pub corners: [Piece; 8],
    pub edges: [Piece; 12],
}

/// The mathematical model of a cube: the two piece groups as sequences.
pub struct CubeV {
    pub corners: Seq<Piece>,
    pub edges: Seq<Piece>,
}

impl View for Cube {
    type V = CubeV;

    open spec fn view(&self) -> CubeV {
        CubeV { corners: self.corners@, edges: self.edges@ }
    }
}

/// Some piece of the group sits at position `p`.
pub open spec fn contains_pos(s: Seq<Piece>, p: int) -> bool {
    exists|i: int| 0 <= i < s.len() && (#[trigger] s[i].pos) == p
}

/// A well-formed piece group of `n` pieces with orientations below `base`:
/// the positions are a permutation of `[0, n)`.
pub open spec fn pieces_wf(s: Seq<Piece>, n: int, base: int) -> bool {
    &&& s.len() == n
    &&& forall|i: int|
        0 <= i < n ==> 0 <= (#[trigger] s[i]).pos < n && 0 <= s[i].ori < base
    &&& forall|i: int, j: int| 0 <= i < j < n ==> s[i].pos != s[j].pos
    &&& forall|p: int| 0 <= p < n ==> #[trigger] contains_pos(s, p)
}

impl CubeV {
    /// Cube invariant: each group's positions are a permutation of its index
    /// range and each orientation is below the group's base.
    pub open spec fn wf(self) -> bool {
        pieces_wf(self.corners, 8, 3) && pieces_wf(self.edges, 12, 2)
    }

    /// The cube after one quarter turn of `face` (`cw` picks the direction).
    pub open spec fn quarter(self, face: Face, cw: bool) -> CubeV {
        CubeV {
            corners: Seq::new(8, |i: int| corner_after_quarter(self.corners[i], face, cw)),
            edges: Seq::new(12, |i: int| edge_after_quarter(self.edges[i], face, cw)),
        }
    }

    /// The cube after one move: a quarter turn either way, or two clockwise
    /// quarter turns for a half turn.
    pub open spec fn apply_move(self, mv: Move) -> CubeV {
        if mv.coeff == -1 {
            self.quarter(mv.face, false)
        } else if mv.coeff == 1 {
            self.quarter(mv.face, true)
        } else {
            self.quarter(mv.face, true).quarter(mv.face, true)
        }
    }

    /// The cube after a whole sequence of moves, applied left to right.
    pub open spec fn apply_path(self, path: Seq<Move>) -> CubeV
        decreases path.len(),
    {
        if path.len() == 0 {
            self
        } else {
            self.apply_move(path[0]).apply_path(path.skip(1))
        }
    }

    /// A cube is solved when every piece sits at the position of its own
    /// index with orientation 0.
    pub open spec fn is_solved(self) -> bool {
        &&& self.corners.len() == 8
        &&& self.edges.len() == 12
        &&& forall|i: int|
            0 <= i < 8 ==> (#[trigger] self.corners[i]).pos == i && self.corners[i].ori == 0
        &&& forall|i: int|
            0 <= i < 12 ==> (#[trigger] self.edges[i]).pos == i && self.edges[i].ori == 0
    }
}

/// The face on the opposite side of the cube.
pub open spec fn opposite_spec(f: Face) -> Face {
    match f {
        Face::U => Face::D,
        Face::R => Face::L,
        Face::F => Face::B,
        Face::L => Face::R,
        Face::B => Face::F,
        Face::D => Face::U,
    }
}

/// Returns the face on the opposite side of the cube (`U`/`D`, `R`/`L`, `F`/`B`).
pub fn opposite_face(f: Face) -> (r: Face)
    ensures
        r == opposite_spec(f),
{
    match f {
        Face::U => Face::D,
        Face::R => Face::L,
        Face::F => Face::B,
        Face::L => Face::R,
        Face::B => Face::F,
        Face::D => Face::U,
    }
}

/// The `i`-th of the 18 legal moves, face-major in the order
/// `U F R L B D` with coefficients `-1, 1, 2`.
pub open spec fn nth_move_spec(i: int) -> Move {
    Move {
        face: if i / 3 == 0 {
            Face::U
        } else if i / 3 == 1 {
            Face::F
        } else if i / 3 == 2 {
            Face::R
        } else if i / 3 == 3 {
            Face::L
        } else if i / 3 == 4 {
            Face::B
        } else {
            Face::D
        },
        coeff: if i % 3 == 0 {
            (-1) as i32
        } else if i % 3 == 1 {
            1 as i32
        } else {
            2 as i32
        },
    }
}

/// Returns the `i`-th of the 18 legal moves.
pub fn nth_move(i: usize) -> (m: Move)
    requires
        i < 18,
    ensures
        m == nth_move_spec(i as int),
        m.wf(),
{
    let face = match i / 3 {
        0 => Face::U,
        1 => Face::F,
        2 => Face::R,
        3 => Face::L,
        4 => Face::B,
        _ => Face::D,
    };
    let coeff: i32 = match i % 3 {
        0 => -1,
        1 => 1,
        _ => 2,
    };
    Move { face, coeff }
}

/// Every legal move stands somewhere in the list of 18.
pub proof fn lemma_moves_covered(m: Move)
    requires
        m.wf(),
    ensures
        exists|i: int| 0 <= i < 18 && nth_move_spec(i) == m,
{
    let fi: int = match m.face {
        Face::U => 0,
        Face::F => 1,
        Face::R => 2,
        Face::L => 3,
        Face::B => 4,
        Face::D => 5,
    };
    let ci: int = if m.coeff == -1 {
        0
    } else if m.coeff == 1 {
        1
    } else {
        2
    };
    let i = fi * 3 + ci;
    assert(i / 3 == fi && i % 3 == ci) by (nonlinear_arith)
        requires 0 <= fi < 6, 0 <= ci < 3, i == fi * 3 + ci;
    assert(nth_move_spec(i) == m);
}

/// Where a clockwise quarter turn of `face` sends a corner sitting at
/// position `p`. Each face cycles four corner positions.
pub open spec fn corner_next(face: Face, p: int) -> int {
    match face {
        Face::U => if p == 1 { 5 } else if p == 5 { 4 } else if p == 4 { 0 } else if p == 0 { 1 } else { p },
        Face::R => if p == 0 { 4 } else if p == 4 { 7 } else if p == 7 { 3 } else if p == 3 { 0 } else { p },
        Face::F => if p == 0 { 3 } else if p == 3 { 2 } else if p == 2 { 1 } else if p == 1 { 0 } else { p },
        Face::L => if p == 1 { 2 } else if p == 2 { 6 } else if p == 6 { 5 } else if p == 5 { 1 } else { p },
        Face::B => if p == 4 { 5 } else if p == 5 { 6 } else if p == 6 { 7 } else if p == 7 { 4 } else { p },
        Face::D => if p == 2 { 3 } else if p == 3 { 7 } else if p == 7 { 6 } else if p == 6 { 2 } else { p },
    }
}

/// Where a counter-clockwise quarter turn of `face` sends a corner sitting at
/// position `p`: the inverse cycle of [`corner_next`].
pub open spec fn corner_prev(face: Face, p: int) -> int {
    match face {
        Face::U => if p == 5 { 1 } else if p == 4 { 5 } else if p == 0 { 4 } else if p == 1 { 0 } else { p },
        Face::R => if p == 4 { 0 } else if p == 7 { 4 } else if p == 3 { 7 } else if p == 0 { 3 } else { p },
        Face::F => if p == 3 { 0 } else if p == 2 { 3 } else if p == 1 { 2 } else if p == 0 { 1 } else { p },
        Face::L => if p == 2 { 1 } else if p == 6 { 2 } else if p == 5 { 6 } else if p == 1 { 5 } else { p },
        Face::B => if p == 5 { 4 } else if p == 6 { 5 } else if p == 7 { 6 } else if p == 4 { 7 } else { p },
        Face::D => if p == 3 { 2 } else if p == 7 { 3 } else if p == 6 { 7 } else if p == 2 { 6 } else { p },
    }
}

/// Where a clockwise quarter turn of `face` sends an edge sitting at
/// position `p`.
pub open spec fn edge_next(face: Face, p: int) -> int {
    match face {
        Face::U => if p == 3 { 2 } else if p == 2 { 1 } else if p == 1 { 0 } else if p == 0 { 3 } else { p },
        Face::R => if p == 1 { 5 } else if p == 5 { 9 } else if p == 9 { 4 } else if p == 4 { 1 } else { p },
        Face::F => if p == 0 { 4 } else if p == 4 { 8 } else if p == 8 { 7 } else if p == 7 { 0 } else { p },
        Face::L => if p == 3 { 7 } else if p == 7 { 11 } else if p == 11 { 6 } else if p == 6 { 3 } else { p },
        Face::B => if p == 2 { 6 } else if p == 6 { 10 } else if p == 10 { 5 } else if p == 5 { 2 } else { p },
        Face::D => if p == 8 { 9 } else if p == 9 { 10 } else if p == 10 { 11 } else if p == 11 { 8 } else { p },
    }
}

/// Where a counter-clockwise quarter turn of `face` sends an edge sitting at
/// position `p`: the inverse cycle of [`edge_next`].
pub open spec fn edge_prev(face: Face, p: int) -> int {
    match face {
        Face::U => if p == 2 { 3 } else if p == 1 { 2 } else if p == 0 { 1 } else if p == 3 { 0 } else { p },
        Face::R => if p == 5 { 1 } else if p == 9 { 5 } else if p == 4 { 9 } else if p == 1 { 4 } else { p },
        Face::F => if p == 4 { 0 } else if p == 8 { 4 } else if p == 7 { 8 } else if p == 0 { 7 } else { p },
        Face::L => if p == 7 { 3 } else if p == 11 { 7 } else if p == 6 { 11 } else if p == 3 { 6 } else { p },
        Face::B => if p == 6 { 2 } else if p == 10 { 6 } else if p == 5 { 10 } else if p == 2 { 5 } else { p },
        Face::D => if p == 9 { 8 } else if p == 10 { 9 } else if p == 11 { 10 } else if p == 8 { 11 } else { p },
    }
}

/// The twist a quarter turn of `face` adds (mod 3) to the orientation of the
/// corner sitting at position `p`. The amount depends only on the face and
/// the position, not on the turn's direction.
pub open spec fn corner_twist(face: Face, p: int) -> int {
    match face {
        Face::U => 0,
        Face::D => 0,
        Face::F => if p == 0 || p == 2 { 1 } else if p == 1 || p == 3 { 2 } else { 0 },
        Face::L => if p == 1 || p == 6 { 1 } else if p == 2 || p == 5 { 2 } else { 0 },
        Face::R => if p == 0 || p == 7 { 2 } else if p == 3 || p == 4 { 1 } else { 0 },
        Face::B => if p == 4 || p == 6 { 2 } else if p == 5 || p == 7 { 1 } else { 0 },
    }
}

/// The flip a quarter turn of `face` adds (mod 2) to the orientation of the
/// edge sitting at position `p`: only `F` and `B` turns flip edges.
pub open spec fn edge_flip(face: Face, p: int) -> int {
    match face {
        Face::F => if p == 0 || p == 4 || p == 8 || p == 7 { 1 } else { 0 },
        Face::B => if p == 2 || p == 6 || p == 10 || p == 5 { 1 } else { 0 },
        _ => 0,
    }
}

/// How one quarter turn transforms a single corner piece.
pub open spec fn corner_after_quarter(p: Piece, face: Face, cw: bool) -> Piece {
    Piece {
        pos: (if cw { corner_next(face, p.pos as int) } else { corner_prev(face, p.pos as int) }) as i32,
        ori: ((p.ori + corner_twist(face, p.pos as int)) % 3) as i32,
    }
}

/// How one quarter turn transforms a single edge piece.
pub open spec fn edge_after_quarter(p: Piece, face: Face, cw: bool) -> Piece {
    Piece {
        pos: (if cw { edge_next(face, p.pos as int) } else { edge_prev(face, p.pos as int) }) as i32,
        ori: ((p.ori + edge_flip(face, p.pos as int)) % 2) as i32,
    }
}

/// The solved cube: piece `i` at position `i`, all orientations 0.
pub open spec fn solved_cube() -> CubeV {
    CubeV {
        corners: Seq::new(8, |i: int| Piece { pos: i as i32, ori: 0 }),
        edges: Seq::new(12, |i: int| Piece { pos: i as i32, ori: 0 }),
    }
}

/// Each quarter-turn cycle is a bijection on the positions of its group:
/// following it forward and then backward (or the other way round) is the
/// identity, and it never leaves the group's position range.
pub proof fn lemma_cycles_bijective(face: Face)
    ensures
        forall|p: int| 0 <= p < 8 ==> 0 <= #[trigger] corner_next(face, p) < 8,
        forall|p: int| 0 <= p < 8 ==> 0 <= #[trigger] corner_prev(face, p) < 8,
        forall|p: int| 0 <= p < 8 ==> corner_prev(face, #[trigger] corner_next(face, p)) == p,
        forall|p: int| 0 <= p < 8 ==> corner_next(face, #[trigger] corner_prev(face, p)) == p,
        forall|p: int| 0 <= p < 12 ==> 0 <= #[trigger] edge_next(face, p) < 12,
        forall|p: int| 0 <= p < 12 ==> 0 <= #[trigger] edge_prev(face, p) < 12,
        forall|p: int| 0 <= p < 12 ==> edge_prev(face, #[trigger] edge_next(face, p)) == p,
        forall|p: int| 0 <= p < 12 ==> edge_next(face, #[trigger] edge_prev(face, p)) == p,
{
}

/// One quarter turn keeps the cube invariant: positions stay a permutation
/// and orientations stay below their base.
pub proof fn lemma_quarter_wf(v: CubeV, face: Face, cw: bool)
    requires
        v.wf(),
    ensures
        v.quarter(face, cw).wf(),
{
    let w = v.quarter(face, cw);
    lemma_cycles_bijective(face);
    assert forall|i: int, j: int| 0 <= i < j < 8 implies w.corners[i].pos != w.corners[j].pos by {
        if w.corners[i].pos == w.corners[j].pos {
            assert(v.corners[i].pos == v.corners[j].pos);
        }
    }
    assert forall|i: int, j: int| 0 <= i < j < 12 implies w.edges[i].pos != w.edges[j].pos by {
        if w.edges[i].pos == w.edges[j].pos {
            assert(v.edges[i].pos == v.edges[j].pos);
        }
    }
    assert forall|p: int| 0 <= p < 8 implies #[trigger] contains_pos(w.corners, p) by {
        let q = if cw { corner_prev(face, p) } else { corner_next(face, p) };
        assert(contains_pos(v.corners, q));
        let i = choose|i: int| 0 <= i < v.corners.len() && (#[trigger] v.corners[i].pos) == q;
        assert(w.corners[i].pos == p);
    }
    assert forall|p: int| 0 <= p < 12 implies #[trigger] contains_pos(w.edges, p) by {
        let q = if cw { edge_prev(face, p) } else { edge_next(face, p) };
        assert(contains_pos(v.edges, q));
        let i = choose|i: int| 0 <= i < v.edges.len() && (#[trigger] v.edges[i].pos) == q;
        assert(w.edges[i].pos == p);
    }
}

/// Around any face's cycle, the corner twists of a position and its
/// successor cancel mod 3, and a full round of twists cancels too.
proof fn lemma_twists_cancel(face: Face)
    ensures
        forall|p: int|
            0 <= p < 8 ==> (corner_twist(face, p) + corner_twist(
                face,
                #[trigger] corner_next(face, p),
            )) % 3 == 0,
        forall|p: int|
            0 <= p < 12 ==> (edge_flip(face, p) + edge_flip(
                face,
                #[trigger] edge_next(face, p),
            )) % 2 == 0,
{
}

/// A clockwise quarter turn and a counter-clockwise quarter turn of the
/// same face undo each other.
pub proof fn lemma_quarter_inverse(v: CubeV, face: Face)
    requires
        v.wf(),
    ensures
        v.quarter(face, true).quarter(face, false) == v,
        v.quarter(face, false).quarter(face, true) == v,
{
    lemma_cycles_bijective(face);
    lemma_twists_cancel(face);
    let a = v.quarter(face, true).quarter(face, false);
    let b = v.quarter(face, false).quarter(face, true);
    assert forall|i: int| 0 <= i < 8 implies a.corners[i] == v.corners[i] && b.corners[i]
        == v.corners[i] by {
        let p = v.corners[i];
        assert(0 <= p.pos < 8 && 0 <= p.ori < 3);
        assert((corner_twist(face, p.pos as int) + corner_twist(
            face,
            corner_next(face, p.pos as int),
        )) % 3 == 0);
        assert((corner_twist(face, corner_prev(face, p.pos as int)) + corner_twist(
            face,
            p.pos as int,
        )) % 3 == 0) by {
            assert(corner_next(face, corner_prev(face, p.pos as int)) == p.pos as int);
        }
    }
    assert forall|i: int| 0 <= i < 12 implies a.edges[i] == v.edges[i] && b.edges[i]
        == v.edges[i] by {
        let p = v.edges[i];
        assert(0 <= p.pos < 12 && 0 <= p.ori < 2);
        assert((edge_flip(face, p.pos as int) + edge_flip(
            face,
            edge_next(face, p.pos as int),
        )) % 2 == 0);
        assert((edge_flip(face, edge_prev(face, p.pos as int)) + edge_flip(
            face,
            p.pos as int,
        )) % 2 == 0) by {
            assert(edge_next(face, edge_prev(face, p.pos as int)) == p.pos as int);
        }
    }
    assert(a.corners =~= v.corners);
    assert(a.edges =~= v.edges);
    assert(a =~= v);
    assert(b.corners =~= v.corners);
    assert(b.edges =~= v.edges);
    assert(b =~= v);
}

/// Four clockwise quarter turns of one face are the identity.
pub proof fn lemma_quarter_four(v: CubeV, face: Face)
    requires
        v.wf(),
    ensures
        v.quarter(face, true).quarter(face, true).quarter(face, true).quarter(face, true) == v,
{
    lemma_cycles_bijective(face);
    let a = v.quarter(face, true).quarter(face, true).quarter(face, true).quarter(face, true);
    assert forall|i: int| 0 <= i < 8 implies a.corners[i] == v.corners[i] by {
        let p = v.corners[i];
        assert(0 <= p.pos < 8 && 0 <= p.ori < 3);
        let p0 = p.pos as int;
        let p1 = corner_next(face, p0);
        let p2 = corner_next(face, p1);
        let p3 = corner_next(face, p2);
        assert(corner_next(face, p3) == p0);
        assert((corner_twist(face, p0) + corner_twist(face, p1) + corner_twist(face, p2)
            + corner_twist(face, p3)) % 3 == 0);
    }
    assert forall|i: int| 0 <= i < 12 implies a.edges[i] == v.edges[i] by {
        let p = v.edges[i];
        assert(0 <= p.pos < 12 && 0 <= p.ori < 2);
        let p0 = p.pos as int;
        let p1 = edge_next(face, p0);
        let p2 = edge_next(face, p1);
        let p3 = edge_next(face, p2);
        assert(edge_next(face, p3) == p0);
        assert((edge_flip(face, p0) + edge_flip(face, p1) + edge_flip(face, p2) + edge_flip(
            face,
            p3,
        )) % 2 == 0);
    }
    assert(a.corners =~= v.corners);
    assert(a.edges =~= v.edges);
    assert(a =~= v);
}

/// Applying a concatenation of paths applies the parts in order.
pub proof fn lemma_apply_path_concat(v: CubeV, s1: Seq<Move>, s2: Seq<Move>)
    ensures
        v.apply_path(s1 + s2) == v.apply_path(s1).apply_path(s2),
    decreases s1.len(),
{
    if s1.len() == 0 {
        assert(s1 + s2 =~= s2);
    } else {
        assert((s1 + s2)[0] == s1[0]);
        assert((s1 + s2).skip(1) =~= s1.skip(1) + s2);
        lemma_apply_path_concat(v.apply_move(s1[0]), s1.skip(1), s2);
    }
}

/// A whole move keeps the cube invariant.
pub proof fn lemma_move_wf(v: CubeV, mv: Move)
    requires
        v.wf(),
        mv.wf(),
    ensures
        v.apply_move(mv).wf(),
{
    if mv.coeff == 2 {
        lemma_quarter_wf(v, mv.face, true);
        lemma_quarter_wf(v.quarter(mv.face, true), mv.face, true);
    } else {
        lemma_quarter_wf(v, mv.face, mv.coeff == 1);
    }
}

/// A whole path of moves keeps the cube invariant.
pub proof fn lemma_path_wf(v: CubeV, path: Seq<Move>)
    requires
        v.wf(),
        forall|i: int| 0 <= i < path.len() ==> (#[trigger] path[i]).wf(),
    ensures
        v.apply_path(path).wf(),
    decreases path.len(),
{
    if path.len() > 0 {
        lemma_move_wf(v, path[0]);
        lemma_path_wf(v.apply_move(path[0]), path.skip(1));
    }
}

/// Applies one quarter turn to a corner piece.
fn corner_quarter_exec(p: Piece, face: Face, cw: bool) -> (r: Piece)
    requires
        0 <= p.pos < 8,
        0 <= p.ori < 3,
    ensures
        r == corner_after_quarter(p, face, cw),
{
    let pos = if cw {
        match face {
            Face::U => if p.pos == 1 { 5 } else if p.pos == 5 { 4 } else if p.pos == 4 { 0 } else if p.pos == 0 { 1 } else { p.pos },
            Face::R => if p.pos == 0 { 4 } else if p.pos == 4 { 7 } else if p.pos == 7 { 3 } else if p.pos == 3 { 0 } else { p.pos },
            Face::F => if p.pos == 0 { 3 } else if p.pos == 3 { 2 } else if p.pos == 2 { 1 } else if p.pos == 1 { 0 } else { p.pos },
            Face::L => if p.pos == 1 { 2 } else if p.pos == 2 { 6 } else if p.pos == 6 { 5 } else if p.pos == 5 { 1 } else { p.pos },
            Face::B => if p.pos == 4 { 5 } else if p.pos == 5 { 6 } else if p.pos == 6 { 7 } else if p.pos == 7 { 4 } else { p.pos },
            Face::D => if p.pos == 2 { 3 } else if p.pos == 3 { 7 } else if p.pos == 7 { 6 } else if p.pos == 6 { 2 } else { p.pos },
        }
    } else {
        match face {
            Face::U => if p.pos == 5 { 1 } else if p.pos == 4 { 5 } else if p.pos == 0 { 4 } else if p.pos == 1 { 0 } else { p.pos },
            Face::R => if p.pos == 4 { 0 } else if p.pos == 7 { 4 } else if p.pos == 3 { 7 } else if p.pos == 0 { 3 } else { p.pos },
            Face::F => if p.pos == 3 { 0 } else if p.pos == 2 { 3 } else if p.pos == 1 { 2 } else if p.pos == 0 { 1 } else { p.pos },
            Face::L => if p.pos == 2 { 1 } else if p.pos == 6 { 2 } else if p.pos == 5 { 6 } else if p.pos == 1 { 5 } else { p.pos },
            Face::B => if p.pos == 5 { 4 } else if p.pos == 6 { 5 } else if p.pos == 7 { 6 } else if p.pos == 4 { 7 } else { p.pos },
            Face::D => if p.pos == 3 { 2 } else if p.pos == 7 { 3 } else if p.pos == 6 { 7 } else if p.pos == 2 { 6 } else { p.pos },
        }
    };
    let twist = match face {
        Face::U => 0,
        Face::D => 0,
        Face::F => if p.pos == 0 || p.pos == 2 { 1 } else if p.pos == 1 || p.pos == 3 { 2 } else { 0 },
        Face::L => if p.pos == 1 || p.pos == 6 { 1 } else if p.pos == 2 || p.pos == 5 { 2 } else { 0 },
        Face::R => if p.pos == 0 || p.pos == 7 { 2 } else if p.pos == 3 || p.pos == 4 { 1 } else { 0 },
        Face::B => if p.pos == 4 || p.pos == 6 { 2 } else if p.pos == 5 || p.pos == 7 { 1 } else { 0 },
    };
    Piece { pos, ori: (p.ori + twist) % 3 }
}

/// Applies one quarter turn to an edge piece.
fn edge_quarter_exec(p: Piece, face: Face, cw: bool) -> (r: Piece)
    requires
        0 <= p.pos < 12,
        0 <= p.ori < 2,
    ensures
        r == edge_after_quarter(p, face, cw),
{
    let pos = if cw {
        match face {
            Face::U => if p.pos == 3 { 2 } else if p.pos == 2 { 1 } else if p.pos == 1 { 0 } else if p.pos == 0 { 3 } else { p.pos },
            Face::R => if p.pos == 1 { 5 } else if p.pos == 5 { 9 } else if p.pos == 9 { 4 } else if p.pos == 4 { 1 } else { p.pos },
            Face::F => if p.pos == 0 { 4 } else if p.pos == 4 { 8 } else if p.pos == 8 { 7 } else if p.pos == 7 { 0 } else { p.pos },
            Face::L => if p.pos == 3 { 7 } else if p.pos == 7 { 11 } else if p.pos == 11 { 6 } else if p.pos == 6 { 3 } else { p.pos },
            Face::B => if p.pos == 2 { 6 } else if p.pos == 6 { 10 } else if p.pos == 10 { 5 } else if p.pos == 5 { 2 } else { p.pos },
            Face::D => if p.pos == 8 { 9 } else if p.pos == 9 { 10 } else if p.pos == 10 { 11 } else if p.pos == 11 { 8 } else { p.pos },
        }
    } else {
        match face {
            Face::U => if p.pos == 2 { 3 } else if p.pos == 1 { 2 } else if p.pos == 0 { 1 } else if p.pos == 3 { 0 } else { p.pos },
            Face::R => if p.pos == 5 { 1 } else if p.pos == 9 { 5 } else if p.pos == 4 { 9 } else if p.pos == 1 { 4 } else { p.pos },
            Face::F => if p.pos == 4 { 0 } else if p.pos == 8 { 4 } else if p.pos == 7 { 8 } else if p.pos == 0 { 7 } else { p.pos },
            Face::L => if p.pos == 7 { 3 } else if p.pos == 11 { 7 } else if p.pos == 6 { 11 } else if p.pos == 3 { 6 } else { p.pos },
            Face::B => if p.pos == 6 { 2 } else if p.pos == 10 { 6 } else if p.pos == 5 { 10 } else if p.pos == 2 { 5 } else { p.pos },
            Face::D => if p.pos == 9 { 8 } else if p.pos == 10 { 9 } else if p.pos == 11 { 10 } else if p.pos == 8 { 11 } else { p.pos },
        }
    };
    let flip = match face {
        Face::F => if p.pos == 0 || p.pos == 4 || p.pos == 8 || p.pos == 7 { 1 } else { 0 },
        Face::B => if p.pos == 2 || p.pos == 6 || p.pos == 10 || p.pos == 5 { 1 } else { 0 },
        _ => 0,
    };
    Piece { pos, ori: (p.ori + flip) % 2 }
}

impl Cube {
    /// Shorthand for the invariant of the model.
    pub open spec fn wf(self) -> bool {
        self@.wf()
    }

    /// Turns `face` by a quarter, clockwise when `cw` is set.
    fn quarter_turn(&mut self, face: Face, cw: bool)
        requires
            old(self).wf(),
        ensures
            final(self)@ == old(self)@.quarter(face, cw),
            final(self).wf(),
    {
        let ghost v0 = self@;
        let mut i: usize = 0;
        while i < 8
            invariant
                i <= 8,
                self@.edges == v0.edges,
                v0.wf(),
                forall|j: int| 0 <= j < i ==> self.corners@[j] == v0.quarter(face, cw).corners[j],
                forall|j: int| i <= j < 8 ==> self.corners@[j] == v0.corners[j],
            decreases 8 - i,
        {
            proof {
                assert(self.corners@[i as int] == v0.corners[i as int]);
                assert(0 <= v0.corners[i as int].pos < 8 && 0 <= v0.corners[i as int].ori < 3);
            }
            self.corners[i] = corner_quarter_exec(self.corners[i], face, cw);
            i = i + 1;
        }
        let mut j: usize = 0;
        while j < 12
            invariant
                j <= 12,
                v0.wf(),
                self@.corners == v0.quarter(face, cw).corners,
                forall|k: int| 0 <= k < j ==> self.edges@[k] == v0.quarter(face, cw).edges[k],
                forall|k: int| j <= k < 12 ==> self.edges@[k] == v0.edges[k],
            decreases 12 - j,
        {
            proof {
                assert(self.edges@[j as int] == v0.edges[j as int]);
                assert(0 <= v0.edges[j as int].pos < 12 && 0 <= v0.edges[j as int].ori < 2);
            }
            self.edges[j] = edge_quarter_exec(self.edges[j], face, cw);
            j = j + 1;
        }
        proof {
            assert(self@.corners =~= v0.quarter(face, cw).corners);
            assert(self@.edges =~= v0.quarter(face, cw).edges);
            assert(self@ =~= v0.quarter(face, cw));
            lemma_quarter_wf(v0, face, cw);
        }
    }

    /// Applies one move to the cube: a quarter turn either way, or two
    /// clockwise quarter turns for a half turn.
    pub fn make_move(&mut self, mv: Move)
        requires
            old(self).wf(),
            mv.wf(),
        ensures
            final(self)@ == old(self)@.apply_move(mv),
            final(self).wf(),
    {
        if mv.coeff == -1 {
            self.quarter_turn(mv.face, false);
        } else if mv.coeff == 1 {
            self.quarter_turn(mv.face, true);
        } else {
            self.quarter_turn(mv.face, true);
            self.quarter_turn(mv.face, true);
        }
    }

    /// Builds the solved cube.
    pub fn new() -> (c: Cube)
        ensures
            c@ == solved_cube(),
            c.wf(),
    {
        let mut corners: [Piece; 8] = [Piece { pos: 0, ori: 0 }; 8];
        let mut edges: [Piece; 12] = [Piece { pos: 0, ori: 0 }; 12];
        let mut i: usize = 0;
        while i < 8
            invariant
                i <= 8,
                forall|j: int| 0 <= j < i ==> corners@[j] == (Piece { pos: j as i32, ori: 0 }),
            decreases 8 - i,
        {
            corners[i] = Piece { pos: i as i32, ori: 0 };
            i = i + 1;
        }
        let mut j: usize = 0;
        while j < 12
            invariant
                j <= 12,
                forall|k: int| 0 <= k < j ==> edges@[k] == (Piece { pos: k as i32, ori: 0 }),
            decreases 12 - j,
        {
            edges[j] = Piece { pos: j as i32, ori: 0 };
            j = j + 1;
        }
        let c = Cube { corners, edges };
        proof {
            assert(c@.corners =~= solved_cube().corners);
            assert(c@.edges =~= solved_cube().edges);
            assert(c@ =~= solved_cube());
            assert forall|p: int| 0 <= p < 8 implies #[trigger] contains_pos(c@.corners, p) by {
                assert(c@.corners[p].pos == p);
            }
            assert forall|p: int| 0 <= p < 12 implies #[trigger] contains_pos(c@.edges, p) by {
                assert(c@.edges[p].pos == p);
            }
        }
        c
    }

    /// Reports whether every piece is at its home position with orientation 0.
    pub fn is_solved(&self) -> (r: bool)
        ensures
            r == self@.is_solved(),
    {
        let mut i: usize = 0;
        while i < 8
            invariant
                i <= 8,
                forall|j: int|
                    0 <= j < i ==> (#[trigger] self.corners@[j]).pos == j
                        && self.corners@[j].ori == 0,
            decreases 8 - i,
        {
            let piece = self.corners[i];
            if piece.pos != i as i32 || piece.ori != 0 {
                return false;
            }
            i = i + 1;
        }
        let mut j: usize = 0;
        while j < 12
            invariant
                j <= 12,
                forall|i: int|
                    0 <= i < 8 ==> (#[trigger] self.corners@[i]).pos == i
                        && self.corners@[i].ori == 0,
                forall|k: int|
                    0 <= k < j ==> (#[trigger] self.edges@[k]).pos == k && self.edges@[k].ori == 0,
            decreases 12 - j,
        {
            let piece = self.edges[j];
            if piece.pos != j as i32 || piece.ori != 0 {
                return false;
            }
            j = j + 1;
        }
        true
    }
}

} // verus!
