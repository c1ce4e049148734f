//! Pattern databases: the projected-state encoder, the breadth-first table
//! builder, and the stores the solver queries as its heuristic.
//!
//! A projection selects a window of 8 pieces of one group. Its index is
//! `perm_code * base^7 + orient_code`, where `perm_code` is the Lehmer code of
//! the window's positions in factorial base and `orient_code` reads the first
//! seven orientations as a base-`base` numeral (the eighth orientation is
//! implied by the parity invariant). The index space has size `8! * base^7`.

use vstd::arithmetic::power::pow;
use vstd::prelude::*;

use crate::cube::{contains_pos, nth_move, pieces_wf, solved_cube, Cube, CubeV, Move, Piece};

verus! {

/// Which piece group a pattern database projects: the corners or the edges.
#[derive(Clone, Copy, PartialEq, Eq, Structural, Debug)]
pub enum PieceSet {
    Corners,
    Edges,
}

/// The piece group of a cube that a selector picks.
pub open spec fn group_of(v: CubeV, selector: PieceSet) -> Seq<Piece> {
    match selector {
        PieceSet::Corners => v.corners,
        PieceSet::Edges => v.edges,
    }
}

/// The projected state: the window `[lo, hi)` of the selected piece group.
pub open spec fn projection(v: CubeV, selector: PieceSet, lo: int, hi: int) -> Seq<Piece> {
    group_of(v, selector).subrange(lo, hi)
}

/// The three projections the solver uses: all corners in base 3, and the two
/// 8-edge windows in base 2.
pub open spec fn canonical_projection(selector: PieceSet, lo: int, hi: int, base: int) -> bool {
    ||| (selector == PieceSet::Corners && lo == 0 && hi == 8 && base == 3)
    ||| (selector == PieceSet::Edges && lo == 0 && hi == 8 && base == 2)
    ||| (selector == PieceSet::Edges && lo == 4 && hi == 12 && base == 2)
}

/// `n!`.
pub open spec fn fact(n: nat) -> nat
    decreases n,
{
    if n == 0 {
        1
    } else {
        n * fact((n - 1) as nat)
    }
}

/// Returns `number!`.
pub fn factorial_recursive(number: usize) -> (r: usize)
    requires
        number <= 12,
    ensures
        r == fact(number as nat),
    decreases number,
{
    proof {
        lemma_fact_bounded(number as nat);
    }
    if number <= 1 {
        proof {
            assert(fact(0nat) == 1);
            assert(fact(1nat) == 1 * fact(0nat));
        }
        1
    } else {
        let rest = factorial_recursive(number - 1);
        proof {
            assert(fact(number as nat) == (number as nat) * fact((number - 1) as nat));
        }
        number * rest
    }
}

/// `n!` is positive.
pub proof fn lemma_fact_pos(n: nat)
    ensures
        fact(n) >= 1,
    decreases n,
{
    if n > 0 {
        lemma_fact_pos((n - 1) as nat);
        assert(fact(n) == n * fact((n - 1) as nat));
        assert(n * fact((n - 1) as nat) >= 1) by (nonlinear_arith)
            requires n >= 1, fact((n - 1) as nat) >= 1;
    }
}

/// `n!` grows with `n`.
pub proof fn lemma_fact_mono(m: nat, n: nat)
    requires
        m <= n,
    ensures
        fact(m) <= fact(n),
    decreases n,
{
    if m < n {
        lemma_fact_mono(m, (n - 1) as nat);
        lemma_fact_pos((n - 1) as nat);
        assert(fact(n) == n * fact((n - 1) as nat));
        assert(n * fact((n - 1) as nat) >= fact((n - 1) as nat)) by (nonlinear_arith)
            requires n >= 1, fact((n - 1) as nat) >= 1;
    }
}

/// The factorials the databases use, evaluated.
pub proof fn lemma_fact_values()
    ensures
        fact(8nat) == 40320,
        fact(12nat) == 479001600,
{
    assert(fact(0nat) == 1);
    assert(fact(1nat) == 1);
    assert(fact(2nat) == 2);
    assert(fact(3nat) == 6);
    assert(fact(4nat) == 24);
    assert(fact(5nat) == 120);
    assert(fact(6nat) == 720);
    assert(fact(7nat) == 5040);
    assert(fact(8nat) == 40320);
    assert(fact(9nat) == 362880);
    assert(fact(10nat) == 3628800);
    assert(fact(11nat) == 39916800);
    assert(fact(12nat) == 479001600);
}

/// Factorials up to 12! stay below the machine word.
pub proof fn lemma_fact_bounded(n: nat)
    requires
        n <= 12,
    ensures
        0 < fact(n) <= 479001600,
{
    lemma_fact_pos(n);
    lemma_fact_mono(n, 12);
    lemma_fact_values();
}

/// How many pieces at index `j` or later of the window sit at a position
/// strictly smaller than the piece at index `i`.
pub open spec fn smaller_after(s: Seq<Piece>, i: int, j: int) -> int
    decreases s.len() - j,
{
    if 0 <= j < s.len() {
        (if s[j].pos < s[i].pos {
            1int
        } else {
            0int
        }) + smaller_after(s, i, j + 1)
    } else {
        0
    }
}

/// The Lehmer digit of index `i`: how many later pieces sit at a smaller
/// position.
pub open spec fn lehmer_digit(s: Seq<Piece>, i: int) -> int {
    smaller_after(s, i, i + 1)
}

/// The permutation code of the first `i` Lehmer digits, combined in mixed
/// factorial radix.
pub open spec fn perm_code_prefix(s: Seq<Piece>, i: int) -> int
    decreases i,
{
    if i <= 0 {
        0
    } else {
        perm_code_prefix(s, i - 1) * (s.len() - (i - 1)) + lehmer_digit(s, i - 1)
    }
}

/// The orientation code of the first `i` orientations, read as a base-`base`
/// numeral with the leftmost digit most significant.
pub open spec fn orient_code_prefix(s: Seq<Piece>, base: int, i: int) -> int
    decreases i,
{
    if i <= 0 {
        0
    } else {
        orient_code_prefix(s, base, i - 1) * base + s[i - 1].ori
    }
}

/// The index of a projected state in its database.
pub open spec fn spec_encode(s: Seq<Piece>, base: int) -> int {
    perm_code_prefix(s, s.len() as int) * pow(base, (s.len() - 1) as nat) + orient_code_prefix(
        s,
        base,
        s.len() - 1,
    )
}

/// Every orientation of the window lies below the base.
pub open spec fn window_wf(s: Seq<Piece>, base: int) -> bool {
    forall|i: int| 0 <= i < s.len() ==> 0 <= (#[trigger] s[i]).ori < base
}

/// The count of smaller later pieces is at most the number of later pieces.
pub proof fn lemma_smaller_after_bound(s: Seq<Piece>, i: int, j: int)
    requires
        0 <= j <= s.len(),
    ensures
        0 <= smaller_after(s, i, j) <= s.len() - j,
    decreases s.len() - j,
{
    if j < s.len() {
        lemma_smaller_after_bound(s, i, j + 1);
    }
}

/// The largest value a permutation-code prefix of `i` digits can take, plus
/// one: the falling product `n * (n-1) * ... * (n-i+1)`.
pub open spec fn perm_space(n: int, i: int) -> int
    decreases i,
{
    if i <= 0 {
        1
    } else {
        perm_space(n, i - 1) * (n - (i - 1))
    }
}

/// The falling products are positive while `i <= n`.
pub proof fn lemma_perm_space_pos(n: int, i: int)
    requires
        0 <= i <= n,
    ensures
        perm_space(n, i) >= 1,
    decreases i,
{
    if i > 0 {
        lemma_perm_space_pos(n, i - 1);
        assert(perm_space(n, i - 1) * (n - (i - 1)) >= 1) by (nonlinear_arith)
            requires perm_space(n, i - 1) >= 1, n - (i - 1) >= 1;
    }
}

/// A permutation-code prefix of `i` digits stays below its space.
pub proof fn lemma_perm_prefix_bound(s: Seq<Piece>, i: int)
    requires
        0 <= i <= s.len(),
    ensures
        0 <= perm_code_prefix(s, i) < perm_space(s.len() as int, i),
    decreases i,
{
    let n = s.len() as int;
    if i == 0 {
        lemma_perm_space_pos(n, 0);
    } else {
        assert(i >= 1);
        lemma_perm_prefix_bound(s, i - 1);
        lemma_smaller_after_bound(s, i - 1, i);
        let pc = perm_code_prefix(s, i - 1);
        let d = lehmer_digit(s, i - 1);
        assert(0 <= d <= n - i);
        assert(pc * (n - (i - 1)) + d < perm_space(n, i - 1) * (n - (i - 1))) by (nonlinear_arith)
            requires
                0 <= pc,
                pc <= perm_space(n, i - 1) - 1,
                0 <= d,
                d <= n - i,
                n - (i - 1) >= 1;
        assert(pc * (n - (i - 1)) + d >= 0) by (nonlinear_arith)
            requires 0 <= pc, 0 <= d, n - (i - 1) >= 1;
    }
}

/// An orientation-code prefix of `i` digits stays below `base^i`.
pub proof fn lemma_orient_prefix_bound(s: Seq<Piece>, base: int, i: int)
    requires
        window_wf(s, base),
        base >= 1,
        0 <= i <= s.len(),
    ensures
        0 <= orient_code_prefix(s, base, i) < pow(base, i as nat),
    decreases i,
{
    if i == 0 {
        vstd::arithmetic::power::lemma_pow0(base);
    } else {
        lemma_orient_prefix_bound(s, base, i - 1);
        let oc = orient_code_prefix(s, base, i - 1);
        let d = s[i - 1].ori as int;
        assert(pow(base, i as nat) == base * pow(base, (i - 1) as nat)) by {
            reveal(pow);
        }
        assert(oc * base + d < base * pow(base, (i - 1) as nat)) by (nonlinear_arith)
            requires
                0 <= oc,
                oc <= pow(base, (i - 1) as nat) - 1,
                0 <= d,
                d < base;
        assert(oc * base + d >= 0) by (nonlinear_arith)
            requires 0 <= oc, 0 <= d, base >= 1;
    }
}

/// The falling product of all 8 digits is `8!`.
pub proof fn lemma_perm_space_eight()
    ensures
        perm_space(8, 8) == fact(8nat),
        fact(8nat) == 40320,
{
    lemma_fact_values();
    assert(perm_space(8, 0) == 1);
    assert(perm_space(8, 1) == perm_space(8, 0) * 8);
    assert(perm_space(8, 2) == perm_space(8, 1) * 7);
    assert(perm_space(8, 3) == perm_space(8, 2) * 6);
    assert(perm_space(8, 4) == perm_space(8, 3) * 5);
    assert(perm_space(8, 5) == perm_space(8, 4) * 4);
    assert(perm_space(8, 6) == perm_space(8, 5) * 3);
    assert(perm_space(8, 7) == perm_space(8, 6) * 2);
    assert(perm_space(8, 8) == perm_space(8, 7) * 1);
    assert(perm_space(8, 8) == 40320);
}

/// The orientation block sizes the databases use: `2^7` and `3^7`.
pub proof fn lemma_pow_blocks()
    ensures
        pow(2, 7) == 128,
        pow(3, 7) == 2187,
{
    reveal(pow);
    assert(pow(2, 0) == 1);
    assert(pow(2, 1) == 2);
    assert(pow(2, 2) == 4);
    assert(pow(2, 3) == 8);
    assert(pow(2, 4) == 16);
    assert(pow(2, 5) == 32);
    assert(pow(2, 6) == 64);
    assert(pow(2, 7) == 128);
    assert(pow(3, 0) == 1);
    assert(pow(3, 1) == 3);
    assert(pow(3, 2) == 9);
    assert(pow(3, 3) == 27);
    assert(pow(3, 4) == 81);
    assert(pow(3, 5) == 243);
    assert(pow(3, 6) == 729);
    assert(pow(3, 7) == 2187);
}

/// The index of an 8-piece window lies in `[0, 8! * base^7)`.
pub proof fn lemma_encode_bounds(s: Seq<Piece>, base: int)
    requires
        s.len() == 8,
        base >= 1,
        window_wf(s, base),
    ensures
        0 <= spec_encode(s, base) < fact(8nat) * pow(base, 7),
{
    lemma_perm_prefix_bound(s, 8);
    lemma_orient_prefix_bound(s, base, 7);
    lemma_perm_space_eight();
    let pc = perm_code_prefix(s, 8);
    let oc = orient_code_prefix(s, base, 7);
    let bp = pow(base, 7);
    vstd::arithmetic::power::lemma_pow_positive(base, 7);
    assert(pc * bp + oc < 40320 * bp) by (nonlinear_arith)
        requires 0 <= pc, pc <= 40320 - 1, 0 <= oc, oc <= bp - 1, bp >= 1;
    assert(pc * bp + oc >= 0) by (nonlinear_arith)
        requires 0 <= pc, 0 <= oc, bp >= 1;
}

/// Encodes the window `[lo, hi)` of a piece slice into its database index.
///
/// The window must hold exactly 8 pieces whose orientations lie below the
/// base; the result is the projected state's index in `[0, 8! * base^7)`.
/// The window width is fixed at 8 because the orientation block size is
/// `base^7` — the width all three projections share; a different width
/// would need a different block size.
pub fn encode_pieces(pieces: &[Piece], orientation_base: usize, lo: usize, hi: usize) -> (code:
    usize)
    requires
        lo < hi <= pieces@.len(),
        hi - lo == 8,
        orientation_base == 2 || orientation_base == 3,
        window_wf(pieces@.subrange(lo as int, hi as int), orientation_base as int),
    ensures
        code == spec_encode(pieces@.subrange(lo as int, hi as int), orientation_base as int),
        code < fact(8nat) * pow(orientation_base as int, 7),
{
    let ghost w = pieces@.subrange(lo as int, hi as int);
    let ghost b = orientation_base as int;
    proof {
        lemma_encode_bounds(w, b);
    }

    proof {
        vstd::arithmetic::power::lemma_pow0(b);
    }

    // The (hi - 1) ignores the last orientation since it is implied.
    let mut orient_code: usize = 0;
    let mut i: usize = lo;
    while i < hi - 1
        invariant
            lo <= i < hi <= pieces@.len(),
            hi - lo == 8,
            orientation_base == 2 || orientation_base == 3,
            w == pieces@.subrange(lo as int, hi as int),
            b == orientation_base as int,
            window_wf(w, b),
            orient_code == orient_code_prefix(w, b, i - lo),
            orient_code < pow(b, (i - lo) as nat),
        decreases hi - i,
    {
        proof {
            assert(w[i - lo] == pieces@[i as int]);
            lemma_orient_prefix_bound(w, b, i - lo + 1);
            vstd::arithmetic::power::lemma_pow_increases(
                orientation_base as nat,
                (i - lo + 1) as nat,
                7,
            );
            lemma_pow_blocks();
        }
        orient_code = orient_code * orientation_base + (pieces[i].ori as usize);
        i = i + 1;
    }
    proof {
        lemma_orient_prefix_bound(w, b, 7);
    }

    // Lehmer code of the window's positions.
    let num_pieces = hi - lo;
    let mut perm_code: usize = 0;
    let mut k: usize = 0;
    while k < num_pieces
        invariant
            lo < hi <= pieces@.len(),
            num_pieces == hi - lo == 8,
            k <= 8,
            w == pieces@.subrange(lo as int, hi as int),
            perm_code == perm_code_prefix(w, k as int),
            perm_code < perm_space(8, k as int),
            perm_space(8, k as int) <= 40320,
        decreases num_pieces - k,
    {
        // Count the pieces to the right of `k` at a smaller position: the
        // Lehmer digit of `k`.
        let mut num_smaller: usize = 0;
        let mut j: usize = k + 1;
        while j < 8
            invariant
                k < j <= 8,
                k < 8,
                lo < hi <= pieces@.len(),
                hi - lo == 8,
                w == pieces@.subrange(lo as int, hi as int),
                num_smaller + smaller_after(w, k as int, j as int) == lehmer_digit(w, k as int),
                num_smaller <= j - k - 1,
            decreases 8 - j,
        {
            proof {
                assert(w[j as int] == pieces@[lo + j]);
                assert(w[k as int] == pieces@[lo + k]);
                assert(smaller_after(w, k as int, j as int) == (if w[j as int].pos < w[
                    k as int].pos {
                    1int
                } else {
                    0int
                }) + smaller_after(w, k as int, j + 1));
                lemma_smaller_after_bound(w, k as int, j + 1);
            }
            if pieces[lo + j].pos < pieces[lo + k].pos {
                num_smaller = num_smaller + 1;
            }
            j = j + 1;
        }
        proof {
            assert(smaller_after(w, k as int, 8) == 0);
            assert(num_smaller == lehmer_digit(w, k as int));
            lemma_perm_prefix_bound(w, k as int + 1);
            lemma_perm_space_le_fact(k as int + 1);
            assert(perm_code * (num_pieces - k) <= 40320 * 8) by (nonlinear_arith)
                requires 0 <= perm_code < 40320, 0 < num_pieces - k <= 8;
        }
        perm_code = perm_code * (num_pieces - k) + num_smaller;
        k = k + 1;
    }

    // Combine permutation and orientation codes into the final index.
    let block: usize = if orientation_base == 2 {
        128
    } else {
        2187
    };
    proof {
        lemma_pow_blocks();
        assert(block == pow(b, 7));
        lemma_perm_space_eight();
        assert(perm_code * block + orient_code < 40320 * 2187) by (nonlinear_arith)
            requires 0 <= perm_code < 40320, 0 < block <= 2187, 0 <= orient_code < block;
    }
    perm_code * block + orient_code
}

/// Falling products of at most 8 digits stay below `8!`.
pub proof fn lemma_perm_space_le_fact(i: int)
    requires
        0 <= i <= 8,
    ensures
        1 <= perm_space(8, i) <= 40320,
    decreases 8 - i,
{
    lemma_perm_space_pos(8, i);
    if i < 8 {
        lemma_perm_space_le_fact(i + 1);
        assert(perm_space(8, i + 1) == perm_space(8, i) * (8 - i));
        assert(perm_space(8, i) <= perm_space(8, i) * (8 - i)) by (nonlinear_arith)
            requires perm_space(8, i) >= 1, 8 - i >= 1;
    } else {
        lemma_perm_space_eight();
    }
}


/// A projection a store may be built over: the whole corner group in base 3,
/// or any 8-edge window in base 2.
pub open spec fn projection_wf(selector: PieceSet, lo: int, hi: int, base: int) -> bool {
    match selector {
        PieceSet::Corners => lo == 0 && hi == 8 && base == 3,
        PieceSet::Edges => 0 <= lo && hi - lo == 8 && hi <= 12 && base == 2,
    }
}

/// A well-formed cube's projection window is 8 pieces with orientations
/// below the projection's base.
pub proof fn lemma_projection_window_wf(v: CubeV, selector: PieceSet, lo: int, hi: int, base: int)
    requires
        v.wf(),
        projection_wf(selector, lo, hi, base),
    ensures
        projection(v, selector, lo, hi).len() == 8,
        window_wf(projection(v, selector, lo, hi), base),
{
    let s = projection(v, selector, lo, hi);
    assert forall|i: int| 0 <= i < s.len() implies 0 <= (#[trigger] s[i]).ori < base by {
        assert(s[i] == group_of(v, selector)[lo + i]);
    }
}

/// No piece of the window sits at a smaller position than a piece before it.
pub proof fn lemma_smaller_after_ascending_zero(s: Seq<Piece>, i: int, j: int)
    requires
        forall|a: int, b: int| 0 <= a < b < s.len() ==> (#[trigger] s[a]).pos < (#[trigger] s[b]).pos,
        0 <= i < j,
    ensures
        smaller_after(s, i, j) == 0,
    decreases s.len() - j,
{
    if 0 <= j < s.len() {
        lemma_smaller_after_ascending_zero(s, i, j + 1);
    }
}

/// All Lehmer digits of an ascending window vanish, so its permutation code
/// is zero.
pub proof fn lemma_perm_prefix_ascending_zero(s: Seq<Piece>, i: int)
    requires
        forall|a: int, b: int| 0 <= a < b < s.len() ==> (#[trigger] s[a]).pos < (#[trigger] s[b]).pos,
        0 <= i,
    ensures
        perm_code_prefix(s, i) == 0,
    decreases i,
{
    if i > 0 {
        lemma_perm_prefix_ascending_zero(s, i - 1);
        lemma_smaller_after_ascending_zero(s, i - 1, i);
    }
}

/// A window of zero orientations has orientation code zero.
pub proof fn lemma_orient_prefix_zero(s: Seq<Piece>, base: int, i: int)
    requires
        forall|a: int| 0 <= a < s.len() ==> (#[trigger] s[a]).ori == 0,
        i <= s.len(),
    ensures
        orient_code_prefix(s, base, i) == 0,
    decreases i,
{
    if i > 0 {
        lemma_orient_prefix_zero(s, base, i - 1);
    }
}

/// An ascending window with all orientations zero encodes to index 0.
pub proof fn lemma_encode_ascending_zero(s: Seq<Piece>, base: int)
    requires
        forall|a: int, b: int| 0 <= a < b < s.len() ==> (#[trigger] s[a]).pos < (#[trigger] s[b]).pos,
        forall|a: int| 0 <= a < s.len() ==> (#[trigger] s[a]).ori == 0,
    ensures
        spec_encode(s, base) == 0,
{
    lemma_perm_prefix_ascending_zero(s, s.len() as int);
    lemma_orient_prefix_zero(s, base, s.len() - 1);
}

/// Law: each projection of the solved cube encodes to index 0 — the solved
/// state sits at the first entry of every database.
pub proof fn lemma_solved_encodes_to_zero(selector: PieceSet, lo: int, hi: int, base: int)
    requires
        projection_wf(selector, lo, hi, base),
    ensures
        spec_encode(projection(solved_cube(), selector, lo, hi), base) == 0,
{
    let s = projection(solved_cube(), selector, lo, hi);
    assert forall|a: int, b: int| 0 <= a < b < s.len() implies (#[trigger] s[a]).pos < (
    #[trigger] s[b]).pos by {
        assert(s[a] == group_of(solved_cube(), selector)[lo + a]);
        assert(s[b] == group_of(solved_cube(), selector)[lo + b]);
    }
    assert forall|a: int| 0 <= a < s.len() implies (#[trigger] s[a]).ori == 0 by {
        assert(s[a] == group_of(solved_cube(), selector)[lo + a]);
    }
    lemma_encode_ascending_zero(s, base);
}

/// A loaded pattern database: the dense depth table together with the
/// projection it was built over.
pub struct PDB {
    data: Vec<u8>,
    lo: usize,
    hi: usize,
    selector: PieceSet,
    orientation_base: usize,
}

impl PDB {
    /// The depth table.
    pub closed spec fn data_spec(self) -> Seq<u8> {
        self.data@
    }

    /// The window's lower bound.
    pub closed spec fn lo_spec(self) -> int {
        self.lo as int
    }

    /// The window's upper bound.
    pub closed spec fn hi_spec(self) -> int {
        self.hi as int
    }

    /// Which piece group the store projects.
    pub closed spec fn selector_spec(self) -> PieceSet {
        self.selector
    }

    /// The orientation base of the projection.
    pub closed spec fn base_spec(self) -> int {
        self.orientation_base as int
    }

    /// A usable store: a valid projection and a table of exactly the index
    /// space's size.
    pub open spec fn wf(self) -> bool {
        &&& projection_wf(self.selector_spec(), self.lo_spec(), self.hi_spec(), self.base_spec())
        &&& self.data_spec().len() == fact(8nat) * pow(self.base_spec(), 7)
    }

    /// The table entry a cube's projection selects.
    pub open spec fn spec_heuristic(self, v: CubeV) -> int {
        self.data_spec()[spec_encode(
            projection(v, self.selector_spec(), self.lo_spec(), self.hi_spec()),
            self.base_spec(),
        )] as int
    }

    /// Looks the cube's projected state up in the depth table.
    pub fn get_heuristic(&self, cube: &Cube) -> (h: i32)
        requires
            self.wf(),
            cube.wf(),
        ensures
            h == self.spec_heuristic(cube@),
            0 <= h <= 255,
    {
        // collect the slice of pieces using the selector
        let pieces: &[Piece] = match self.selector {
            PieceSet::Corners => cube.corners.as_slice(),
            PieceSet::Edges => cube.edges.as_slice(),
        };
        proof {
            assert(pieces@ == group_of(cube@, self.selector_spec()));
            lemma_projection_window_wf(
                cube@,
                self.selector_spec(),
                self.lo_spec(),
                self.hi_spec(),
                self.base_spec(),
            );
        }
        let index: usize = encode_pieces(pieces, self.orientation_base, self.lo, self.hi);
        self.data[index] as i32
    }

    /// Binds a depth table to its projection. Returns `None` when the
    /// projection parameters are not a valid corner or edge window, or when
    /// the table's size is not exactly the index space `8! * base^7`.
    pub fn new(
        data: Vec<u8>,
        in_lo: usize,
        in_hi: usize,
        in_selector: PieceSet,
        in_base: usize,
    ) -> (r: Option<PDB>)
        ensures
            match r {
                Some(p) => {
                    &&& p.wf()
                    &&& p.data_spec() == data@
                    &&& p.lo_spec() == in_lo as int
                    &&& p.hi_spec() == in_hi as int
                    &&& p.selector_spec() == in_selector
                    &&& p.base_spec() == in_base as int
                },
                None => !(projection_wf(in_selector, in_lo as int, in_hi as int, in_base as int)
                    && data@.len() == fact(8nat) * pow(in_base as int, 7)),
            },
    {
        let params_ok = match in_selector {
            PieceSet::Corners => in_lo == 0 && in_hi == 8 && in_base == 3,
            PieceSet::Edges => 8 <= in_hi && in_hi <= 12 && in_lo == in_hi - 8 && in_base == 2,
        };
        if !params_ok {
            return None;
        }
        let block: usize = if in_base == 2 {
            128
        } else {
            2187
        };
        proof {
            lemma_pow_blocks();
            lemma_fact_values();
        }
        if data.len() != 40320 * block {
            return None;
        }
        Some(
            PDB {
                data,
                lo: in_lo,
                hi: in_hi,
                selector: in_selector,
                orientation_base: in_base,
            },
        )
    }
}

/// The largest heuristic any of the stores holds for the cube.
pub open spec fn spec_max_heuristic(pdbs: Seq<PDB>, v: CubeV) -> int
    decreases pdbs.len(),
{
    if pdbs.len() <= 1 {
        pdbs[0].spec_heuristic(v)
    } else {
        let rest = spec_max_heuristic(pdbs.drop_last(), v);
        let last = pdbs.last().spec_heuristic(v);
        if last > rest {
            last
        } else {
            rest
        }
    }
}

/// The maximum is one of the entries and dominates all of them.
pub proof fn lemma_max_heuristic_bounds(pdbs: Seq<PDB>, v: CubeV)
    requires
        pdbs.len() > 0,
    ensures
        exists|i: int|
            0 <= i < pdbs.len() && spec_max_heuristic(pdbs, v) == (#[trigger] pdbs[i]).spec_heuristic(v),
        forall|i: int|
            0 <= i < pdbs.len() ==> (#[trigger] pdbs[i]).spec_heuristic(v) <= spec_max_heuristic(
                pdbs,
                v,
            ),
    decreases pdbs.len(),
{
    if pdbs.len() == 1 {
        assert(spec_max_heuristic(pdbs, v) == pdbs[0].spec_heuristic(v));
    } else {
        lemma_max_heuristic_bounds(pdbs.drop_last(), v);
        let rest = spec_max_heuristic(pdbs.drop_last(), v);
        let last = pdbs.last().spec_heuristic(v);
        let j = choose|j: int|
            0 <= j < pdbs.drop_last().len() && rest == (#[trigger] pdbs.drop_last()[j]).spec_heuristic(v);
        assert(pdbs.drop_last()[j] == pdbs[j]);
        if last > rest {
            assert(spec_max_heuristic(pdbs, v) == pdbs[pdbs.len() - 1].spec_heuristic(v));
        } else {
            assert(spec_max_heuristic(pdbs, v) == pdbs[j].spec_heuristic(v));
        }
        assert forall|i: int|
            0 <= i < pdbs.len() implies (#[trigger] pdbs[i]).spec_heuristic(v)
            <= spec_max_heuristic(pdbs, v) by {
            if i < pdbs.len() - 1 {
                assert(pdbs.drop_last()[i] == pdbs[i]);
            }
        }
    }
}

/// Gets the largest heuristic from a slice of stores for a given state.
pub fn get_max_heuristic(cube: &Cube, pdbs: &[PDB]) -> (h: i32)
    requires
        pdbs@.len() > 0,
        forall|i: int| 0 <= i < pdbs@.len() ==> (#[trigger] pdbs@[i]).wf(),
        cube.wf(),
    ensures
        h == spec_max_heuristic(pdbs@, cube@),
        0 <= h <= 255,
{
    let mut best: i32 = pdbs[0].get_heuristic(cube);
    let mut i: usize = 1;
    while i < pdbs.len()
        invariant
            1 <= i <= pdbs@.len(),
            forall|j: int| 0 <= j < pdbs@.len() ==> (#[trigger] pdbs@[j]).wf(),
            cube.wf(),
            best == spec_max_heuristic(pdbs@.take(i as int), cube@),
            0 <= best <= 255,
        decreases pdbs@.len() - i,
    {
        let h = pdbs[i].get_heuristic(cube);
        proof {
            assert(pdbs@.take(i + 1).drop_last() =~= pdbs@.take(i as int));
            assert(pdbs@.take(i + 1).last() == pdbs@[i as int]);
        }
        if h > best {
            best = h;
        }
        i = i + 1;
    }
    proof {
        assert(pdbs@.take(pdbs@.len() as int) =~= pdbs@);
    }
    best
}


/// The database index of a cube's projection.
pub open spec fn index_of(v: CubeV, selector: PieceSet, lo: int, hi: int, base: int) -> int {
    spec_encode(projection(v, selector, lo, hi), base)
}

/// Encodes the cube's projected state into its database index.
fn encode_cube(cube: &Cube, selector: PieceSet, lo: usize, hi: usize, orientation_base: usize)
    -> (code: usize)
    requires
        cube.wf(),
        projection_wf(selector, lo as int, hi as int, orientation_base as int),
    ensures
        code == index_of(cube@, selector, lo as int, hi as int, orientation_base as int),
        code < fact(8nat) * pow(orientation_base as int, 7),
{
    let pieces: &[Piece] = match selector {
        PieceSet::Corners => cube.corners.as_slice(),
        PieceSet::Edges => cube.edges.as_slice(),
    };
    proof {
        assert(pieces@ == group_of(cube@, selector));
        lemma_projection_window_wf(
            cube@,
            selector,
            lo as int,
            hi as int,
            orientation_base as int,
        );
    }
    encode_pieces(pieces, orientation_base, lo, hi)
}

/// `c` one move before `x` in the table: `c`'s entry is one less than `x`'s,
/// and the move `m` carries `c` onto a state whose projection encodes to `x`.
pub open spec fn parent_of(
    tb: Seq<u8>,
    selector: PieceSet,
    lo: int,
    hi: int,
    base: int,
    c: CubeV,
    m: Move,
    x: int,
) -> bool {
    &&& c.wf()
    &&& m.wf()
    &&& 0 <= index_of(c, selector, lo, hi, base) < tb.len()
    &&& tb[index_of(c, selector, lo, hi, base)] < 255
    &&& tb[index_of(c, selector, lo, hi, base)] + 1 == tb[x]
    &&& index_of(c.apply_move(m), selector, lo, hi, base) == x
}

/// Law: in a built table, every entry of positive depth `d` has a parent: a
/// cube one move away whose projection's entry holds `d - 1`.
pub open spec fn parent_linked(tb: Seq<u8>, selector: PieceSet, lo: int, hi: int, base: int) -> bool {
    forall|x: int|
        0 <= x < tb.len() && 0 < #[trigger] tb[x] < 255 ==> exists|c: CubeV, m: Move|
            #[trigger] parent_of(tb, selector, lo, hi, base, c, m, x)
}

/// Stamping a fresh entry with a known parent keeps every entry linked.
proof fn lemma_parent_linked_update(
    tb: Seq<u8>,
    selector: PieceSet,
    lo: int,
    hi: int,
    base: int,
    x0: int,
    val: u8,
    parent: CubeV,
    pm: Move,
)
    requires
        parent_linked(tb, selector, lo, hi, base),
        0 <= x0 < tb.len(),
        tb[x0] == 255,
        0 < val < 255,
        parent_of(tb.update(x0, val), selector, lo, hi, base, parent, pm, x0),
    ensures
        parent_linked(tb.update(x0, val), selector, lo, hi, base),
{
    let tb2 = tb.update(x0, val);
    assert forall|x: int| 0 <= x < tb2.len() && 0 < #[trigger] tb2[x] < 255 implies exists|
        c: CubeV,
        m: Move,
    | #[trigger] parent_of(tb2, selector, lo, hi, base, c, m, x) by {
        if x == x0 {
            assert(parent_of(tb2, selector, lo, hi, base, parent, pm, x0));
        } else {
            assert(tb[x] == tb2[x]);
            let (c, m): (CubeV, Move) = choose|c: CubeV, m: Move|
                #[trigger] parent_of(tb, selector, lo, hi, base, c, m, x);
            let ci = index_of(c, selector, lo, hi, base);
            assert(tb[ci] < 255);
            assert(ci != x0);
            assert(parent_of(tb2, selector, lo, hi, base, c, m, x));
        }
    }
}

/// How many entries of the table still hold the unvisited sentinel `0xFF`.
pub open spec fn count_unvisited(s: Seq<u8>) -> nat
    decreases s.len(),
{
    if s.len() == 0 {
        0
    } else {
        count_unvisited(s.drop_last()) + (if s.last() == 255u8 {
            1nat
        } else {
            0nat
        })
    }
}

/// Stamping an unvisited entry lowers the unvisited count by one.
proof fn lemma_count_unvisited_update(s: Seq<u8>, i: int, v: u8)
    requires
        0 <= i < s.len(),
        s[i] == 255u8,
        v != 255u8,
    ensures
        count_unvisited(s.update(i, v)) + 1 == count_unvisited(s),
    decreases s.len(),
{
    let s2 = s.update(i, v);
    if i == s.len() - 1 {
        assert(s2.drop_last() =~= s.drop_last());
    } else {
        assert(s2.drop_last() =~= s.drop_last().update(i, v));
        lemma_count_unvisited_update(s.drop_last(), i, v);
        assert(s2.last() == s.last());
    }
}

/// The cube `q` stands for entry `x` of the table: it is a legal cube
/// whose projection encodes to `x`, and — unless the builder's depth guard
/// cut its expansion off — each of its children's entries is stamped.
pub open spec fn expanded_rep(
    tb: Seq<u8>,
    selector: PieceSet,
    lo: int,
    hi: int,
    base: int,
    q: CubeV,
    x: int,
) -> bool {
    &&& q.wf()
    &&& index_of(q, selector, lo, hi, base) == x
    &&& (tb[x] < 254 ==> forall|m: Move|
        m.wf() ==> tb[#[trigger] index_of(q.apply_move(m), selector, lo, hi, base)] != 255)
}

/// Law: every stamped entry of a built table has a representative cube
/// whose whole one-move neighbourhood is stamped too (up to the depth
/// guard): from a discovered state, no move reaches the sentinel.
pub open spec fn table_expanded(
    tb: Seq<u8>,
    selector: PieceSet,
    lo: int,
    hi: int,
    base: int,
) -> bool {
    forall|x: int|
        0 <= x < tb.len() && #[trigger] tb[x] != 255 ==> exists|q: CubeV|
            #[trigger] expanded_rep(tb, selector, lo, hi, base, q, x)
}

/// Some cube of the queue encodes to `x`.
pub open spec fn queue_has(
    queue: Seq<Cube>,
    selector: PieceSet,
    lo: int,
    hi: int,
    base: int,
    x: int,
) -> bool {
    exists|i: int|
        0 <= i < queue.len() && #[trigger] index_of(queue[i]@, selector, lo, hi, base) == x
}

/// Computes a pattern database and returns it as a dense byte table.
///
/// Starting from the solved cube, a breadth-first search over full cubes
/// stamps each projected index with the depth at which the search first
/// reaches it; unreached entries keep the sentinel `0xFF`. The first entry —
/// the solved projection's index — holds 0 and no other entry does; every
/// entry of positive depth `d` is linked to a parent state stamped `d - 1`;
/// and every stamped entry has a representative state whose whole one-move
/// neighbourhood is stamped. That the depths are exact distances and that
/// no sentinel survives rest on the connectedness of the projected move
/// graph and on the breadth-first order — and, for the edge projections,
/// on how the index conflation behaves — none of which is stated here.
#[verifier::rlimit(100)]
pub fn build_pdb(lo: usize, hi: usize, selector: PieceSet, orientation_base: usize) -> (table:
    Vec<u8>)
    requires
        projection_wf(selector, lo as int, hi as int, orientation_base as int),
    ensures
        table@.len() == fact(8nat) * pow(orientation_base as int, 7),
        table@[0] == 0,
        forall|x: int| 1 <= x < table@.len() ==> table@[x] != 0,
        index_of(solved_cube(), selector, lo as int, hi as int, orientation_base as int) == 0,
        parent_linked(table@, selector, lo as int, hi as int, orientation_base as int),
        table_expanded(table@, selector, lo as int, hi as int, orientation_base as int),
{
    let ghost loi = lo as int;
    let ghost hii = hi as int;
    let ghost b = orientation_base as int;

    // The total size of the database: 8! orderings times base^7 orientations.
    let block: usize = if orientation_base == 2 {
        128
    } else {
        2187
    };
    let size: usize = 40320 * block;
    proof {
        lemma_pow_blocks();
        lemma_fact_values();
        assert(size == fact(8nat) * pow(b, 7));
    }

    // Unvisited entries hold the sentinel, to identify missed indices.
    let mut pdb: Vec<u8> = Vec::new();
    let mut t: usize = 0;
    while t < size
        invariant
            t <= size,
            pdb@.len() == t,
            forall|x: int| 0 <= x < t ==> pdb@[x] == 255u8,
        decreases size - t,
    {
        pdb.push(255u8);
        t = t + 1;
    }

    // Start with the solved cube at depth 0.
    let solved = Cube::new();
    let start_index = encode_cube(&solved, selector, lo, hi, orientation_base);
    proof {
        lemma_solved_encodes_to_zero(selector, loi, hii, b);
    }
    pdb[start_index] = 0;

    let mut queue: Vec<Cube> = Vec::new();
    queue.push(solved);
    let mut head: usize = 0;

    proof {
        assert(index_of(queue@[0]@, selector, loi, hii, b) == 0);
        assert forall|x: int|
            0 <= x < size && #[trigger] pdb@[x] != 255 implies queue_has(
            queue@,
            selector,
            loi,
            hii,
            b,
            x,
        ) by {
            assert(x == 0);
        }
    }

    while head < queue.len()
        invariant
            pdb@.len() == size,
            size == fact(8nat) * pow(b, 7),
            loi == lo as int,
            hii == hi as int,
            b == orientation_base as int,
            projection_wf(selector, loi, hii, b),
            head <= queue@.len(),
            forall|q: int|
                0 <= q < queue@.len() ==> {
                    &&& (#[trigger] queue@[q]).wf()
                    &&& 0 <= index_of(queue@[q]@, selector, loi, hii, b) < size
                    &&& pdb@[index_of(queue@[q]@, selector, loi, hii, b)] != 255
                },
            forall|x: int|
                0 <= x < size && #[trigger] pdb@[x] != 255 ==> queue_has(
                    queue@,
                    selector,
                    loi,
                    hii,
                    b,
                    x,
                ),
            forall|q: int, m: Move|
                0 <= q < head && m.wf() && pdb@[index_of(queue@[q]@, selector, loi, hii, b)]
                    < 254 ==> 0 <= #[trigger] index_of(
                    queue@[q]@.apply_move(m),
                    selector,
                    loi,
                    hii,
                    b,
                ) < size && pdb@[index_of(queue@[q]@.apply_move(m), selector, loi, hii, b)]
                    != 255,
            start_index == index_of(solved_cube(), selector, loi, hii, b),
            start_index == 0,
            pdb@[0] == 0,
            forall|x: int| 1 <= x < size ==> pdb@[x] != 0,
            parent_linked(pdb@, selector, loi, hii, b),
        decreases count_unvisited(pdb@), queue@.len() - head,
    {
        let node = queue[head];
        head = head + 1;
        let ghost hd = head - 1;

        // Get this state's stamped depth.
        let node_index = encode_cube(&node, selector, lo, hi, orientation_base);
        let depth = pdb[node_index];

        let ghost pdb0 = pdb@;
        let ghost qlen0 = queue@.len();

        // A depth this large cannot arise in an 8-piece projection; the
        // guard keeps the stamped depths below the sentinel.
        if depth < 254 {
            // Create all child states.
            let mut mi: usize = 0;
            while mi < 18
                invariant
                    mi <= 18,
                    pdb@.len() == size,
                    size == fact(8nat) * pow(b, 7),
                    loi == lo as int,
                    hii == hi as int,
                    b == orientation_base as int,
                    projection_wf(selector, loi, hii, b),
                    0 <= hd < head <= queue@.len(),
                    node == queue@[hd],
                    node.wf(),
                    0 <= index_of(node@, selector, loi, hii, b) < size,
                    node_index == index_of(node@, selector, loi, hii, b),
                    pdb@[node_index as int] == depth,
                    depth < 254,
                    forall|q: int|
                        0 <= q < queue@.len() ==> {
                            &&& (#[trigger] queue@[q]).wf()
                            &&& 0 <= index_of(queue@[q]@, selector, loi, hii, b) < size
                            &&& pdb@[index_of(queue@[q]@, selector, loi, hii, b)] != 255
                        },
                    forall|x: int|
                        0 <= x < size && #[trigger] pdb@[x] != 255 ==> queue_has(
                            queue@,
                            selector,
                            loi,
                            hii,
                            b,
                            x,
                        ),
                    forall|k: int|
                        0 <= k < mi ==> 0 <= #[trigger] index_of(
                            node@.apply_move(crate::cube::nth_move_spec(k)),
                            selector,
                            loi,
                            hii,
                            b,
                        ) < size && pdb@[index_of(
                            node@.apply_move(crate::cube::nth_move_spec(k)),
                            selector,
                            loi,
                            hii,
                            b,
                        )] != 255,
                    forall|q: int, m: Move|
                        0 <= q < hd && m.wf() && pdb@[index_of(
                            queue@[q]@,
                            selector,
                            loi,
                            hii,
                            b,
                        )] < 254 ==> 0 <= #[trigger] index_of(
                            queue@[q]@.apply_move(m),
                            selector,
                            loi,
                            hii,
                            b,
                        ) < size && pdb@[index_of(queue@[q]@.apply_move(m), selector, loi, hii, b)]
                            != 255,
                    start_index == index_of(solved_cube(), selector, loi, hii, b),
                    start_index == 0,
                    pdb@[0] == 0,
                    forall|x: int| 1 <= x < size ==> pdb@[x] != 0,
                    parent_linked(pdb@, selector, loi, hii, b),
                    count_unvisited(pdb@) <= count_unvisited(pdb0),
                    count_unvisited(pdb@) == count_unvisited(pdb0) ==> queue@.len() == qlen0,
                    queue@.len() >= qlen0,
                decreases 18 - mi,
            {
                let ghost pdb_in = pdb@;
                let ghost q_in = queue@;
                let mv = nth_move(mi);
                let mut new_node = node;
                new_node.make_move(mv);

                // The index of the new state.
                let index = encode_cube(&new_node, selector, lo, hi, orientation_base);

                // If the index is untouched, stamp it and add the state to
                // the queue.
                if pdb[index] == 255 {
                    proof {
                        let tb2 = pdb@.update(index as int, (depth + 1) as u8);
                        assert(index != node_index);
                        assert(parent_of(tb2, selector, loi, hii, b, node@, mv, index as int));
                        lemma_parent_linked_update(
                            pdb@,
                            selector,
                            loi,
                            hii,
                            b,
                            index as int,
                            (depth + 1) as u8,
                            node@,
                            mv,
                        );
                        lemma_count_unvisited_update(pdb@, index as int, (depth + 1) as u8);
                    }
                    pdb[index] = depth + 1;
                    queue.push(new_node);
                    proof {
                        let ql = queue@.len() - 1;
                        assert(queue@[ql] == new_node);
                        assert forall|x: int|
                            0 <= x < size && #[trigger] pdb@[x] != 255 implies queue_has(
                            queue@,
                            selector,
                            loi,
                            hii,
                            b,
                            x,
                        ) by {
                            if x == index as int {
                                assert(index_of(queue@[ql]@, selector, loi, hii, b) == x);
                            } else {
                                assert(pdb_in[x] != 255);
                                assert(queue_has(q_in, selector, loi, hii, b, x));
                                let i = choose|i: int|
                                    0 <= i < q_in.len() && #[trigger] index_of(
                                        q_in[i]@,
                                        selector,
                                        loi,
                                        hii,
                                        b,
                                    ) == x;
                                assert(queue@[i] == q_in[i]);
                                assert(index_of(queue@[i]@, selector, loi, hii, b) == x);
                            }
                        }
                    }
                }
                proof {
                    assert(mv == crate::cube::nth_move_spec(mi as int));
                    assert(new_node@ == node@.apply_move(crate::cube::nth_move_spec(mi as int)));
                    assert(index as int == index_of(
                        node@.apply_move(crate::cube::nth_move_spec(mi as int)),
                        selector,
                        loi,
                        hii,
                        b,
                    ));
                    assert(pdb@[index as int] != 255);
                    // Stamping a fresh entry disturbs no stamped fact.
                    assert forall|x: int|
                        0 <= x < size && pdb_in[x] != 255 implies pdb@[x] == pdb_in[x] by {}
                    assert forall|k: int| 0 <= k < mi + 1 implies 0 <= #[trigger] index_of(
                        node@.apply_move(crate::cube::nth_move_spec(k)),
                        selector,
                        loi,
                        hii,
                        b,
                    ) < size && pdb@[index_of(
                        node@.apply_move(crate::cube::nth_move_spec(k)),
                        selector,
                        loi,
                        hii,
                        b,
                    )] != 255 by {
                        if k < mi {
                            assert(pdb_in[index_of(
                                node@.apply_move(crate::cube::nth_move_spec(k)),
                                selector,
                                loi,
                                hii,
                                b,
                            )] != 255);
                        } else {
                            assert(pdb@[index as int] != 255);
                        }
                    }
                    assert forall|q: int, m: Move|
                        0 <= q < hd && m.wf() && pdb@[index_of(
                            queue@[q]@,
                            selector,
                            loi,
                            hii,
                            b,
                        )] < 254 implies 0 <= #[trigger] index_of(
                        queue@[q]@.apply_move(m),
                        selector,
                        loi,
                        hii,
                        b,
                    ) < size && pdb@[index_of(queue@[q]@.apply_move(m), selector, loi, hii, b)]
                        != 255 by {
                        assert(queue@[q] == q_in[q]);
                        assert(pdb_in[index_of(q_in[q]@, selector, loi, hii, b)] != 255);
                        assert(pdb@[index_of(q_in[q]@, selector, loi, hii, b)] == pdb_in[index_of(
                            q_in[q]@,
                            selector,
                            loi,
                            hii,
                            b,
                        )]);
                        assert(0 <= index_of(q_in[q]@.apply_move(m), selector, loi, hii, b)
                            < size);
                        assert(pdb_in[index_of(q_in[q]@.apply_move(m), selector, loi, hii, b)]
                            != 255);
                    }
                }
                mi = mi + 1;
            }
            proof {
                // The 18 list entries cover every legal move, so the node
                // now counts as fully expanded.
                assert forall|m: Move| m.wf() implies 0 <= #[trigger] index_of(
                    node@.apply_move(m),
                    selector,
                    loi,
                    hii,
                    b,
                ) < size && pdb@[index_of(node@.apply_move(m), selector, loi, hii, b)] != 255 by {
                    crate::cube::lemma_moves_covered(m);
                    let k = choose|k: int| 0 <= k < 18 && crate::cube::nth_move_spec(k) == m;
                    assert(0 <= index_of(
                        node@.apply_move(crate::cube::nth_move_spec(k)),
                        selector,
                        loi,
                        hii,
                        b,
                    ) < size && pdb@[index_of(
                        node@.apply_move(crate::cube::nth_move_spec(k)),
                        selector,
                        loi,
                        hii,
                        b,
                    )] != 255);
                }
            }
        } else {
            proof {
                assert(pdb@[index_of(node@, selector, loi, hii, b)] == depth);
                assert(depth == 254 || depth == 255);
            }
        }
    }

    proof {
        assert forall|x: int|
            0 <= x < pdb@.len() && #[trigger] pdb@[x] != 255 implies exists|q: CubeV|
            #[trigger] expanded_rep(pdb@, selector, loi, hii, b, q, x) by {
            assert(queue_has(queue@, selector, loi, hii, b, x));
            let i = choose|i: int|
                0 <= i < queue@.len() && #[trigger] index_of(queue@[i]@, selector, loi, hii, b)
                    == x;
            assert(expanded_rep(pdb@, selector, loi, hii, b, queue@[i]@, x));
        }
    }

    pdb
}


/// Some piece at index `j0` or later sits at position `v`.
pub open spec fn window_contains(s: Seq<Piece>, j0: int, v: int) -> bool {
    exists|a: int| j0 <= a < s.len() && (#[trigger] s[a]).pos == v
}

/// How many pieces at index `j` or later sit at a position strictly below
/// the threshold `t`.
pub open spec fn count_below(s: Seq<Piece>, j: int, t: int) -> int
    decreases s.len() - j,
{
    if 0 <= j < s.len() {
        (if s[j].pos < t {
            1int
        } else {
            0int
        }) + count_below(s, j + 1, t)
    } else {
        0
    }
}

/// How many pieces at index `j` or later sit exactly at position `t`.
pub open spec fn count_at(s: Seq<Piece>, j: int, t: int) -> int
    decreases s.len() - j,
{
    if 0 <= j < s.len() {
        (if s[j].pos == t {
            1int
        } else {
            0int
        }) + count_at(s, j + 1, t)
    } else {
        0
    }
}

/// A Lehmer digit is the below-threshold count at the piece's own position.
proof fn lemma_smaller_after_is_count_below(s: Seq<Piece>, i: int, j: int)
    ensures
        smaller_after(s, i, j) == count_below(s, j, s[i].pos as int),
    decreases s.len() - j,
{
    if 0 <= j < s.len() {
        lemma_smaller_after_is_count_below(s, i, j + 1);
    }
}

/// Counting below `t + 1` adds the pieces exactly at `t`.
proof fn lemma_count_below_succ(s: Seq<Piece>, j: int, t: int)
    ensures
        count_below(s, j, t + 1) == count_below(s, j, t) + count_at(s, j, t),
    decreases s.len() - j,
{
    if 0 <= j < s.len() {
        lemma_count_below_succ(s, j + 1, t);
    }
}

/// Nothing sits below position zero.
proof fn lemma_count_below_zero(s: Seq<Piece>, j: int)
    requires
        forall|a: int| j <= a < s.len() ==> (#[trigger] s[a]).pos >= 0,
        0 <= j,
    ensures
        count_below(s, j, 0) == 0,
    decreases s.len() - j,
{
    if j < s.len() {
        lemma_count_below_zero(s, j + 1);
    }
}

/// No piece at `t` means a zero exact count.
proof fn lemma_count_at_zero(s: Seq<Piece>, j: int, t: int)
    requires
        forall|a: int| j <= a < s.len() ==> (#[trigger] s[a]).pos != t,
        0 <= j,
    ensures
        count_at(s, j, t) == 0,
    decreases s.len() - j,
{
    if j < s.len() {
        lemma_count_at_zero(s, j + 1, t);
    }
}

/// Exactly one piece at `t` means an exact count of one.
proof fn lemma_count_at_one(s: Seq<Piece>, j: int, t: int, w: int)
    requires
        0 <= j <= w < s.len(),
        s[w].pos == t,
        forall|a: int| j <= a < s.len() && a != w ==> (#[trigger] s[a]).pos != t,
    ensures
        count_at(s, j, t) == 1,
    decreases s.len() - j,
{
    if j == w {
        lemma_count_at_zero(s, j + 1, t);
    } else {
        lemma_count_at_one(s, j + 1, t, w);
    }
}

/// A window that is distinct and holds every position in `[0, d)` counts
/// exactly `d` pieces below `d`.
proof fn lemma_count_below_complete(s: Seq<Piece>, j0: int, d: int)
    requires
        0 <= j0,
        0 <= d,
        forall|a: int| j0 <= a < s.len() ==> (#[trigger] s[a]).pos >= 0,
        forall|a: int, bb: int|
            j0 <= a < bb < s.len() ==> (#[trigger] s[a]).pos != (#[trigger] s[bb]).pos,
        forall|v: int| 0 <= v < d ==> #[trigger] window_contains(s, j0, v),
    ensures
        count_below(s, j0, d) == d,
    decreases d,
{
    if d == 0 {
        lemma_count_below_zero(s, j0);
    } else {
        lemma_count_below_complete(s, j0, d - 1);
        lemma_count_below_succ(s, j0, d - 1);
        assert(window_contains(s, j0, d - 1));
        let w = choose|a: int| j0 <= a < s.len() && (#[trigger] s[a]).pos == d - 1;
        assert forall|a: int| j0 <= a < s.len() && a != w implies (#[trigger] s[a]).pos != d - 1 by {
            if a < w {
                assert(s[a].pos != s[w].pos);
            } else {
                assert(s[w].pos != s[a].pos);
            }
        }
        lemma_count_at_one(s, j0, d - 1, w);
    }
}

/// Counts of smaller pieces agree between two windows whose pairwise
/// position comparisons agree.
proof fn lemma_smaller_after_map(s0: Seq<Piece>, s1: Seq<Piece>, lo: int, i: int, j: int)
    requires
        s0.len() == s1.len(),
        0 <= lo,
        forall|a: int, bb: int|
            lo <= a < s0.len() && lo <= bb < s0.len() ==> (((#[trigger] s1[a]).pos < (
            #[trigger] s1[bb]).pos) <==> (s0[a].pos < s0[bb].pos)),
        lo <= i < s0.len(),
        lo <= j,
    ensures
        smaller_after(s1, i, j) == smaller_after(s0, i, j),
    decreases s0.len() - j,
{
    if j < s0.len() {
        lemma_smaller_after_map(s0, s1, lo, i, j + 1);
    }
}


/// The `i`-th Lehmer digit a permutation code holds: the code divided by
/// the mixed radix of the later digits, reduced by this digit's own radix.
pub open spec fn lehmer_digit_of_code(pc: int, i: int) -> int {
    (pc / (fact((7 - i) as nat) as int)) % (8 - i)
}

/// The `i`-th orientation digit an orientation code holds.
pub open spec fn orient_digit_of_code(oc: int, base: int, i: int) -> int {
    (oc / pow(base, (6 - i) as nat)) % base
}

/// A window whose Lehmer digits are exactly the digits of `pc` has
/// permutation code `pc`: recombining the digits in mixed factorial radix
/// undoes the extraction.
proof fn lemma_perm_prefix_of_code(s: Seq<Piece>, pc: int, j: int)
    requires
        s.len() == 8,
        0 <= pc < 40320,
        forall|i: int| 0 <= i < 8 ==> lehmer_digit(s, i) == #[trigger] lehmer_digit_of_code(pc, i),
        0 <= j <= 8,
    ensures
        perm_code_prefix(s, j) == pc / (fact((8 - j) as nat) as int),
    decreases j,
{
    lemma_fact_values();
    if j == 0 {
        assert(fact(8nat) == 40320);
        assert(pc / 40320int == 0) by (nonlinear_arith)
            requires 0 <= pc < 40320;
    } else {
        lemma_perm_prefix_of_code(s, pc, j - 1);
        lemma_fact_pos((8 - j) as nat);
        let fj = fact((8 - j) as nat) as int;
        let q = pc / fj;
        assert(fact((9 - j) as nat) == ((9 - j) as nat) * fact((8 - j) as nat));
        vstd::arithmetic::div_mod::lemma_div_denominator(pc, fj, 9 - j);
        assert(fj * (9 - j) == (9 - j) * fj) by (nonlinear_arith);
        assert(q / (9 - j) == pc / (fact((9 - j) as nat) as int));
        vstd::arithmetic::div_mod::lemma_fundamental_div_mod(q, 9 - j);
        assert(q == (9 - j) * (q / (9 - j)) + q % (9 - j));
        assert(lehmer_digit_of_code(pc, j - 1) == q % (9 - j));
        assert(perm_code_prefix(s, j) == perm_code_prefix(s, j - 1) * (8 - (j - 1)) + lehmer_digit(
            s,
            j - 1,
        ));
        assert((q / (9 - j)) * (9 - j) == (9 - j) * (q / (9 - j))) by (nonlinear_arith);
    }
}

/// A window whose orientation digits are exactly the digits of `oc` has
/// orientation code `oc`.
proof fn lemma_orient_prefix_of_code(s: Seq<Piece>, base: int, oc: int, j: int)
    requires
        s.len() == 8,
        base >= 2,
        0 <= oc < pow(base, 7),
        forall|i: int|
            0 <= i < 7 ==> (#[trigger] s[i]).ori == orient_digit_of_code(oc, base, i),
        0 <= j <= 7,
    ensures
        orient_code_prefix(s, base, j) == oc / pow(base, (7 - j) as nat),
    decreases j,
{
    if j == 0 {
        vstd::arithmetic::power::lemma_pow_positive(base, 7);
        assert(oc / pow(base, 7) == 0) by {
            vstd::arithmetic::div_mod::lemma_basic_div(oc, pow(base, 7));
        }
    } else {
        lemma_orient_prefix_of_code(s, base, oc, j - 1);
        let pj = pow(base, (7 - j) as nat);
        vstd::arithmetic::power::lemma_pow_positive(base, (7 - j) as nat);
        let q = oc / pj;
        assert(pow(base, (8 - j) as nat) == base * pow(base, (7 - j) as nat)) by {
            reveal(pow);
        }
        vstd::arithmetic::div_mod::lemma_div_denominator(oc, pj, base);
        assert(pj * base == base * pj) by (nonlinear_arith);
        assert(q / base == oc / pow(base, (8 - j) as nat));
        vstd::arithmetic::div_mod::lemma_fundamental_div_mod(q, base);
        assert(q == base * (q / base) + q % base);
        assert(s[j - 1].ori == orient_digit_of_code(oc, base, j - 1));
        assert(orient_digit_of_code(oc, base, j - 1) == q % base);
        assert(orient_code_prefix(s, base, j) == orient_code_prefix(s, base, j - 1) * base + s[j
            - 1].ori);
        assert((q / base) * base == base * (q / base)) by (nonlinear_arith);
    }
}


/// The sum of the first `i` orientations of a window.
pub open spec fn ori_total(s: Seq<Piece>, i: int) -> int
    decreases i,
{
    if i <= 0 {
        0
    } else {
        ori_total(s, i - 1) + s[i - 1].ori
    }
}

/// The sum of the first `i` entries of a digit array.
pub open spec fn digit_sum(q: Seq<i32>, i: int) -> int
    decreases i,
{
    if i <= 0 {
        0
    } else {
        digit_sum(q, i - 1) + q[i - 1]
    }
}

/// Digit sums agree on arrays that agree below `i`.
proof fn lemma_digit_sum_agree(q1: Seq<i32>, q2: Seq<i32>, i: int)
    requires
        forall|j: int| 0 <= j < i ==> q1[j] == q2[j],
    ensures
        digit_sum(q1, i) == digit_sum(q2, i),
    decreases i,
{
    if i > 0 {
        lemma_digit_sum_agree(q1, q2, i - 1);
    }
}

/// A window's orientation sum equals the sum of the digit array it was
/// built from.
proof fn lemma_ori_total_matches(s: Seq<Piece>, q: Seq<i32>, i: int)
    requires
        forall|j: int| 0 <= j < i ==> (#[trigger] s[j]).ori == q[j],
    ensures
        ori_total(s, i) == digit_sum(q, i),
    decreases i,
{
    if i > 0 {
        lemma_ori_total_matches(s, q, i - 1);
    }
}

/// Decodes a database index back into the canonical projected state: eight
/// pieces whose positions are a permutation of `[0, 8)` in the encoded
/// ordering, carrying the encoded orientations, the eighth restored from
/// the parity invariant. Re-encoding the result gives the index back, so
/// the encoding maps the canonical projected states onto `[0, 8! * base^7)`
/// one to one.
pub fn decode_pieces(code: usize, orientation_base: usize) -> (pieces: Vec<Piece>)
    requires
        orientation_base == 2 || orientation_base == 3,
        (code as int) < fact(8nat) * pow(orientation_base as int, 7),
    ensures
        pieces@.len() == 8,
        pieces_wf(pieces@, 8, orientation_base as int),
        spec_encode(pieces@, orientation_base as int) == code as int,
        ori_total(pieces@, 8) % (orientation_base as int) == 0,
{
    let ghost b = orientation_base as int;
    let block: usize = if orientation_base == 2 {
        128
    } else {
        2187
    };
    proof {
        lemma_pow_blocks();
        lemma_fact_values();
    }

    // Split the code into its permutation and orientation parts.
    let perm_code: usize = code / block;
    let orient_code: usize = code % block;
    let ghost pc = perm_code as int;
    let ghost oc = orient_code as int;
    proof {
        assert((code as int) < (block as int) * 40320) by (nonlinear_arith)
            requires (code as int) < 40320 * (block as int);
        vstd::arithmetic::div_mod::lemma_multiply_divide_lt(code as int, block as int, 40320);
        assert(0 <= oc < block as int);
    }

    // The orientation digits, most significant first; the eighth is implied
    // by parity and restored below.
    proof {
        vstd::arithmetic::power::lemma_pow0(b);
        assert(oc / 1int == oc);
        assert(fact(0nat) == 1);
        assert(fact(1nat) == 1);
        assert(pc / 1int == pc);
    }
    let mut ori: [i32; 8] = [0; 8];
    let mut rem: usize = orient_code;
    let mut k: usize = 0;
    while k < 7
        invariant
            k <= 7,
            orientation_base == 2 || orientation_base == 3,
            b == orientation_base as int,
            oc == orient_code as int,
            0 <= oc < pow(b, 7),
            rem as int == oc / pow(b, k as nat),
            forall|j: int|
                7 - k <= j < 7 ==> (#[trigger] ori@[j]) as int == orient_digit_of_code(oc, b, j)
                    && 0 <= ori@[j] < b,
        decreases 7 - k,
    {
        let idx: usize = 6 - k;
        let digit: usize = rem % orientation_base;
        proof {
            assert(orient_digit_of_code(oc, b, idx as int) == (oc / pow(b, k as nat)) % b);
        }
        ori[idx] = digit as i32;
        proof {
            vstd::arithmetic::power::lemma_pow_positive(b, k as nat);
            vstd::arithmetic::div_mod::lemma_div_denominator(oc, pow(b, k as nat), b);
            assert(pow(b, (k + 1) as nat) == b * pow(b, k as nat)) by {
                reveal(pow);
            }
            assert(pow(b, k as nat) * b == b * pow(b, k as nat)) by (nonlinear_arith);
        }
        rem = rem / orientation_base;
        k = k + 1;
    }

    // The last orientation makes the sum divisible by the base.
    let mut sum: i32 = 0;
    let mut sj: usize = 0;
    while sj < 7
        invariant
            sj <= 7,
            orientation_base == 2 || orientation_base == 3,
            b == orientation_base as int,
            forall|j: int|
                0 <= j < 7 ==> (#[trigger] ori@[j]) as int == orient_digit_of_code(oc, b, j)
                    && 0 <= ori@[j] < b,
            0 <= sum <= 2 * sj,
            sum as int == digit_sum(ori@, sj as int),
        decreases 7 - sj,
    {
        sum = sum + ori[sj];
        sj = sj + 1;
    }
    let base_i32: i32 = orientation_base as i32;
    let last_ori: i32 = (base_i32 - sum % base_i32) % base_i32;
    proof {
        vstd::arithmetic::div_mod::lemma_fundamental_div_mod(sum as int, b);
        assert(0 <= last_ori < b);
        assert((sum as int + last_ori as int) % b == 0) by (nonlinear_arith)
            requires
                b == 2 || b == 3,
                0 <= sum,
                last_ori as int == (b - (sum as int) % b) % b;
    }
    let ghost ori_pre = ori@;
    ori[7] = last_ori;
    proof {
        lemma_digit_sum_agree(ori@, ori_pre, 7);
    }

    // Assemble the pieces with the decoded orientations.
    let mut pieces: Vec<Piece> = Vec::new();
    let mut pj: usize = 0;
    while pj < 8
        invariant
            pj <= 8,
            pieces@.len() == pj,
            forall|j: int| 0 <= j < pj ==> #[trigger] pieces@[j] == (Piece {
                pos: 0i32,
                ori: ori@[j],
            }),
        decreases 8 - pj,
    {
        pieces.push(Piece { pos: 0, ori: ori[pj] });
        pj = pj + 1;
    }

    // Rebuild the positions from the Lehmer digits, least significant
    // first: insert each digit and shift the already placed positions that
    // are not below it.
    proof {
        assert(fact(0nat) == 1);
        assert(fact(1nat) == 1);
        assert(pc / 1int == pc);
    }
    proof {
        assert(pieces@[7].pos == 0);
        assert(window_contains(pieces@, 7, 0));
    }
    let mut rem2: usize = perm_code;
    let mut k2: usize = 0;
    while k2 < 7
        invariant
            k2 <= 7,
            pieces@.len() == 8,
            orientation_base == 2 || orientation_base == 3,
            b == orientation_base as int,
            0 <= pc < 40320,
            pc == perm_code as int,
            rem2 as int == pc / (fact((k2 + 1) as nat) as int),
            forall|j: int| 7 - k2 <= j < 8 ==> 0 <= (#[trigger] pieces@[j]).pos < k2 + 1,
            forall|a: int, c: int|
                7 - k2 <= a < c < 8 ==> (#[trigger] pieces@[a]).pos != (#[trigger] pieces@[c]).pos,
            forall|v: int| 0 <= v < k2 + 1 ==> #[trigger] window_contains(pieces@, 7 - k2, v),
            forall|j: int|
                7 - k2 <= j < 8 ==> lehmer_digit(pieces@, j) == #[trigger] lehmer_digit_of_code(
                    pc,
                    j,
                ),
            forall|j: int| 0 <= j < 8 ==> (#[trigger] pieces@[j]).ori == ori@[j],
        decreases 7 - k2,
    {
        proof {
            if k2 == 0 {
                assert(lehmer_digit(pieces@, 7) == smaller_after(pieces@, 7, 8));
                assert(smaller_after(pieces@, 7, 8) == 0);
            }
        }
        let i: usize = 6 - k2;
        let radix: usize = 8 - i;
        let d: usize = rem2 % radix;
        proof {
            assert(fact((7 - i as int) as nat) == fact((k2 + 1) as nat));
            assert(d as int == lehmer_digit_of_code(pc, i as int));
            lemma_fact_pos((k2 + 1) as nat);
            assert(fact((k2 + 2) as nat) == ((k2 + 2) as nat) * fact((k2 + 1) as nat));
            vstd::arithmetic::div_mod::lemma_div_denominator(
                pc,
                fact((k2 + 1) as nat) as int,
                k2 + 2,
            );
            assert((fact((k2 + 1) as nat) as int) * (k2 + 2) == fact((k2 + 2) as nat)) by (
            nonlinear_arith)
                requires
                    fact((k2 + 2) as nat) == ((k2 + 2) as nat) * fact((k2 + 1) as nat);
        }
        rem2 = rem2 / radix;

        let ghost s0 = pieces@;
        let mut j: usize = i + 1;
        while j < 8
            invariant
                i + 1 <= j <= 8,
                i == 6 - k2,
                k2 <= 6,
                d < k2 + 2,
                pieces@.len() == 8,
                s0.len() == 8,
                forall|a: int| i + 1 <= a < 8 ==> 0 <= (#[trigger] s0[a]).pos < k2 + 1,
                forall|a: int| 0 <= a < i + 1 ==> #[trigger] pieces@[a] == s0[a],
                forall|a: int|
                    i + 1 <= a < j ==> ((#[trigger] pieces@[a]).pos as int == (if s0[a].pos >= d {
                        s0[a].pos + 1
                    } else {
                        s0[a].pos as int
                    }) && pieces@[a].ori == s0[a].ori),
                forall|a: int| j <= a < 8 ==> #[trigger] pieces@[a] == s0[a],
            decreases 8 - j,
        {
            let p = pieces[j];
            if p.pos >= d as i32 {
                pieces[j] = Piece { pos: p.pos + 1, ori: p.ori };
            }
            j = j + 1;
        }
        let head_ori = pieces[i].ori;
        pieces[i] = Piece { pos: d as i32, ori: head_ori };

        proof {
            let s2 = pieces@;
            let ii = i as int;
            let dd = d as int;
            assert forall|a: int, c: int|
                ii + 1 <= a < 8 && ii + 1 <= c < 8 implies (((#[trigger] s2[a]).pos < (
            #[trigger] s2[c]).pos) <==> (s0[a].pos < s0[c].pos)) by {}
            assert forall|j2: int|
                ii + 1 <= j2 < 8 implies lehmer_digit(s2, j2) == #[trigger] lehmer_digit_of_code(
                pc,
                j2,
            ) by {
                lemma_smaller_after_map(s0, s2, ii + 1, j2, j2 + 1);
            }
            assert forall|a: int, c: int|
                ii <= a < c < 8 implies (#[trigger] s2[a]).pos != (#[trigger] s2[c]).pos by {
                if a == ii {
                    assert(s2[c].pos != dd);
                }
            }
            assert forall|v: int| 0 <= v < k2 + 2 implies #[trigger] window_contains(s2, ii, v) by {
                if v == dd {
                    assert(s2[ii].pos == v);
                } else if v < dd {
                    assert(window_contains(s0, ii + 1, v));
                    let a = choose|a: int| ii + 1 <= a < 8 && (#[trigger] s0[a].pos) == v;
                    assert(s2[a].pos == v);
                } else {
                    assert(window_contains(s0, ii + 1, v - 1));
                    let a = choose|a: int| ii + 1 <= a < 8 && (#[trigger] s0[a].pos) == v - 1;
                    assert(s2[a].pos == v);
                }
            }
            assert forall|v: int| 0 <= v < dd implies #[trigger] window_contains(s2, ii + 1, v) by {
                assert(window_contains(s0, ii + 1, v));
                let a = choose|a: int| ii + 1 <= a < 8 && (#[trigger] s0[a].pos) == v;
                assert(s2[a].pos == v);
            }
            lemma_smaller_after_is_count_below(s2, ii, ii + 1);
            lemma_count_below_complete(s2, ii + 1, dd);
            assert(lehmer_digit(s2, ii) == dd);
        }
        k2 = k2 + 1;
    }

    proof {
        let s = pieces@;
        assert forall|i: int|
            0 <= i < 8 implies lehmer_digit(s, i) == #[trigger] lehmer_digit_of_code(pc, i) by {}
        lemma_perm_prefix_of_code(s, pc, 8);
        assert(fact(0nat) == 1);
        assert(perm_code_prefix(s, 8) == pc);
        assert forall|i: int|
            0 <= i < 7 implies (#[trigger] s[i]).ori == orient_digit_of_code(oc, b, i) by {}
        lemma_orient_prefix_of_code(s, b, oc, 7);
        vstd::arithmetic::power::lemma_pow0(b);
        assert(orient_code_prefix(s, b, 7) == oc);
        vstd::arithmetic::div_mod::lemma_fundamental_div_mod(code as int, block as int);
        assert(spec_encode(s, b) == perm_code_prefix(s, 8) * pow(b, 7) + orient_code_prefix(
            s,
            b,
            7,
        ));
        assert(pc * pow(b, 7) + oc == code as int) by (nonlinear_arith)
            requires
                code as int == (block as int) * pc + oc,
                block as int == pow(b, 7);
        // the positions are a permutation of [0, 8)
        assert forall|p: int| 0 <= p < 8 implies #[trigger] contains_pos(s, p) by {
            assert(window_contains(s, 0, p));
            let a = choose|a: int| 0 <= a < 8 && (#[trigger] s[a].pos) == p;
            assert(s[a].pos == p);
        }
        // the orientation parity holds
        lemma_ori_total_matches(s, ori@, 7);
        assert(ori_total(s, 8) == ori_total(s, 7) + s[7].ori);
        assert((digit_sum(ori@, 7) + ori@[7]) % b == 0);
    }
    pieces
}


/// Law: a store whose table holds zero at the solved projection's index
/// gives the solved cube heuristic zero, and so does the maximum over such
/// stores.
pub proof fn lemma_heuristic_zero_at_solved(pdbs: Seq<PDB>)
    requires
        pdbs.len() > 0,
        forall|i: int| 0 <= i < pdbs.len() ==> (#[trigger] pdbs[i]).wf(),
        forall|i: int| 0 <= i < pdbs.len() ==> (#[trigger] pdbs[i]).data_spec()[0] == 0,
    ensures
        spec_max_heuristic(pdbs, solved_cube()) == 0,
{
    assert forall|i: int|
        0 <= i < pdbs.len() implies (#[trigger] pdbs[i]).spec_heuristic(solved_cube()) == 0 by {
        lemma_solved_encodes_to_zero(
            pdbs[i].selector_spec(),
            pdbs[i].lo_spec(),
            pdbs[i].hi_spec(),
            pdbs[i].base_spec(),
        );
    }
    lemma_max_heuristic_bounds(pdbs, solved_cube());
    let w = choose|i: int|
        0 <= i < pdbs.len() && spec_max_heuristic(pdbs, solved_cube()) == (
        #[trigger] pdbs[i]).spec_heuristic(solved_cube());
    assert(pdbs[w].spec_heuristic(solved_cube()) == 0);
}

/// The projection of a cube after a move depends only on the projection
/// before it: a move acts on each piece of the window by itself.
pub proof fn lemma_projection_congruence(
    v1: CubeV,
    v2: CubeV,
    selector: PieceSet,
    lo: int,
    hi: int,
    base: int,
    m: Move,
)
    requires
        v1.wf(),
        v2.wf(),
        m.wf(),
        projection_wf(selector, lo, hi, base),
        projection(v1, selector, lo, hi) == projection(v2, selector, lo, hi),
    ensures
        projection(v1.apply_move(m), selector, lo, hi) == projection(v2.apply_move(m), selector, lo, hi),
{
    lemma_projection_quarter_congruence(v1, v2, selector, lo, hi, m.face, m.coeff != -1);
    if m.coeff == 2 {
        crate::cube::lemma_quarter_wf(v1, m.face, true);
        crate::cube::lemma_quarter_wf(v2, m.face, true);
        lemma_projection_quarter_congruence(
            v1.quarter(m.face, true),
            v2.quarter(m.face, true),
            selector,
            lo,
            hi,
            m.face,
            true,
        );
    }
}

/// One quarter turn respects shared projections.
proof fn lemma_projection_quarter_congruence(
    v1: CubeV,
    v2: CubeV,
    selector: PieceSet,
    lo: int,
    hi: int,
    face: crate::cube::Face,
    cw: bool,
)
    requires
        v1.corners.len() == 8,
        v1.edges.len() == 12,
        v2.corners.len() == 8,
        v2.edges.len() == 12,
        0 <= lo <= hi,
        hi <= group_of(v1, selector).len(),
        hi <= group_of(v2, selector).len(),
        projection(v1, selector, lo, hi) == projection(v2, selector, lo, hi),
    ensures
        projection(v1.quarter(face, cw), selector, lo, hi) == projection(
            v2.quarter(face, cw),
            selector,
            lo,
            hi,
        ),
{
    let p1 = projection(v1.quarter(face, cw), selector, lo, hi);
    let p2 = projection(v2.quarter(face, cw), selector, lo, hi);
    assert forall|i: int| 0 <= i < p1.len() implies p1[i] == p2[i] by {
        assert(p1.len() == hi - lo);
        assert(projection(v1, selector, lo, hi)[i] == projection(v2, selector, lo, hi)[i]);
        assert(projection(v1, selector, lo, hi)[i] == group_of(v1, selector)[lo + i]);
        assert(projection(v2, selector, lo, hi)[i] == group_of(v2, selector)[lo + i]);
        assert(group_of(v1, selector)[lo + i] == group_of(v2, selector)[lo + i]);
        assert(p1[i] == group_of(v1.quarter(face, cw), selector)[lo + i]);
        assert(p2[i] == group_of(v2.quarter(face, cw), selector)[lo + i]);
        match selector {
            PieceSet::Corners => {
                assert(v1.quarter(face, cw).corners[lo + i] == crate::cube::corner_after_quarter(
                    v1.corners[lo + i],
                    face,
                    cw,
                ));
                assert(v2.quarter(face, cw).corners[lo + i] == crate::cube::corner_after_quarter(
                    v2.corners[lo + i],
                    face,
                    cw,
                ));
            },
            PieceSet::Edges => {
                assert(v1.quarter(face, cw).edges[lo + i] == crate::cube::edge_after_quarter(
                    v1.edges[lo + i],
                    face,
                    cw,
                ));
                assert(v2.quarter(face, cw).edges[lo + i] == crate::cube::edge_after_quarter(
                    v2.edges[lo + i],
                    face,
                    cw,
                ));
            },
        }
    }
    assert(p1 =~= p2);
}

/// Law: combined with the parent link, a parent's move carries every cube
/// that shares the parent's projection onto the child's index: the link
/// holds for any pre-image of the parent's projected state.
pub proof fn lemma_parent_link_any_preimage(
    tb: Seq<u8>,
    selector: PieceSet,
    lo: int,
    hi: int,
    base: int,
    c: CubeV,
    m: Move,
    x: int,
    c2: CubeV,
)
    requires
        projection_wf(selector, lo, hi, base),
        parent_of(tb, selector, lo, hi, base, c, m, x),
        c.wf(),
        c2.wf(),
        projection(c2, selector, lo, hi) == projection(c, selector, lo, hi),
    ensures
        index_of(c2, selector, lo, hi, base) == index_of(c, selector, lo, hi, base),
        index_of(c2.apply_move(m), selector, lo, hi, base) == x,
        tb[index_of(c2, selector, lo, hi, base)] + 1 == tb[x],
{
    lemma_projection_congruence(c2, c, selector, lo, hi, base, m);
}

/// The table never rises by more than one along any move: each state's
/// entry is at most one above the entry of each neighbouring state. A table
/// built by the breadth-first search has this shape.
pub open spec fn move_consistent(
    tb: Seq<u8>,
    selector: PieceSet,
    lo: int,
    hi: int,
    base: int,
) -> bool {
    forall|c: CubeV, m: Move|
        c.wf() && m.wf() ==> tb[#[trigger] index_of(c.apply_move(m), selector, lo, hi, base)] <= tb[index_of(
            c,
            selector,
            lo,
            hi,
            base,
        )] + 1
}

/// Along a path, a consistent table rises by at most the path's length.
proof fn lemma_consistent_along_path(
    tb: Seq<u8>,
    selector: PieceSet,
    lo: int,
    hi: int,
    base: int,
    v: CubeV,
    path: Seq<Move>,
)
    requires
        move_consistent(tb, selector, lo, hi, base),
        v.wf(),
        forall|i: int| 0 <= i < path.len() ==> (#[trigger] path[i]).wf(),
    ensures
        tb[index_of(v.apply_path(path), selector, lo, hi, base)] <= tb[index_of(
            v,
            selector,
            lo,
            hi,
            base,
        )] + path.len(),
    decreases path.len(),
{
    if path.len() > 0 {
        crate::cube::lemma_move_wf(v, path[0]);
        lemma_consistent_along_path(tb, selector, lo, hi, base, v.apply_move(path[0]), path.skip(1));
        assert(forall|i: int|
            0 <= i < path.skip(1).len() ==> (#[trigger] path.skip(1)[i]) == path[i + 1]);
    }
}

/// Law (admissibility): a store whose table holds zero at the solved index
/// and never rises by more than one along a move is a lower bound on the
/// distance from solved — on a cube reached from solved by `d` moves, its
/// heuristic is at most `d`. The maximum of such stores' heuristics is
/// then a lower bound too.
pub proof fn lemma_heuristic_admissible(pdbs: Seq<PDB>, path: Seq<Move>)
    requires
        pdbs.len() > 0,
        forall|i: int| 0 <= i < pdbs.len() ==> (#[trigger] pdbs[i]).wf(),
        forall|i: int| 0 <= i < pdbs.len() ==> (#[trigger] pdbs[i]).data_spec()[0] == 0,
        forall|i: int|
            0 <= i < pdbs.len() ==> move_consistent(
                (#[trigger] pdbs[i]).data_spec(),
                pdbs[i].selector_spec(),
                pdbs[i].lo_spec(),
                pdbs[i].hi_spec(),
                pdbs[i].base_spec(),
            ),
        forall|i: int| 0 <= i < path.len() ==> (#[trigger] path[i]).wf(),
    ensures
        spec_max_heuristic(pdbs, solved_cube().apply_path(path)) <= path.len(),
{
    let target = solved_cube().apply_path(path);
    assert(solved_cube().wf()) by {
        assert forall|p: int| 0 <= p < 8 implies #[trigger] contains_pos(solved_cube().corners, p) by {
            assert(solved_cube().corners[p].pos == p);
        }
        assert forall|p: int| 0 <= p < 12 implies #[trigger] contains_pos(solved_cube().edges, p) by {
            assert(solved_cube().edges[p].pos == p);
        }
    }
    assert forall|i: int|
        0 <= i < pdbs.len() implies (#[trigger] pdbs[i]).spec_heuristic(target) <= path.len() by {
        lemma_solved_encodes_to_zero(
            pdbs[i].selector_spec(),
            pdbs[i].lo_spec(),
            pdbs[i].hi_spec(),
            pdbs[i].base_spec(),
        );
        lemma_consistent_along_path(
            pdbs[i].data_spec(),
            pdbs[i].selector_spec(),
            pdbs[i].lo_spec(),
            pdbs[i].hi_spec(),
            pdbs[i].base_spec(),
            solved_cube(),
            path,
        );
    }
    lemma_max_heuristic_bounds(pdbs, target);
    let w = choose|i: int|
        0 <= i < pdbs.len() && spec_max_heuristic(pdbs, target) == (
        #[trigger] pdbs[i]).spec_heuristic(target);
}


/// Below-threshold counts split at any index of the window.
proof fn lemma_count_below_split(s: Seq<Piece>, j: int, i: int, t: int)
    requires
        0 <= j <= i <= s.len(),
    ensures
        count_below(s, j, t) == count_below(s.take(i), j, t) + count_below(s, i, t),
    decreases i - j,
{
    if j < i {
        lemma_count_below_split(s, j + 1, i, t);
        assert(s.take(i)[j] == s[j]);
    } else {
        lemma_count_below_empty_tail(s.take(i), j, t);
    }
}

/// A window with no entries counts nothing.
proof fn lemma_count_below_empty_tail(s: Seq<Piece>, j: int, t: int)
    requires
        j >= s.len(),
    ensures
        count_below(s, j, t) == 0,
{
}

/// In a window of distinct positions, each value occurs at most once.
proof fn lemma_count_at_le_one(s: Seq<Piece>, j: int, t: int)
    requires
        0 <= j,
        forall|a: int, bb: int|
            j <= a < bb < s.len() ==> (#[trigger] s[a]).pos != (#[trigger] s[bb]).pos,
    ensures
        0 <= count_at(s, j, t) <= 1,
    decreases s.len() - j,
{
    if j < s.len() {
        if s[j].pos == t {
            lemma_count_at_zero(s, j + 1, t);
        } else {
            lemma_count_at_le_one(s, j + 1, t);
        }
    }
}

/// Over a window of distinct positions, raising the threshold by `k` raises
/// the below-threshold count by at most `k`.
proof fn lemma_count_below_lipschitz(s: Seq<Piece>, j: int, u: int, t: int)
    requires
        0 <= j,
        u <= t,
        forall|a: int, bb: int|
            j <= a < bb < s.len() ==> (#[trigger] s[a]).pos != (#[trigger] s[bb]).pos,
    ensures
        count_below(s, j, t) - count_below(s, j, u) <= t - u,
    decreases t - u,
{
    if u < t {
        lemma_count_below_lipschitz(s, j, u, t - 1);
        lemma_count_below_succ(s, j, t - 1);
        lemma_count_at_le_one(s, j, t - 1);
    }
}

/// The permutation code determines each Lehmer digit: extracting the mixed
/// factorial radix back out of the combined prefix codes gives the digits
/// the window was encoded from.
proof fn lemma_digits_from_perm_code(s: Seq<Piece>, j: int)
    requires
        s.len() == 8,
        0 <= j <= 8,
    ensures
        perm_code_prefix(s, j) == perm_code_prefix(s, 8) / (fact((8 - j) as nat) as int),
        forall|i: int|
            j <= i < 8 ==> lehmer_digit(s, i) == #[trigger] lehmer_digit_of_code(
                perm_code_prefix(s, 8),
                i,
            ),
    decreases 8 - j,
{
    lemma_fact_values();
    let pc = perm_code_prefix(s, 8);
    lemma_perm_prefix_bound(s, 8);
    if j == 8 {
        assert(fact(0nat) == 1);
        assert(pc / 1int == pc);
    } else {
        lemma_digits_from_perm_code(s, j + 1);
        lemma_perm_prefix_bound(s, j);
        lemma_smaller_after_bound(s, j, j + 1);
        let fj = fact((7 - j) as nat) as int;
        lemma_fact_pos((7 - j) as nat);
        assert(perm_code_prefix(s, j + 1) == perm_code_prefix(s, j) * (8 - j) + lehmer_digit(s, j));
        assert(0 <= lehmer_digit(s, j) < 8 - j);
        vstd::arithmetic::div_mod::lemma_fundamental_div_mod_converse(
            perm_code_prefix(s, j + 1),
            8 - j,
            perm_code_prefix(s, j),
            lehmer_digit(s, j),
        );
        assert(perm_code_prefix(s, j) == perm_code_prefix(s, j + 1) / (8 - j));
        assert(lehmer_digit(s, j) == perm_code_prefix(s, j + 1) % (8 - j));
        let f8 = fact((8 - j) as nat) as int;
        assert(f8 == (8 - j) * fj) by {
            assert(fact((8 - j) as nat) == ((8 - j) as nat) * fact((7 - j) as nat));
        }
        vstd::arithmetic::div_mod::lemma_div_denominator(pc, fj, 8 - j);
        assert(fj * (8 - j) == f8) by (nonlinear_arith)
            requires f8 == (8 - j) * fj;
        assert(perm_code_prefix(s, j) == pc / f8);
        assert(lehmer_digit(s, j) == (pc / fj) % (8 - j));
        assert(lehmer_digit(s, j) == lehmer_digit_of_code(pc, j));
    }
}

/// The orientation code determines each of the first seven orientations.
proof fn lemma_digits_from_orient_code(s: Seq<Piece>, base: int, j: int)
    requires
        s.len() == 8,
        base >= 2,
        window_wf(s, base),
        0 <= j <= 7,
    ensures
        orient_code_prefix(s, base, j) == orient_code_prefix(s, base, 7) / pow(
            base,
            (7 - j) as nat,
        ),
        forall|i: int|
            j <= i < 7 ==> (#[trigger] s[i]).ori == orient_digit_of_code(
                orient_code_prefix(s, base, 7),
                base,
                i,
            ),
    decreases 7 - j,
{
    let oc = orient_code_prefix(s, base, 7);
    lemma_orient_prefix_bound(s, base, 7);
    if j == 7 {
        vstd::arithmetic::power::lemma_pow0(base);
        assert(oc / 1int == oc);
    } else {
        lemma_digits_from_orient_code(s, base, j + 1);
        lemma_orient_prefix_bound(s, base, j);
        let pj = pow(base, (6 - j) as nat);
        vstd::arithmetic::power::lemma_pow_positive(base, (6 - j) as nat);
        assert(orient_code_prefix(s, base, j + 1) == orient_code_prefix(s, base, j) * base + s[
            j].ori);
        vstd::arithmetic::div_mod::lemma_fundamental_div_mod_converse(
            orient_code_prefix(s, base, j + 1),
            base,
            orient_code_prefix(s, base, j),
            s[j].ori as int,
        );
        assert(pow(base, (7 - j) as nat) == base * pow(base, (6 - j) as nat)) by {
            reveal(pow);
        }
        vstd::arithmetic::div_mod::lemma_div_denominator(oc, pj, base);
        assert(pj * base == base * pj) by (nonlinear_arith);
        assert(orient_code_prefix(s, base, j) == oc / pow(base, (7 - j) as nat));
        assert(s[j].ori == (oc / pj) % base);
        assert(s[j].ori == orient_digit_of_code(oc, base, j));
    }
}


/// Below-threshold counts depend only on the positions.
proof fn lemma_count_below_pos_agree(sa: Seq<Piece>, sb: Seq<Piece>, j: int, t: int)
    requires
        sa.len() == sb.len(),
        forall|a: int| 0 <= a < sa.len() ==> (#[trigger] sa[a]).pos == sb[a].pos,
        0 <= j,
    ensures
        count_below(sa, j, t) == count_below(sb, j, t),
    decreases sa.len() - j,
{
    if j < sa.len() {
        lemma_count_below_pos_agree(sa, sb, j + 1, t);
    }
}

/// Orientation sums agree on windows whose orientations agree below `i`.
proof fn lemma_ori_total_agree(sa: Seq<Piece>, sb: Seq<Piece>, i: int)
    requires
        forall|j: int| 0 <= j < i ==> (#[trigger] sa[j]).ori == sb[j].ori,
    ensures
        ori_total(sa, i) == ori_total(sb, i),
    decreases i,
{
    if i > 0 {
        lemma_ori_total_agree(sa, sb, i - 1);
    }
}

/// In a window whose positions fill `[0, 8)`, each position is its Lehmer
/// digit plus the number of smaller positions standing before it.
proof fn lemma_position_rank(s: Seq<Piece>, i: int)
    requires
        s.len() == 8,
        forall|a: int| 0 <= a < 8 ==> 0 <= (#[trigger] s[a]).pos < 8,
        forall|a: int, bb: int|
            0 <= a < bb < 8 ==> (#[trigger] s[a]).pos != (#[trigger] s[bb]).pos,
        forall|v: int| 0 <= v < 8 ==> #[trigger] window_contains(s, 0, v),
        0 <= i < 8,
    ensures
        s[i].pos as int == lehmer_digit(s, i) + count_below(s.take(i), 0, s[i].pos as int),
{
    let p = s[i].pos as int;
    lemma_count_below_complete(s, 0, p);
    lemma_count_below_split(s, 0, i, p);
    assert(count_below(s, i, p) == (if s[i].pos < p {
        1int
    } else {
        0int
    }) + count_below(s, i + 1, p));
    lemma_smaller_after_is_count_below(s, i, i + 1);
}

/// Two full-permutation windows with the same Lehmer digits and the same
/// prefix share their next position: were they to differ, every value
/// between the two candidates would have to stand in the common prefix,
/// including the smaller candidate itself, which the prefix cannot hold.
proof fn lemma_rank_forces_position(s1: Seq<Piece>, s2: Seq<Piece>, i: int)
    requires
        s1.len() == 8,
        s2.len() == 8,
        forall|a: int| 0 <= a < 8 ==> 0 <= (#[trigger] s1[a]).pos < 8,
        forall|a: int, bb: int|
            0 <= a < bb < 8 ==> (#[trigger] s1[a]).pos != (#[trigger] s1[bb]).pos,
        forall|v: int| 0 <= v < 8 ==> #[trigger] window_contains(s1, 0, v),
        forall|a: int| 0 <= a < 8 ==> 0 <= (#[trigger] s2[a]).pos < 8,
        forall|a: int, bb: int|
            0 <= a < bb < 8 ==> (#[trigger] s2[a]).pos != (#[trigger] s2[bb]).pos,
        forall|v: int| 0 <= v < 8 ==> #[trigger] window_contains(s2, 0, v),
        forall|k: int| 0 <= k < 8 ==> lehmer_digit(s1, k) == lehmer_digit(s2, k),
        forall|j: int| 0 <= j < i ==> (#[trigger] s1[j]).pos == s2[j].pos,
        0 <= i < 8,
    ensures
        s1[i].pos == s2[i].pos,
{
    lemma_position_rank(s1, i);
    lemma_position_rank(s2, i);
    let p1 = s1[i].pos as int;
    let p2 = s2[i].pos as int;
    let pre = s1.take(i);
    assert(forall|a: int| 0 <= a < pre.len() ==> (#[trigger] pre[a]).pos == s2.take(i)[a].pos);
    lemma_count_below_pos_agree(pre, s2.take(i), 0, p2);
    assert(p1 == lehmer_digit(s1, i) + count_below(pre, 0, p1));
    assert(p2 == lehmer_digit(s1, i) + count_below(pre, 0, p2));
    if p1 < p2 {
        lemma_prefix_cannot_fill_gap(s1, i, p1, p2);
    }
    if p2 < p1 {
        lemma_count_below_pos_agree(pre, s2.take(i), 0, p1);
        lemma_prefix_cannot_fill_gap(s2, i, p2, p1);
    }
}

/// A prefix of `i` distinct positions, none equal to the position at `i`,
/// holds fewer than `p2 - p1` values of `[p1, p2)`.
proof fn lemma_prefix_cannot_fill_gap(s: Seq<Piece>, i: int, p1: int, p2: int)
    requires
        s.len() == 8,
        0 <= i < 8,
        forall|a: int, bb: int|
            0 <= a < bb < 8 ==> (#[trigger] s[a]).pos != (#[trigger] s[bb]).pos,
        p1 < p2,
        s[i].pos == p1,
    ensures
        count_below(s.take(i), 0, p2) - count_below(s.take(i), 0, p1) <= p2 - p1 - 1,
{
    let pre = s.take(i);
    assert(forall|a: int, bb: int|
        0 <= a < bb < pre.len() ==> (#[trigger] pre[a]).pos != (#[trigger] pre[bb]).pos);
    assert(forall|a: int| 0 <= a < pre.len() ==> (#[trigger] pre[a]).pos != p1);
    lemma_count_below_succ(pre, 0, p1);
    lemma_count_at_zero(pre, 0, p1);
    assert(count_below(pre, 0, p1 + 1) == count_below(pre, 0, p1));
    lemma_count_below_lipschitz(pre, 0, p1 + 1, p2);
}

/// Law: on windows whose positions fill `[0, 8)` and whose orientation sum
/// carries the parity invariant, the encoding is injective — equal indices
/// mean identical projected states. With [`decode_pieces`] giving the other
/// direction, the encoding is a bijection between these windows and the
/// index space `[0, 8! * base^7)`; the corner projection of every legal
/// cube is such a window. The edge windows are not: their positions range
/// over `[0, 12)`, the Lehmer code sees only their relative order, and no
/// parity invariant fixes the window's eighth orientation, so distinct
/// edge projections can share an index (ascending windows over different
/// position sets, for instance, all encode to zero).
pub proof fn lemma_encode_injective(s1: Seq<Piece>, s2: Seq<Piece>, base: int)
    requires
        s1.len() == 8,
        s2.len() == 8,
        base >= 2,
        window_wf(s1, base),
        window_wf(s2, base),
        forall|a: int| 0 <= a < 8 ==> 0 <= (#[trigger] s1[a]).pos < 8,
        forall|a: int, bb: int|
            0 <= a < bb < 8 ==> (#[trigger] s1[a]).pos != (#[trigger] s1[bb]).pos,
        forall|v: int| 0 <= v < 8 ==> #[trigger] window_contains(s1, 0, v),
        forall|a: int| 0 <= a < 8 ==> 0 <= (#[trigger] s2[a]).pos < 8,
        forall|a: int, bb: int|
            0 <= a < bb < 8 ==> (#[trigger] s2[a]).pos != (#[trigger] s2[bb]).pos,
        forall|v: int| 0 <= v < 8 ==> #[trigger] window_contains(s2, 0, v),
        ori_total(s1, 8) % base == 0,
        ori_total(s2, 8) % base == 0,
        spec_encode(s1, base) == spec_encode(s2, base),
    ensures
        s1 == s2,
{
    let code = spec_encode(s1, base);
    let block = pow(base, 7);
    vstd::arithmetic::power::lemma_pow_positive(base, 7);
    lemma_perm_prefix_bound(s1, 8);
    lemma_perm_prefix_bound(s2, 8);
    lemma_orient_prefix_bound(s1, base, 7);
    lemma_orient_prefix_bound(s2, base, 7);
    vstd::arithmetic::div_mod::lemma_fundamental_div_mod_converse(
        code,
        block,
        perm_code_prefix(s1, 8),
        orient_code_prefix(s1, base, 7),
    );
    vstd::arithmetic::div_mod::lemma_fundamental_div_mod_converse(
        code,
        block,
        perm_code_prefix(s2, 8),
        orient_code_prefix(s2, base, 7),
    );
    assert(perm_code_prefix(s1, 8) == perm_code_prefix(s2, 8));
    assert(orient_code_prefix(s1, base, 7) == orient_code_prefix(s2, base, 7));

    // The permutation code pins every Lehmer digit, and the digits with the
    // shared prefix pin every position in turn.
    lemma_digits_from_perm_code(s1, 0);
    lemma_digits_from_perm_code(s2, 0);
    assert forall|k: int| 0 <= k < 8 implies lehmer_digit(s1, k) == lehmer_digit(s2, k) by {
        assert(lehmer_digit(s1, k) == lehmer_digit_of_code(perm_code_prefix(s1, 8), k));
        assert(lehmer_digit(s2, k) == lehmer_digit_of_code(perm_code_prefix(s2, 8), k));
    }
    lemma_positions_from_digits(s1, s2, 0);

    // The orientation code pins the first seven orientations, and the
    // parity invariant pins the eighth.
    lemma_digits_from_orient_code(s1, base, 0);
    lemma_digits_from_orient_code(s2, base, 0);
    lemma_ori_total_agree(s1, s2, 7);
    assert(ori_total(s1, 8) == ori_total(s1, 7) + s1[7].ori);
    assert(ori_total(s2, 8) == ori_total(s2, 7) + s2[7].ori);
    let t = ori_total(s1, 7);
    let o1 = s1[7].ori as int;
    let o2 = s2[7].ori as int;
    vstd::arithmetic::div_mod::lemma_fundamental_div_mod(t + o1, base);
    vstd::arithmetic::div_mod::lemma_fundamental_div_mod(t + o2, base);
    assert(o1 == o2) by (nonlinear_arith)
        requires
            t + o1 == base * ((t + o1) / base),
            t + o2 == base * ((t + o2) / base),
            0 <= o1 < base,
            0 <= o2 < base;

    assert forall|a: int| 0 <= a < 8 implies s1[a] == s2[a] by {
        if a < 7 {
            assert(s1[a].ori == orient_digit_of_code(orient_code_prefix(s1, base, 7), base, a));
            assert(s2[a].ori == orient_digit_of_code(orient_code_prefix(s2, base, 7), base, a));
        }
        assert(s1[a].pos == s2[a].pos);
    }
    assert(s1 =~= s2);
}

/// Positions follow one by one from shared digits and a shared prefix.
proof fn lemma_positions_from_digits(s1: Seq<Piece>, s2: Seq<Piece>, i: int)
    requires
        s1.len() == 8,
        s2.len() == 8,
        forall|a: int| 0 <= a < 8 ==> 0 <= (#[trigger] s1[a]).pos < 8,
        forall|a: int, bb: int|
            0 <= a < bb < 8 ==> (#[trigger] s1[a]).pos != (#[trigger] s1[bb]).pos,
        forall|v: int| 0 <= v < 8 ==> #[trigger] window_contains(s1, 0, v),
        forall|a: int| 0 <= a < 8 ==> 0 <= (#[trigger] s2[a]).pos < 8,
        forall|a: int, bb: int|
            0 <= a < bb < 8 ==> (#[trigger] s2[a]).pos != (#[trigger] s2[bb]).pos,
        forall|v: int| 0 <= v < 8 ==> #[trigger] window_contains(s2, 0, v),
        forall|k: int| 0 <= k < 8 ==> lehmer_digit(s1, k) == lehmer_digit(s2, k),
        forall|j: int| 0 <= j < i ==> (#[trigger] s1[j]).pos == s2[j].pos,
        0 <= i <= 8,
    ensures
        forall|j: int| 0 <= j < 8 ==> (#[trigger] s1[j]).pos == s2[j].pos,
    decreases 8 - i,
{
    if i < 8 {
        lemma_rank_forces_position(s1, s2, i);
        lemma_positions_from_digits(s1, s2, i + 1);
    }
}


/// The sum of `f` over the positions at index `j` or later that lie below
/// the threshold `t`.
pub open spec fn pos_sum_below(s: Seq<Piece>, j: int, t: int, f: spec_fn(int) -> int) -> int
    decreases s.len() - j,
{
    if 0 <= j < s.len() {
        (if s[j].pos < t {
            f(s[j].pos as int)
        } else {
            0
        }) + pos_sum_below(s, j + 1, t, f)
    } else {
        0
    }
}

/// The sum of `f` over `[0, t)`.
pub open spec fn range_sum(t: int, f: spec_fn(int) -> int) -> int
    decreases t,
{
    if t <= 0 {
        0
    } else {
        range_sum(t - 1, f) + f(t - 1)
    }
}

/// Raising the threshold by one adds `f` at the new value once per piece
/// sitting there.
proof fn lemma_pos_sum_below_succ(s: Seq<Piece>, j: int, t: int, f: spec_fn(int) -> int)
    requires
        0 <= j,
    ensures
        pos_sum_below(s, j, t + 1, f) == pos_sum_below(s, j, t, f) + f(t) * count_at(s, j, t),
    decreases s.len() - j,
{
    if j < s.len() {
        lemma_pos_sum_below_succ(s, j + 1, t, f);
        assert(f(t) * (count_at(s, j + 1, t) + 1) == f(t) * count_at(s, j + 1, t) + f(t)) by (
        nonlinear_arith);
    }
}

/// Over a window whose positions hold every value of `[0, t)` exactly once,
/// the sum of `f` over the positions below `t` is the sum of `f` over
/// `[0, t)`.
proof fn lemma_pos_sum_is_range_sum(s: Seq<Piece>, t: int, f: spec_fn(int) -> int)
    requires
        0 <= t,
        forall|a: int, bb: int|
            0 <= a < bb < s.len() ==> (#[trigger] s[a]).pos != (#[trigger] s[bb]).pos,
        forall|a: int| 0 <= a < s.len() ==> (#[trigger] s[a]).pos >= 0,
        forall|v: int| 0 <= v < t ==> #[trigger] window_contains(s, 0, v),
    ensures
        pos_sum_below(s, 0, t, f) == range_sum(t, f),
    decreases t,
{
    if t == 0 {
        lemma_pos_sum_below_nonneg_zero(s, 0, f);
    } else {
        lemma_pos_sum_is_range_sum(s, t - 1, f);
        lemma_pos_sum_below_succ(s, 0, t - 1, f);
        assert(window_contains(s, 0, t - 1));
        let w = choose|a: int| 0 <= a < s.len() && (#[trigger] s[a].pos) == t - 1;
        assert forall|a: int| 0 <= a < s.len() && a != w implies (#[trigger] s[a]).pos != t - 1 by {
            if a < w {
                assert(s[a].pos != s[w].pos);
            } else {
                assert(s[w].pos != s[a].pos);
            }
        }
        lemma_count_at_one(s, 0, t - 1, w);
    }
}

/// No position lies below zero.
proof fn lemma_pos_sum_below_nonneg_zero(s: Seq<Piece>, j: int, f: spec_fn(int) -> int)
    requires
        0 <= j,
        forall|a: int| 0 <= a < s.len() ==> (#[trigger] s[a]).pos >= 0,
    ensures
        pos_sum_below(s, j, 0, f) == 0,
    decreases s.len() - j,
{
    if j < s.len() {
        lemma_pos_sum_below_nonneg_zero(s, j + 1, f);
    }
}


/// Adding inside a modulus first changes nothing.
proof fn lemma_mod_add_left(x: int, y: int, m: int)
    requires
        m >= 1,
    ensures
        ((x % m) + y) % m == (x + y) % m,
{
    vstd::arithmetic::div_mod::lemma_fundamental_div_mod(x, m);
    vstd::arithmetic::div_mod::lemma_mod_multiples_vanish(x / m, (x % m) + y, m);
    assert(m * (x / m) + ((x % m) + y) == x + y);
}

/// The sum of the orientations at index `j` or later.
pub open spec fn ori_suffix(s: Seq<Piece>, j: int) -> int
    decreases s.len() - j,
{
    if 0 <= j < s.len() {
        s[j].ori + ori_suffix(s, j + 1)
    } else {
        0
    }
}

/// The whole suffix sum is the whole prefix sum.
proof fn lemma_ori_suffix_total(s: Seq<Piece>, j: int)
    requires
        0 <= j <= s.len(),
    ensures
        ori_suffix(s, j) == ori_total(s, s.len() as int) - ori_total(s, j),
    decreases s.len() - j,
{
    if j < s.len() {
        lemma_ori_suffix_total(s, j + 1);
    }
}

/// When every new orientation is the old one plus a function of the old
/// position, reduced by the base, the orientation sum changes by the sum of
/// that function over the positions, modulo the base.
proof fn lemma_ori_suffix_after_turn(
    old: Seq<Piece>,
    new: Seq<Piece>,
    j: int,
    n: int,
    m: int,
    f: spec_fn(int) -> int,
)
    requires
        old.len() == n,
        new.len() == n,
        m >= 1,
        0 <= j,
        forall|a: int| 0 <= a < n ==> 0 <= (#[trigger] old[a]).pos < n,
        forall|a: int|
            0 <= a < n ==> (#[trigger] new[a]).ori as int == (old[a].ori + f(
                old[a].pos as int,
            )) % m,
    ensures
        ori_suffix(new, j) % m == (ori_suffix(old, j) + pos_sum_below(old, j, n, f)) % m,
    decreases n - j,
{
    if j < n {
        lemma_ori_suffix_after_turn(old, new, j + 1, n, m, f);
        let rest_new = ori_suffix(new, j + 1);
        let rest_old = ori_suffix(old, j + 1) + pos_sum_below(old, j + 1, n, f);
        let dj = old[j].ori + f(old[j].pos as int);
        assert(ori_suffix(new, j) == (dj % m) + rest_new);
        lemma_mod_add_left(dj, rest_new, m);
        assert(((dj % m) + rest_new) % m == (dj + rest_new) % m);
        lemma_mod_add_right(dj, rest_new, rest_old, m);
        assert(pos_sum_below(old, j, n, f) == f(old[j].pos as int) + pos_sum_below(
            old,
            j + 1,
            n,
            f,
        ));
    } else {
        assert(ori_suffix(new, j) == 0);
        assert(ori_suffix(old, j) == 0);
        assert(pos_sum_below(old, j, n, f) == 0);
    }
}

/// Exchanging a right summand for one with the same remainder keeps the
/// remainder of the sum.
proof fn lemma_mod_add_right(a: int, b: int, c: int, m: int)
    requires
        m >= 1,
        b % m == c % m,
    ensures
        (a + b) % m == (a + c) % m,
{
    vstd::arithmetic::div_mod::lemma_fundamental_div_mod(b, m);
    vstd::arithmetic::div_mod::lemma_fundamental_div_mod(c, m);
    vstd::arithmetic::div_mod::lemma_mod_multiples_vanish(b / m, a + (b % m), m);
    vstd::arithmetic::div_mod::lemma_mod_multiples_vanish(c / m, a + (c % m), m);
    assert(m * (b / m) + (a + (b % m)) == a + b);
    assert(m * (c / m) + (a + (c % m)) == a + c);
}


/// Around one whole face, the corner twists sum to a multiple of three and
/// the edge flips to a multiple of two: each quarter turn hands out twists
/// `1, 2, 1, 2` and flips `1, 1, 1, 1` along its cycle.
proof fn lemma_twist_range_sums(face: crate::cube::Face)
    ensures
        range_sum(8, |p: int| crate::cube::corner_twist(face, p)) % 3 == 0,
        range_sum(12, |p: int| crate::cube::edge_flip(face, p)) % 2 == 0,
{
    let fc = |p: int| crate::cube::corner_twist(face, p);
    assert(range_sum(0, fc) == 0);
    assert(range_sum(1, fc) == range_sum(0, fc) + fc(0));
    assert(range_sum(2, fc) == range_sum(1, fc) + fc(1));
    assert(range_sum(3, fc) == range_sum(2, fc) + fc(2));
    assert(range_sum(4, fc) == range_sum(3, fc) + fc(3));
    assert(range_sum(5, fc) == range_sum(4, fc) + fc(4));
    assert(range_sum(6, fc) == range_sum(5, fc) + fc(5));
    assert(range_sum(7, fc) == range_sum(6, fc) + fc(6));
    assert(range_sum(8, fc) == range_sum(7, fc) + fc(7));
    let fe = |p: int| crate::cube::edge_flip(face, p);
    assert(range_sum(0, fe) == 0);
    assert(range_sum(1, fe) == range_sum(0, fe) + fe(0));
    assert(range_sum(2, fe) == range_sum(1, fe) + fe(1));
    assert(range_sum(3, fe) == range_sum(2, fe) + fe(2));
    assert(range_sum(4, fe) == range_sum(3, fe) + fe(3));
    assert(range_sum(5, fe) == range_sum(4, fe) + fe(4));
    assert(range_sum(6, fe) == range_sum(5, fe) + fe(5));
    assert(range_sum(7, fe) == range_sum(6, fe) + fe(6));
    assert(range_sum(8, fe) == range_sum(7, fe) + fe(7));
    assert(range_sum(9, fe) == range_sum(8, fe) + fe(8));
    assert(range_sum(10, fe) == range_sum(9, fe) + fe(9));
    assert(range_sum(11, fe) == range_sum(10, fe) + fe(10));
    assert(range_sum(12, fe) == range_sum(11, fe) + fe(11));
}

/// A quarter turn keeps each group's orientation sum unchanged modulo its
/// base: the invariant behind the encoder's implied eighth digit.
proof fn lemma_quarter_preserves_parity(v: CubeV, face: crate::cube::Face, cw: bool)
    requires
        v.wf(),
    ensures
        ori_total(v.quarter(face, cw).corners, 8) % 3 == ori_total(v.corners, 8) % 3,
        ori_total(v.quarter(face, cw).edges, 12) % 2 == ori_total(v.edges, 12) % 2,
{
    let newc = v.quarter(face, cw).corners;
    let fc = |p: int| crate::cube::corner_twist(face, p);
    assert forall|a: int| 0 <= a < 8 implies (#[trigger] newc[a]).ori as int == (v.corners[a].ori
        + fc(v.corners[a].pos as int)) % 3 by {
        assert(newc[a] == crate::cube::corner_after_quarter(v.corners[a], face, cw));
    }
    lemma_ori_suffix_after_turn(v.corners, newc, 0, 8, 3, fc);
    assert forall|w: int| 0 <= w < 8 implies #[trigger] window_contains(v.corners, 0, w) by {
        assert(contains_pos(v.corners, w));
        let a = choose|i: int| 0 <= i < v.corners.len() && (#[trigger] v.corners[i].pos) == w;
        assert(v.corners[a].pos == w);
    }
    lemma_pos_sum_is_range_sum(v.corners, 8, fc);
    lemma_twist_range_sums(face);
    lemma_ori_suffix_total(v.corners, 0);
    lemma_ori_suffix_total(newc, 0);
    lemma_mod_add_right(ori_suffix(v.corners, 0), range_sum(8, fc), 0, 3);

    let newe = v.quarter(face, cw).edges;
    let fe = |p: int| crate::cube::edge_flip(face, p);
    assert forall|a: int| 0 <= a < 12 implies (#[trigger] newe[a]).ori as int == (v.edges[a].ori
        + fe(v.edges[a].pos as int)) % 2 by {
        assert(newe[a] == crate::cube::edge_after_quarter(v.edges[a], face, cw));
    }
    lemma_ori_suffix_after_turn(v.edges, newe, 0, 12, 2, fe);
    assert forall|w: int| 0 <= w < 12 implies #[trigger] window_contains(v.edges, 0, w) by {
        assert(contains_pos(v.edges, w));
        let a = choose|i: int| 0 <= i < v.edges.len() && (#[trigger] v.edges[i].pos) == w;
        assert(v.edges[a].pos == w);
    }
    lemma_pos_sum_is_range_sum(v.edges, 12, fe);
    lemma_ori_suffix_total(v.edges, 0);
    lemma_ori_suffix_total(newe, 0);
    lemma_mod_add_right(ori_suffix(v.edges, 0), range_sum(12, fe), 0, 2);
}

/// A whole move keeps both orientation parities.
pub proof fn lemma_move_preserves_parity(v: CubeV, mv: Move)
    requires
        v.wf(),
        mv.wf(),
    ensures
        ori_total(v.apply_move(mv).corners, 8) % 3 == ori_total(v.corners, 8) % 3,
        ori_total(v.apply_move(mv).edges, 12) % 2 == ori_total(v.edges, 12) % 2,
{
    if mv.coeff == 2 {
        lemma_quarter_preserves_parity(v, mv.face, true);
        crate::cube::lemma_quarter_wf(v, mv.face, true);
        lemma_quarter_preserves_parity(v.quarter(mv.face, true), mv.face, true);
    } else {
        lemma_quarter_preserves_parity(v, mv.face, mv.coeff == 1);
    }
}

/// All orientations zero sum to zero.
proof fn lemma_ori_total_zero(s: Seq<Piece>, i: int)
    requires
        forall|j: int| 0 <= j < i ==> (#[trigger] s[j]).ori == 0,
    ensures
        ori_total(s, i) == 0,
    decreases i,
{
    if i > 0 {
        lemma_ori_total_zero(s, i - 1);
    }
}

/// Law: every cube reached from the solved state by legal moves keeps the
/// orientation parity invariants — the corner orientations sum to a
/// multiple of three and the edge orientations to a multiple of two.
pub proof fn lemma_reachable_cube_parity(path: Seq<Move>)
    requires
        forall|i: int| 0 <= i < path.len() ==> (#[trigger] path[i]).wf(),
    ensures
        ori_total(solved_cube().apply_path(path).corners, 8) % 3 == 0,
        ori_total(solved_cube().apply_path(path).edges, 12) % 2 == 0,
{
    lemma_solved_cube_wf();
    lemma_ori_total_zero(solved_cube().corners, 8);
    lemma_ori_total_zero(solved_cube().edges, 12);
    lemma_parity_along_path(solved_cube(), path);
}

/// The solved cube satisfies the cube invariant.
pub proof fn lemma_solved_cube_wf()
    ensures
        solved_cube().wf(),
{
    assert forall|p: int| 0 <= p < 8 implies #[trigger] contains_pos(solved_cube().corners, p) by {
        assert(solved_cube().corners[p].pos == p);
    }
    assert forall|p: int| 0 <= p < 12 implies #[trigger] contains_pos(solved_cube().edges, p) by {
        assert(solved_cube().edges[p].pos == p);
    }
}

/// Both parities persist along any path of legal moves.
proof fn lemma_parity_along_path(v: CubeV, path: Seq<Move>)
    requires
        v.wf(),
        forall|i: int| 0 <= i < path.len() ==> (#[trigger] path[i]).wf(),
    ensures
        ori_total(v.apply_path(path).corners, 8) % 3 == ori_total(v.corners, 8) % 3,
        ori_total(v.apply_path(path).edges, 12) % 2 == ori_total(v.edges, 12) % 2,
    decreases path.len(),
{
    if path.len() > 0 {
        lemma_move_preserves_parity(v, path[0]);
        crate::cube::lemma_move_wf(v, path[0]);
        lemma_parity_along_path(v.apply_move(path[0]), path.skip(1));
    }
}

/// Law: the corner encoding never collides — two cubes that satisfy the
/// invariant and the corner orientation parity share their corner index
/// only when their corner groups are identical.
pub proof fn lemma_corner_encode_injective(v1: CubeV, v2: CubeV)
    requires
        v1.wf(),
        v2.wf(),
        ori_total(v1.corners, 8) % 3 == 0,
        ori_total(v2.corners, 8) % 3 == 0,
        index_of(v1, PieceSet::Corners, 0, 8, 3) == index_of(v2, PieceSet::Corners, 0, 8, 3),
    ensures
        v1.corners == v2.corners,
{
    assert(projection(v1, PieceSet::Corners, 0, 8) =~= v1.corners);
    assert(projection(v2, PieceSet::Corners, 0, 8) =~= v2.corners);
    assert forall|v: int| 0 <= v < 8 implies #[trigger] window_contains(v1.corners, 0, v) by {
        assert(contains_pos(v1.corners, v));
        let a = choose|i: int| 0 <= i < v1.corners.len() && (#[trigger] v1.corners[i].pos) == v;
        assert(v1.corners[a].pos == v);
    }
    assert forall|v: int| 0 <= v < 8 implies #[trigger] window_contains(v2.corners, 0, v) by {
        assert(contains_pos(v2.corners, v));
        let a = choose|i: int| 0 <= i < v2.corners.len() && (#[trigger] v2.corners[i].pos) == v;
        assert(v2.corners[a].pos == v);
    }
    lemma_encode_injective(v1.corners, v2.corners, 3);
}

} // verus!
