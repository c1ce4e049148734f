//! The IDA* search: a depth-bounded depth-first search over the move graph,
//! repeated with a rising cost threshold, that finds a move sequence carrying
//! a scrambled cube back to the solved state.
//!
//! The estimated cost of a node is `max(g + h, scramble_len)`: moves already
//! made plus the pattern databases' lower bound, clamped to the wanted
//! minimum length. Structural pruning skips a move on the same face as the
//! previous move, and a move on the face opposite the previous move's face;
//! since the opposite-face table pairs the faces both ways, the rule bars
//! opposite faces from standing next to each other in either order.

use vstd::prelude::*;

use crate::cube::{opposite_face, opposite_spec, Cube, CubeV, Face, Move};
use crate::pdb::{get_max_heuristic, spec_max_heuristic, PDB};

verus! {

/// Thresholds stay below this bound; a search that would pass it gives up.
/// No solvable position comes anywhere near it: the threshold never needs to
/// pass 20 times the heuristic's range.
pub const THRESHOLD_LIMIT: i32 = 0x7fff_0000;

/// Move `b` may follow move `a`: not the same face twice in a row, and not
/// the opposite face right after (the asymmetric canonicalisation rule).
pub open spec fn may_follow(a: Move, b: Move) -> bool {
    b.face != a.face && b.face != opposite_spec(a.face)
}

/// A canonical path: every move is legal and no move repeats or opposes the
/// face of the move before it.
pub open spec fn canonical_path(s: Seq<Move>) -> bool {
    &&& forall|i: int| 0 <= i < s.len() ==> (#[trigger] s[i]).wf()
    &&& forall|i: int| 0 <= i && i + 1 < s.len() ==> may_follow(#[trigger] s[i], s[i + 1])
}

/// All stores of the slice are usable.
pub open spec fn pdbs_wf(pdbs: Seq<PDB>) -> bool {
    forall|i: int| 0 <= i < pdbs.len() ==> (#[trigger] pdbs[i]).wf()
}

/// The heuristic never overestimates: on any legal cube, its value is at
/// most the length of any move sequence that solves that cube. Tables of
/// exact projected distances have this shape; so does any table of lower
/// bounds, down to all zeroes.
pub open spec fn pdbs_admissible(pdbs: Seq<PDB>) -> bool {
    forall|v: CubeV, q: Seq<Move>|
        #![trigger spec_max_heuristic(pdbs, v), v.apply_path(q)]
        v.wf() && (forall|i: int| 0 <= i < q.len() ==> (#[trigger] q[i]).wf()) && v.apply_path(
            q,
        ).is_solved() ==> spec_max_heuristic(pdbs, v) <= q.len()
}

/// `q` may continue the search path `prefix`: it is canonical on its own,
/// its first move may follow the prefix's last, and at the root it is not
/// the forbidden move.
pub open spec fn extends_ok(prefix: Seq<Move>, q: Seq<Move>, last_move_inv: Move) -> bool {
    &&& canonical_path(q)
    &&& (prefix.len() > 0 && q.len() > 0 ==> may_follow(prefix.last(), q[0]))
    &&& (prefix.len() == 0 && q.len() > 0 ==> q[0] != last_move_inv)
}

/// The cost the search assigns a candidate continuation: depth so far plus
/// its length, clamped upward to the scramble length.
pub open spec fn clamped_cost(g: int, len: int, scramble_len: int) -> int {
    if g + len > scramble_len {
        g + len
    } else {
        scramble_len
    }
}

/// The position of a face in the fixed search order.
pub open spec fn face_order_index(f: Face) -> int {
    match f {
        Face::U => 0,
        Face::R => 1,
        Face::F => 2,
        Face::L => 3,
        Face::B => 4,
        Face::D => 5,
    }
}

/// The position of a coefficient in the fixed search order.
pub open spec fn coeff_order_index(c: i32) -> int {
    if c == -1 {
        0
    } else if c == 1 {
        1
    } else {
        2
    }
}

/// The fixed face order of the search: `U R F L B D`.
pub open spec fn nth_face_spec(i: int) -> Face {
    if i == 0 {
        Face::U
    } else if i == 1 {
        Face::R
    } else if i == 2 {
        Face::F
    } else if i == 3 {
        Face::L
    } else if i == 4 {
        Face::B
    } else {
        Face::D
    }
}

/// Returns the `i`-th face of the search order.
fn nth_face(i: usize) -> (f: Face)
    ensures
        f == nth_face_spec(i as int),
{
    match i {
        0 => Face::U,
        1 => Face::R,
        2 => Face::F,
        3 => Face::L,
        4 => Face::B,
        _ => Face::D,
    }
}

/// Calculates the heuristic: the largest lower bound any store gives.
fn heuristic(cube: &Cube, pdbs: &[PDB]) -> (h: i32)
    requires
        cube.wf(),
        pdbs@.len() > 0,
        pdbs_wf(pdbs@),
    ensures
        h == spec_max_heuristic(pdbs@, cube@),
        0 <= h <= 255,
{
    get_max_heuristic(cube, pdbs)
}

/// The bounded depth-first search under one threshold.
///
/// Returns `-1` when a solution was found — the moves appended to `path`
/// then carry `node` to the solved cube within the threshold — and
/// otherwise the smallest estimated cost above the threshold among the
/// pruned branches, leaving `path` as it was. In the latter case, when the
/// stores are admissible, no legal continuation of clamped cost below the
/// returned estimate solves the node, which justifies raising the
/// threshold there.
fn search(
    node: &Cube,
    g: i32,
    threshold: i32,
    path: &mut Vec<Move>,
    last_move_inv: &Move,
    pdbs: &[PDB],
    scramble_len: i32,
) -> (t: i32)
    requires
        node.wf(),
        pdbs@.len() > 0,
        pdbs_wf(pdbs@),
        0 <= scramble_len <= threshold,
        0 <= g <= threshold + 1,
        threshold <= THRESHOLD_LIMIT,
        canonical_path(old(path)@),
    ensures
        t == -1 ==> {
            &&& old(path)@.len() <= final(path)@.len()
            &&& final(path)@.take(old(path)@.len() as int) == old(path)@
            &&& node@.apply_path(final(path)@.skip(old(path)@.len() as int)).is_solved()
            &&& canonical_path(final(path)@)
            &&& g + (final(path)@.len() - old(path)@.len()) <= threshold
            &&& (old(path)@.len() == 0 && final(path)@.len() > 0 ==> final(path)@[0]
                != *last_move_inv)
        },
        t != -1 ==> {
            &&& final(path)@ == old(path)@
            &&& threshold < t <= THRESHOLD_LIMIT + 256
            &&& (pdbs_admissible(pdbs@) ==> forall|q: Seq<Move>|
                extends_ok(old(path)@, q, *last_move_inv) && clamped_cost(
                    g as int,
                    q.len() as int,
                    scramble_len as int,
                ) < t ==> !(#[trigger] node@.apply_path(q)).is_solved())
        },
    decreases threshold + 1 - g,
{
    // Calculate the heuristic using the pattern databases.
    let h = heuristic(node, pdbs);

    // Total estimated cost, never less than the scramble length.
    let f = if g + h > scramble_len {
        g + h
    } else {
        scramble_len
    };

    // If the estimate exceeds the threshold then prune: with admissible
    // stores, nothing cheaper than this estimate can solve the node.
    if f > threshold {
        proof {
            if pdbs_admissible(pdbs@) {
                assert forall|q: Seq<Move>|
                    extends_ok(old(path)@, q, *last_move_inv) && clamped_cost(
                        g as int,
                        q.len() as int,
                        scramble_len as int,
                    ) < f implies !(#[trigger] node@.apply_path(q)).is_solved() by {
                    if node@.apply_path(q).is_solved() {
                        assert(spec_max_heuristic(pdbs@, node@) <= q.len());
                    }
                }
            }
        }
        return f;
    }

    // If solved, return to the top.
    if node.is_solved() {
        proof {
            assert(path@.skip(old(path)@.len() as int) =~= Seq::<Move>::empty());
            assert(path@.take(old(path)@.len() as int) =~= old(path)@);
        }
        return -1;
    }

    // The minimum pruned cost starts saturated.
    let mut min_cost: i32 = THRESHOLD_LIMIT + 256;

    // Check all moves, faces in fixed order, coefficients inside.
    let mut fi: usize = 0;
    while fi < 6
        invariant
            node.wf(),
            pdbs@.len() > 0,
            pdbs_wf(pdbs@),
            0 <= scramble_len <= threshold,
            0 <= g <= threshold,
            threshold <= THRESHOLD_LIMIT,
            canonical_path(path@),
            path@ == old(path)@,
            !node@.is_solved(),
            fi <= 6,
            threshold < min_cost <= THRESHOLD_LIMIT + 256,
            pdbs_admissible(pdbs@) ==> forall|q: Seq<Move>|
                extends_ok(old(path)@, q, *last_move_inv) && q.len() > 0 && face_order_index(
                    q[0].face,
                ) < fi && clamped_cost(g as int, q.len() as int, scramble_len as int) < min_cost
                    ==> !(#[trigger] node@.apply_path(q)).is_solved(),
        decreases 6 - fi,
    {
        let face = nth_face(fi);
        let ghost min_before_face = min_cost;

        // Prevent redundant moves: never the previous move's face, nor the
        // face opposite it.
        let mut skip_face = false;
        if path.len() > 0 {
            let prev = path[path.len() - 1];
            if face == prev.face || face == opposite_face(prev.face) {
                skip_face = true;
            }
        }
        proof {
            assert(skip_face ==> path@.len() > 0 && (face == path@.last().face || face
                == opposite_spec(path@.last().face)));
        }

        if !skip_face {
            let mut ci: usize = 0;
            while ci < 3
                invariant
                    node.wf(),
                    pdbs@.len() > 0,
                    pdbs_wf(pdbs@),
                    0 <= scramble_len <= threshold,
                    0 <= g <= threshold,
                    threshold <= THRESHOLD_LIMIT,
                    canonical_path(path@),
                    path@ == old(path)@,
                    !node@.is_solved(),
                    ci <= 3,
                    threshold < min_cost <= THRESHOLD_LIMIT + 256,
                    min_cost <= min_before_face,
                    fi < 6,
                    face == nth_face_spec(fi as int),
                    path@.len() > 0 ==> may_follow(path@.last(), Move { face, coeff: 2i32 }),
                    pdbs_admissible(pdbs@) ==> forall|q: Seq<Move>|
                        extends_ok(old(path)@, q, *last_move_inv) && q.len() > 0 && (
                        face_order_index(q[0].face) < fi || (q[0].face == face
                            && coeff_order_index(q[0].coeff) < ci)) && clamped_cost(
                            g as int,
                            q.len() as int,
                            scramble_len as int,
                        ) < min_cost ==> !(#[trigger] node@.apply_path(q)).is_solved(),
                decreases 3 - ci,
            {
                let coeff: i32 = if ci == 0 {
                    -1
                } else if ci == 1 {
                    1
                } else {
                    2
                };
                let ghost min_before = min_cost;

                // Prevent the first move being the inverse of the scramble.
                let root_forbidden = path.len() == 0 && face == last_move_inv.face && coeff
                    == last_move_inv.coeff;
                if !root_forbidden {
                    let mv = Move { face, coeff };

                    // Apply the move to a copy of the node.
                    let mut new_node = node.clone();
                    new_node.make_move(mv);

                    // Push to the path.
                    let ghost path_before = path@;
                    path.push(mv);
                    proof {
                        assert(path@.drop_last() =~= path_before);
                        assert forall|i: int| 0 <= i && i + 1 < path@.len() implies may_follow(
                            #[trigger] path@[i],
                            path@[i + 1],
                        ) by {
                            if i + 2 < path@.len() {
                                assert(path@[i] == path_before[i]);
                                assert(path@[i + 1] == path_before[i + 1]);
                            } else {
                                assert(path@[i] == path_before.last());
                            }
                        }
                    }

                    // Recursive search.
                    let t = search(
                        &new_node,
                        g + 1,
                        threshold,
                        path,
                        last_move_inv,
                        pdbs,
                        scramble_len,
                    );

                    // If found, go to the top.
                    if t == -1 {
                        proof {
                            let n = old(path)@.len() as int;
                            assert(path@.take(n) =~= old(path)@);
                            let suffix = path@.skip(n);
                            assert(suffix[0] == mv);
                            assert(suffix.skip(1) =~= path@.skip(n + 1));
                            assert(new_node@.apply_path(path@.skip(n + 1)).is_solved());
                            assert(node@.apply_move(mv) == new_node@);
                            assert(node@.apply_path(suffix) == node@.apply_move(
                                suffix[0],
                            ).apply_path(suffix.skip(1)));
                        }
                        return -1;
                    }

                    // Track the minimum cutoff cost.
                    if t < min_cost {
                        min_cost = t;
                    }

                    // Backtrack.
                    path.pop();
                    proof {
                        assert(path@ =~= old(path)@);
                        // A continuation starting with this move solves the
                        // node only if its tail solves the child, which the
                        // recursive call has ruled out below its estimate.
                        if pdbs_admissible(pdbs@) {
                            assert forall|q: Seq<Move>|
                                extends_ok(old(path)@, q, *last_move_inv) && q.len() > 0 && q[0]
                                == mv && clamped_cost(
                                g as int,
                                q.len() as int,
                                scramble_len as int,
                            ) < min_cost implies !(#[trigger] node@.apply_path(q)).is_solved() by {
                                let q2 = q.skip(1);
                                assert(extends_ok(path_before.push(mv), q2, *last_move_inv)) by {
                                    assert forall|i: int|
                                        0 <= i && i + 1 < q2.len() implies may_follow(
                                        #[trigger] q2[i],
                                        q2[i + 1],
                                    ) by {
                                        assert(q2[i] == q[i + 1]);
                                        assert(q2[i + 1] == q[i + 2]);
                                        assert(may_follow(q[i + 1], q[i + 2]));
                                    }
                                    assert(forall|i: int|
                                        0 <= i < q2.len() ==> (#[trigger] q2[i]) == q[i + 1]);
                                    if q2.len() > 0 {
                                        assert(may_follow(q[0], q[1]));
                                        assert(path_before.push(mv).last() == mv);
                                    }
                                }
                                assert(clamped_cost(
                                    g + 1 as int,
                                    q2.len() as int,
                                    scramble_len as int,
                                ) < t);
                                assert(!(new_node@.apply_path(q2)).is_solved());
                                assert(node@.apply_path(q) == node@.apply_move(q[0]).apply_path(
                                    q.skip(1),
                                ));
                            }
                        }
                    }
                }
                proof {
                    // Either the move was the forbidden root move — then no
                    // valid continuation starts with it — or the recursion
                    // has ruled its continuations out.
                    if pdbs_admissible(pdbs@) {
                        assert forall|q: Seq<Move>|
                            extends_ok(old(path)@, q, *last_move_inv) && q.len() > 0 && (
                            face_order_index(q[0].face) < fi || (q[0].face == face
                                && coeff_order_index(q[0].coeff) < ci + 1)) && clamped_cost(
                                g as int,
                                q.len() as int,
                                scramble_len as int,
                            ) < min_cost implies !(#[trigger] node@.apply_path(q)).is_solved() by {
                            if !(face_order_index(q[0].face) < fi) && q[0].face == face
                                && coeff_order_index(q[0].coeff) == ci {
                                assert(q[0].wf());
                                assert(q[0].coeff == coeff);
                                if root_forbidden {
                                    assert(old(path)@.len() == 0);
                                    assert(q[0] == *last_move_inv);
                                    assert(false);
                                }
                            } else {
                                assert(clamped_cost(
                                    g as int,
                                    q.len() as int,
                                    scramble_len as int,
                                ) < min_before);
                            }
                        }
                    }
                }
                ci = ci + 1;
            }
        } else {
            proof {
                // Both barred faces break the adjacency rule, so no valid
                // continuation starts with this face.
                if pdbs_admissible(pdbs@) {
                    assert forall|q: Seq<Move>|
                        extends_ok(old(path)@, q, *last_move_inv) && q.len() > 0 && (
                        face_order_index(q[0].face) < fi + 1) && clamped_cost(
                            g as int,
                            q.len() as int,
                            scramble_len as int,
                        ) < min_cost implies !(#[trigger] node@.apply_path(q)).is_solved() by {
                        if face_order_index(q[0].face) == fi {
                            assert(q[0].face == nth_face_spec(fi as int));
                            assert(!may_follow(old(path)@.last(), q[0]));
                        }
                    }
                }
            }
        }
        proof {
            if pdbs_admissible(pdbs@) {
                assert forall|q: Seq<Move>|
                    extends_ok(old(path)@, q, *last_move_inv) && q.len() > 0 && face_order_index(
                        q[0].face,
                    ) < fi + 1 && clamped_cost(g as int, q.len() as int, scramble_len as int)
                    < min_cost implies !(#[trigger] node@.apply_path(q)).is_solved() by {
                    if face_order_index(q[0].face) == fi {
                        assert(q[0].wf());
                        assert(q[0].face == nth_face_spec(fi as int));
                        assert(coeff_order_index(q[0].coeff) < 3);
                    } else {
                        assert(clamped_cost(g as int, q.len() as int, scramble_len as int)
                            < min_before_face);
                    }
                }
            }
        }
        fi = fi + 1;
    }

    proof {
        if pdbs_admissible(pdbs@) {
            assert forall|q: Seq<Move>|
                extends_ok(old(path)@, q, *last_move_inv) && clamped_cost(
                    g as int,
                    q.len() as int,
                    scramble_len as int,
                ) < min_cost implies !(#[trigger] node@.apply_path(q)).is_solved() by {
                if q.len() == 0 {
                    assert(node@.apply_path(q) == node@);
                } else {
                    assert(face_order_index(q[0].face) < 6);
                }
            }
        }
    }
    min_cost
}

/// Finds a path from the scrambled state back to the solved cube whose
/// first move is not `last_move_inv`.
///
/// Repeatedly deepens the bounded search, raising the threshold to the
/// smallest pruned estimate, until a path is found or the threshold space
/// is exhausted. A returned path solves the cube, is canonical (no move
/// repeats or opposes the face before it), and never starts with the
/// forbidden move; when the stores are admissible it also has the least
/// clamped cost `max(len, scramble_len)` any such path can have — in
/// particular it is no longer than any solution of length at least
/// `scramble_len`. `None` comes back only when, for admissible stores, no
/// canonical path below the threshold space's bound solves the cube at
/// all.
pub fn solve(cube: &Cube, last_move_inv: Move, pdb: &[PDB; 3], scramble_len: i32) -> (r: Option<
    Vec<Move>,
>)
    requires
        cube.wf(),
        pdbs_wf(pdb@),
        0 <= scramble_len < THRESHOLD_LIMIT,
    ensures
        match r {
            Some(path) => {
                &&& cube@.apply_path(path@).is_solved()
                &&& canonical_path(path@)
                &&& path@.len() > 0 ==> path@[0] != last_move_inv
                &&& (pdbs_admissible(pdb@) ==> forall|q: Seq<Move>|
                    extends_ok(Seq::<Move>::empty(), q, last_move_inv) && (
                    #[trigger] cube@.apply_path(q)).is_solved() ==> clamped_cost(
                        0,
                        path@.len() as int,
                        scramble_len as int,
                    ) <= clamped_cost(0, q.len() as int, scramble_len as int))
            },
            None => pdbs_admissible(pdb@) ==> forall|q: Seq<Move>|
                extends_ok(Seq::<Move>::empty(), q, last_move_inv) && q.len() < THRESHOLD_LIMIT
                    ==> !(#[trigger] cube@.apply_path(q)).is_solved(),
        },
{
    // The threshold is the minimum number of moves a solution can take.
    let h0 = heuristic(cube, pdb.as_slice());
    let mut threshold = if h0 > scramble_len {
        h0
    } else {
        scramble_len
    };
    proof {
        if pdbs_admissible(pdb@) {
            assert forall|q: Seq<Move>|
                extends_ok(Seq::<Move>::empty(), q, last_move_inv) && clamped_cost(
                    0,
                    q.len() as int,
                    scramble_len as int,
                ) < threshold implies !(#[trigger] cube@.apply_path(q)).is_solved() by {
                if cube@.apply_path(q).is_solved() {
                    assert(spec_max_heuristic(pdb@, cube@) <= q.len());
                }
            }
        }
    }

    // Start the recursion.
    let mut path: Vec<Move> = Vec::new();
    loop
        invariant
            cube.wf(),
            pdbs_wf(pdb@),
            0 <= scramble_len <= threshold,
            threshold <= THRESHOLD_LIMIT,
            path@ == Seq::<Move>::empty(),
            pdbs_admissible(pdb@) ==> forall|q: Seq<Move>|
                extends_ok(Seq::<Move>::empty(), q, last_move_inv) && clamped_cost(
                    0,
                    q.len() as int,
                    scramble_len as int,
                ) < threshold ==> !(#[trigger] cube@.apply_path(q)).is_solved(),
        decreases THRESHOLD_LIMIT - threshold,
    {
        let ghost threshold0 = threshold as int;
        let t = search(cube, 0, threshold, &mut path, &last_move_inv, pdb.as_slice(), scramble_len);

        // If t == -1, a path was found: it solves the cube at the least
        // clamped cost, since everything cheaper than the threshold was
        // ruled out before this round.
        if t == -1 {
            proof {
                assert(path@.skip(0) =~= path@);
                if pdbs_admissible(pdb@) {
                    assert forall|q: Seq<Move>|
                        extends_ok(Seq::<Move>::empty(), q, last_move_inv) && (
                        #[trigger] cube@.apply_path(q)).is_solved() implies clamped_cost(
                        0,
                        path@.len() as int,
                        scramble_len as int,
                    ) <= clamped_cost(0, q.len() as int, scramble_len as int) by {}
                }
            }
            return Some(path);
        }

        // When the threshold space saturates, there is no path to find.
        if t >= THRESHOLD_LIMIT {
            proof {
                if pdbs_admissible(pdb@) {
                    assert forall|q: Seq<Move>|
                        extends_ok(Seq::<Move>::empty(), q, last_move_inv) && q.len()
                        < THRESHOLD_LIMIT implies !(#[trigger] cube@.apply_path(q)).is_solved() by {
                        assert(clamped_cost(0, q.len() as int, scramble_len as int) < t);
                    }
                }
            }
            return None;
        }

        // Increase the threshold to the smallest pruned estimate: nothing
        // below it can be a solution.
        threshold = t;
    }
}

/// Law: when no sequence shorter than the scramble's length solves the
/// cube, any solution found is at least that long, since applying it to
/// the cube yields the solved state. (On a cube that is solvable in fewer
/// moves — for instance an already solved cube handed a positive
/// `scramble_len` — the search may return the shorter path, so such cubes
/// are left out here.)
pub proof fn lemma_solution_length(cube: CubeV, path: Seq<Move>, scramble_len: int)
    requires
        cube.apply_path(path).is_solved(),
        forall|q: Seq<Move>|
            q.len() < scramble_len ==> !(#[trigger] cube.apply_path(q)).is_solved(),
    ensures
        path.len() >= scramble_len,
{
    assert(cube.apply_path(path).is_solved());
}


/// Law: stores whose tables hold only zeroes are admissible — the
/// completeness and minimality clauses above are therefore satisfiable
/// hypotheses, met already by the weakest tables.
pub proof fn lemma_zero_tables_admissible(pdbs: Seq<PDB>)
    requires
        pdbs.len() > 0,
        forall|i: int|
            0 <= i < pdbs.len() ==> forall|x: int|
                0 <= x < (#[trigger] pdbs[i]).data_spec().len() ==> pdbs[i].data_spec()[x] == 0,
        forall|i: int| 0 <= i < pdbs.len() ==> (#[trigger] pdbs[i]).wf(),
    ensures
        pdbs_admissible(pdbs),
{
    assert forall|v: CubeV, q: Seq<Move>|
        v.wf() && (forall|i: int| 0 <= i < q.len() ==> (#[trigger] q[i]).wf()) && v.apply_path(
            q,
        ).is_solved() implies spec_max_heuristic(pdbs, v) <= q.len() by {
        assert forall|i: int|
            0 <= i < pdbs.len() implies (#[trigger] pdbs[i]).spec_heuristic(v) == 0 by {
            crate::pdb::lemma_projection_window_wf(
                v,
                pdbs[i].selector_spec(),
                pdbs[i].lo_spec(),
                pdbs[i].hi_spec(),
                pdbs[i].base_spec(),
            );
            crate::pdb::lemma_encode_bounds(
                crate::pdb::projection(v, pdbs[i].selector_spec(), pdbs[i].lo_spec(), pdbs[i].hi_spec()),
                pdbs[i].base_spec(),
            );
        }
        crate::pdb::lemma_max_heuristic_bounds(pdbs, v);
        let w = choose|i: int|
            0 <= i < pdbs.len() && spec_max_heuristic(pdbs, v) == (
            #[trigger] pdbs[i]).spec_heuristic(v);
    }
}

} // verus!
