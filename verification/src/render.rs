//! The sticker rendering of a cube: the colour every facelet shows.
//!
//! The cube state is an array of six 3x3 faces in the face enum's order.
//! Centres are fixed; each corner holds three stickers and each edge two,
//! at fixed cells of the grid, and a piece's orientation rotates its
//! colours around those cells. The caller prints the grid; building it is
//! pure computation on the piece arrays.

use vstd::prelude::*;

use crate::cube::{contains_pos, Cube, CubeV};

verus! {

/// The six 3x3 faces of the rendered cube, indexed in the face order
/// `U R F L B D`.
pub type CubeState = [[[char; 3]; 3]; 6];

/// The `k`-th colour of corner piece `i` (order `W R G` around the first
/// corner, and so on).
pub open spec fn corner_color_spec(i: int, k: int) -> char {
    if i == 0 && k == 0 {
        'W'
    } else if i == 0 && k == 1 {
        'R'
    } else if i == 0 && k == 2 {
        'G'
    } else if i == 1 && k == 0 {
        'W'
    } else if i == 1 && k == 1 {
        'G'
    } else if i == 1 && k == 2 {
        'O'
    } else if i == 2 && k == 0 {
        'Y'
    } else if i == 2 && k == 1 {
        'O'
    } else if i == 2 && k == 2 {
        'G'
    } else if i == 3 && k == 0 {
        'Y'
    } else if i == 3 && k == 1 {
        'G'
    } else if i == 3 && k == 2 {
        'R'
    } else if i == 4 && k == 0 {
        'W'
    } else if i == 4 && k == 1 {
        'B'
    } else if i == 4 && k == 2 {
        'R'
    } else if i == 5 && k == 0 {
        'W'
    } else if i == 5 && k == 1 {
        'O'
    } else if i == 5 && k == 2 {
        'B'
    } else if i == 6 && k == 0 {
        'Y'
    } else if i == 6 && k == 1 {
        'B'
    } else if i == 6 && k == 2 {
        'O'
    } else if i == 7 && k == 0 {
        'Y'
    } else if i == 7 && k == 1 {
        'R'
    } else if i == 7 && k == 2 {
        'B'
    } else {
        ' '
    }
}

/// Returns the `k`-th colour of corner piece `i`.
fn corner_color(i: usize, k: usize) -> (ch: char)
    requires
        i < 8,
        k < 3,
    ensures
        ch == corner_color_spec(i as int, k as int),
{
    match (i, k) {
        (0, 0) => 'W',
        (0, 1) => 'R',
        (0, 2) => 'G',
        (1, 0) => 'W',
        (1, 1) => 'G',
        (1, 2) => 'O',
        (2, 0) => 'Y',
        (2, 1) => 'O',
        (2, 2) => 'G',
        (3, 0) => 'Y',
        (3, 1) => 'G',
        (3, 2) => 'R',
        (4, 0) => 'W',
        (4, 1) => 'B',
        (4, 2) => 'R',
        (5, 0) => 'W',
        (5, 1) => 'O',
        (5, 2) => 'B',
        (6, 0) => 'Y',
        (6, 1) => 'B',
        (6, 2) => 'O',
        (7, 0) => 'Y',
        (7, 1) => 'R',
        (7, 2) => 'B',
        _ => ' ',
    }
}

/// The `k`-th colour of edge piece `i`.
pub open spec fn edge_color_spec(i: int, k: int) -> char {
    if i == 0 && k == 0 {
        'W'
    } else if i == 0 && k == 1 {
        'G'
    } else if i == 1 && k == 0 {
        'W'
    } else if i == 1 && k == 1 {
        'R'
    } else if i == 2 && k == 0 {
        'W'
    } else if i == 2 && k == 1 {
        'B'
    } else if i == 3 && k == 0 {
        'W'
    } else if i == 3 && k == 1 {
        'O'
    } else if i == 4 && k == 0 {
        'G'
    } else if i == 4 && k == 1 {
        'R'
    } else if i == 5 && k == 0 {
        'B'
    } else if i == 5 && k == 1 {
        'R'
    } else if i == 6 && k == 0 {
        'B'
    } else if i == 6 && k == 1 {
        'O'
    } else if i == 7 && k == 0 {
        'G'
    } else if i == 7 && k == 1 {
        'O'
    } else if i == 8 && k == 0 {
        'Y'
    } else if i == 8 && k == 1 {
        'G'
    } else if i == 9 && k == 0 {
        'Y'
    } else if i == 9 && k == 1 {
        'R'
    } else if i == 10 && k == 0 {
        'Y'
    } else if i == 10 && k == 1 {
        'B'
    } else if i == 11 && k == 0 {
        'Y'
    } else if i == 11 && k == 1 {
        'O'
    } else {
        ' '
    }
}

/// Returns the `k`-th colour of edge piece `i`.
fn edge_color(i: usize, k: usize) -> (ch: char)
    requires
        i < 12,
        k < 2,
    ensures
        ch == edge_color_spec(i as int, k as int),
{
    match (i, k) {
        (0, 0) => 'W',
        (0, 1) => 'G',
        (1, 0) => 'W',
        (1, 1) => 'R',
        (2, 0) => 'W',
        (2, 1) => 'B',
        (3, 0) => 'W',
        (3, 1) => 'O',
        (4, 0) => 'G',
        (4, 1) => 'R',
        (5, 0) => 'B',
        (5, 1) => 'R',
        (6, 0) => 'B',
        (6, 1) => 'O',
        (7, 0) => 'G',
        (7, 1) => 'O',
        (8, 0) => 'Y',
        (8, 1) => 'G',
        (9, 0) => 'Y',
        (9, 1) => 'R',
        (10, 0) => 'Y',
        (10, 1) => 'B',
        (11, 0) => 'Y',
        (11, 1) => 'O',
        _ => ' ',
    }
}

/// The corner piece sitting at position `p` (unique under the cube
/// invariant).
pub open spec fn corner_holder(v: CubeV, p: int) -> int {
    choose|i: int| 0 <= i < 8 && v.corners[i].pos == p
}

/// The edge piece sitting at position `p`.
pub open spec fn edge_holder(v: CubeV, p: int) -> int {
    choose|i: int| 0 <= i < 12 && v.edges[i].pos == p
}

/// Finds which corner piece is in the `pos` position.
fn find_corner(cube: &Cube, pos: usize) -> (i: usize)
    requires
        cube.wf(),
        pos < 8,
    ensures
        i < 8,
        cube@.corners[i as int].pos == pos,
        i as int == corner_holder(cube@, pos as int),
{
    let mut i: usize = 0;
    while i < 8
        invariant
            i <= 8,
            cube.wf(),
            pos < 8,
            forall|j: int| 0 <= j < i ==> (#[trigger] cube@.corners[j]).pos != pos,
        decreases 8 - i,
    {
        if cube.corners[i].pos == pos as i32 {
            proof {
                let h = corner_holder(cube@, pos as int);
                assert(contains_pos(cube@.corners, pos as int));
                assert(cube@.corners[h].pos == pos);
            }
            return i;
        }
        i = i + 1;
    }
    proof {
        assert(contains_pos(cube@.corners, pos as int));
    }
    0
}

/// Finds which edge piece is in the `pos` position.
fn find_edge(cube: &Cube, pos: usize) -> (i: usize)
    requires
        cube.wf(),
        pos < 12,
    ensures
        i < 12,
        cube@.edges[i as int].pos == pos,
        i as int == edge_holder(cube@, pos as int),
{
    let mut i: usize = 0;
    while i < 12
        invariant
            i <= 12,
            cube.wf(),
            pos < 12,
            forall|j: int| 0 <= j < i ==> (#[trigger] cube@.edges[j]).pos != pos,
        decreases 12 - i,
    {
        if cube.edges[i].pos == pos as i32 {
            proof {
                let h = edge_holder(cube@, pos as int);
                assert(contains_pos(cube@.edges, pos as int));
                assert(cube@.edges[h].pos == pos);
            }
            return i;
        }
        i = i + 1;
    }
    proof {
        assert(contains_pos(cube@.edges, pos as int));
    }
    0
}

/// The colour the `k`-th sticker cell of corner position `p` shows: the
/// piece sitting there contributes its colours rotated by its orientation.
pub open spec fn corner_cell_spec(v: CubeV, p: int, k: int) -> char {
    corner_color_spec(corner_holder(v, p), (k + v.corners[corner_holder(v, p)].ori) % 3)
}

/// The colour the `k`-th sticker cell of edge position `p` shows.
pub open spec fn edge_cell_spec(v: CubeV, p: int, k: int) -> char {
    edge_color_spec(edge_holder(v, p), (k + v.edges[edge_holder(v, p)].ori) % 2)
}

/// Computes the colour of one corner sticker cell.
fn corner_cell(cube: &Cube, p: usize, k: usize) -> (ch: char)
    requires
        cube.wf(),
        p < 8,
        k < 3,
    ensures
        ch == corner_cell_spec(cube@, p as int, k as int),
{
    let i = find_corner(cube, p);
    corner_color(i, (k + (cube.corners[i].ori as usize)) % 3)
}

/// Computes the colour of one edge sticker cell.
fn edge_cell(cube: &Cube, p: usize, k: usize) -> (ch: char)
    requires
        cube.wf(),
        p < 12,
        k < 2,
    ensures
        ch == edge_cell_spec(cube@, p as int, k as int),
{
    let i = find_edge(cube, p);
    edge_color(i, (k + (cube.edges[i].ori as usize)) % 2)
}

/// The colour of cell `(r, c)` of face `f`: the fixed centre on the middle
/// cell, and the sticker of the corner or edge position that owns the cell
/// otherwise (each of the 54 cells is owned by exactly one centre, corner
/// sticker or edge sticker).
pub open spec fn cell_color_spec(v: CubeV, f: int, r: int, c: int) -> char {
    if f == 0 && r == 0 && c == 0 {
        corner_cell_spec(v, 5, 0)
    } else if f == 0 && r == 0 && c == 1 {
        edge_cell_spec(v, 2, 0)
    } else if f == 0 && r == 0 && c == 2 {
        corner_cell_spec(v, 4, 0)
    } else if f == 0 && r == 1 && c == 0 {
        edge_cell_spec(v, 3, 0)
    } else if f == 0 && r == 1 && c == 1 {
        'W'
    } else if f == 0 && r == 1 && c == 2 {
        edge_cell_spec(v, 1, 0)
    } else if f == 0 && r == 2 && c == 0 {
        corner_cell_spec(v, 1, 0)
    } else if f == 0 && r == 2 && c == 1 {
        edge_cell_spec(v, 0, 0)
    } else if f == 0 && r == 2 && c == 2 {
        corner_cell_spec(v, 0, 0)
    } else if f == 1 && r == 0 && c == 0 {
        corner_cell_spec(v, 0, 1)
    } else if f == 1 && r == 0 && c == 1 {
        edge_cell_spec(v, 1, 1)
    } else if f == 1 && r == 0 && c == 2 {
        corner_cell_spec(v, 4, 2)
    } else if f == 1 && r == 1 && c == 0 {
        edge_cell_spec(v, 4, 1)
    } else if f == 1 && r == 1 && c == 1 {
        'R'
    } else if f == 1 && r == 1 && c == 2 {
        edge_cell_spec(v, 5, 1)
    } else if f == 1 && r == 2 && c == 0 {
        corner_cell_spec(v, 3, 2)
    } else if f == 1 && r == 2 && c == 1 {
        edge_cell_spec(v, 9, 1)
    } else if f == 1 && r == 2 && c == 2 {
        corner_cell_spec(v, 7, 1)
    } else if f == 2 && r == 0 && c == 0 {
        corner_cell_spec(v, 1, 1)
    } else if f == 2 && r == 0 && c == 1 {
        edge_cell_spec(v, 0, 1)
    } else if f == 2 && r == 0 && c == 2 {
        corner_cell_spec(v, 0, 2)
    } else if f == 2 && r == 1 && c == 0 {
        edge_cell_spec(v, 7, 0)
    } else if f == 2 && r == 1 && c == 1 {
        'G'
    } else if f == 2 && r == 1 && c == 2 {
        edge_cell_spec(v, 4, 0)
    } else if f == 2 && r == 2 && c == 0 {
        corner_cell_spec(v, 2, 2)
    } else if f == 2 && r == 2 && c == 1 {
        edge_cell_spec(v, 8, 1)
    } else if f == 2 && r == 2 && c == 2 {
        corner_cell_spec(v, 3, 1)
    } else if f == 3 && r == 0 && c == 0 {
        corner_cell_spec(v, 5, 1)
    } else if f == 3 && r == 0 && c == 1 {
        edge_cell_spec(v, 3, 1)
    } else if f == 3 && r == 0 && c == 2 {
        corner_cell_spec(v, 1, 2)
    } else if f == 3 && r == 1 && c == 0 {
        edge_cell_spec(v, 6, 1)
    } else if f == 3 && r == 1 && c == 1 {
        'O'
    } else if f == 3 && r == 1 && c == 2 {
        edge_cell_spec(v, 7, 1)
    } else if f == 3 && r == 2 && c == 0 {
        corner_cell_spec(v, 6, 2)
    } else if f == 3 && r == 2 && c == 1 {
        edge_cell_spec(v, 11, 1)
    } else if f == 3 && r == 2 && c == 2 {
        corner_cell_spec(v, 2, 1)
    } else if f == 4 && r == 0 && c == 0 {
        corner_cell_spec(v, 4, 1)
    } else if f == 4 && r == 0 && c == 1 {
        edge_cell_spec(v, 2, 1)
    } else if f == 4 && r == 0 && c == 2 {
        corner_cell_spec(v, 5, 2)
    } else if f == 4 && r == 1 && c == 0 {
        edge_cell_spec(v, 5, 0)
    } else if f == 4 && r == 1 && c == 1 {
        'B'
    } else if f == 4 && r == 1 && c == 2 {
        edge_cell_spec(v, 6, 0)
    } else if f == 4 && r == 2 && c == 0 {
        corner_cell_spec(v, 7, 2)
    } else if f == 4 && r == 2 && c == 1 {
        edge_cell_spec(v, 10, 1)
    } else if f == 4 && r == 2 && c == 2 {
        corner_cell_spec(v, 6, 1)
    } else if f == 5 && r == 0 && c == 0 {
        corner_cell_spec(v, 2, 0)
    } else if f == 5 && r == 0 && c == 1 {
        edge_cell_spec(v, 8, 0)
    } else if f == 5 && r == 0 && c == 2 {
        corner_cell_spec(v, 3, 0)
    } else if f == 5 && r == 1 && c == 0 {
        edge_cell_spec(v, 11, 0)
    } else if f == 5 && r == 1 && c == 1 {
        'Y'
    } else if f == 5 && r == 1 && c == 2 {
        edge_cell_spec(v, 9, 0)
    } else if f == 5 && r == 2 && c == 0 {
        corner_cell_spec(v, 6, 0)
    } else if f == 5 && r == 2 && c == 1 {
        edge_cell_spec(v, 10, 0)
    } else if f == 5 && r == 2 && c == 2 {
        corner_cell_spec(v, 7, 0)
    } else {
        ' '
    }
}

/// Computes the colour of one cell of the rendered state.
fn cell_color(cube: &Cube, f: usize, r: usize, c: usize) -> (ch: char)
    requires
        cube.wf(),
        f < 6,
        r < 3,
        c < 3,
    ensures
        ch == cell_color_spec(cube@, f as int, r as int, c as int),
{
    match (f, r, c) {
        (0, 0, 0) => corner_cell(cube, 5, 0),
        (0, 0, 1) => edge_cell(cube, 2, 0),
        (0, 0, 2) => corner_cell(cube, 4, 0),
        (0, 1, 0) => edge_cell(cube, 3, 0),
        (0, 1, 1) => 'W',
        (0, 1, 2) => edge_cell(cube, 1, 0),
        (0, 2, 0) => corner_cell(cube, 1, 0),
        (0, 2, 1) => edge_cell(cube, 0, 0),
        (0, 2, 2) => corner_cell(cube, 0, 0),
        (1, 0, 0) => corner_cell(cube, 0, 1),
        (1, 0, 1) => edge_cell(cube, 1, 1),
        (1, 0, 2) => corner_cell(cube, 4, 2),
        (1, 1, 0) => edge_cell(cube, 4, 1),
        (1, 1, 1) => 'R',
        (1, 1, 2) => edge_cell(cube, 5, 1),
        (1, 2, 0) => corner_cell(cube, 3, 2),
        (1, 2, 1) => edge_cell(cube, 9, 1),
        (1, 2, 2) => corner_cell(cube, 7, 1),
        (2, 0, 0) => corner_cell(cube, 1, 1),
        (2, 0, 1) => edge_cell(cube, 0, 1),
        (2, 0, 2) => corner_cell(cube, 0, 2),
        (2, 1, 0) => edge_cell(cube, 7, 0),
        (2, 1, 1) => 'G',
        (2, 1, 2) => edge_cell(cube, 4, 0),
        (2, 2, 0) => corner_cell(cube, 2, 2),
        (2, 2, 1) => edge_cell(cube, 8, 1),
        (2, 2, 2) => corner_cell(cube, 3, 1),
        (3, 0, 0) => corner_cell(cube, 5, 1),
        (3, 0, 1) => edge_cell(cube, 3, 1),
        (3, 0, 2) => corner_cell(cube, 1, 2),
        (3, 1, 0) => edge_cell(cube, 6, 1),
        (3, 1, 1) => 'O',
        (3, 1, 2) => edge_cell(cube, 7, 1),
        (3, 2, 0) => corner_cell(cube, 6, 2),
        (3, 2, 1) => edge_cell(cube, 11, 1),
        (3, 2, 2) => corner_cell(cube, 2, 1),
        (4, 0, 0) => corner_cell(cube, 4, 1),
        (4, 0, 1) => edge_cell(cube, 2, 1),
        (4, 0, 2) => corner_cell(cube, 5, 2),
        (4, 1, 0) => edge_cell(cube, 5, 0),
        (4, 1, 1) => 'B',
        (4, 1, 2) => edge_cell(cube, 6, 0),
        (4, 2, 0) => corner_cell(cube, 7, 2),
        (4, 2, 1) => edge_cell(cube, 10, 1),
        (4, 2, 2) => corner_cell(cube, 6, 1),
        (5, 0, 0) => corner_cell(cube, 2, 0),
        (5, 0, 1) => edge_cell(cube, 8, 0),
        (5, 0, 2) => corner_cell(cube, 3, 0),
        (5, 1, 0) => edge_cell(cube, 11, 0),
        (5, 1, 1) => 'Y',
        (5, 1, 2) => edge_cell(cube, 9, 0),
        (5, 2, 0) => corner_cell(cube, 6, 0),
        (5, 2, 1) => edge_cell(cube, 10, 0),
        (5, 2, 2) => corner_cell(cube, 7, 0),
        _ => ' ',
    }
}

/// Renders the cube as six 3x3 faces of colour characters.
pub fn fill_state(cube: &Cube) -> (state: CubeState)
    requires
        cube.wf(),
    ensures
        forall|f: int, r: int, c: int|
            0 <= f < 6 && 0 <= r < 3 && 0 <= c < 3 ==> #[trigger] state@[f]@[r]@[c]
                == cell_color_spec(cube@, f, r, c),
{
    let mut state: CubeState = [[[' '; 3]; 3]; 6];
    let mut f: usize = 0;
    while f < 6
        invariant
            f <= 6,
            cube.wf(),
            forall|f2: int, r2: int, c2: int|
                0 <= f2 < f && 0 <= r2 < 3 && 0 <= c2 < 3 ==> #[trigger] state@[f2]@[r2]@[c2]
                    == cell_color_spec(cube@, f2, r2, c2),
        decreases 6 - f,
    {
        let mut r: usize = 0;
        while r < 3
            invariant
                f < 6,
                r <= 3,
                cube.wf(),
                forall|f2: int, r2: int, c2: int|
                    0 <= f2 < f && 0 <= r2 < 3 && 0 <= c2 < 3 ==> #[trigger] state@[f2]@[r2]@[c2]
                        == cell_color_spec(cube@, f2, r2, c2),
                forall|r2: int, c2: int|
                    0 <= r2 < r && 0 <= c2 < 3 ==> #[trigger] state@[f as int]@[r2]@[c2]
                        == cell_color_spec(cube@, f as int, r2, c2),
            decreases 3 - r,
        {
            let mut c: usize = 0;
            while c < 3
                invariant
                    f < 6,
                    r < 3,
                    c <= 3,
                    cube.wf(),
                    forall|f2: int, r2: int, c2: int|
                        0 <= f2 < f && 0 <= r2 < 3 && 0 <= c2 < 3 ==> #[trigger] state@[f2]@[r2]@[c2]
                            == cell_color_spec(cube@, f2, r2, c2),
                    forall|r2: int, c2: int|
                        0 <= r2 < r && 0 <= c2 < 3 ==> #[trigger] state@[f as int]@[r2]@[c2]
                            == cell_color_spec(cube@, f as int, r2, c2),
                    forall|c2: int|
                        0 <= c2 < c ==> #[trigger] state@[f as int]@[r as int]@[c2]
                            == cell_color_spec(cube@, f as int, r as int, c2),
                decreases 3 - c,
            {
                state[f][r][c] = cell_color(cube, f, r, c);
                c = c + 1;
            }
            r = r + 1;
        }
        f = f + 1;
    }
    state
}

} // verus!
