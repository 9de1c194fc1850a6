//! One step of a toroidal cellular-automaton board: a cell comes alive
//! with exactly three live neighbours, keeps its state with exactly two,
//! and dies otherwise. The board wraps around at its edges.

use vstd::prelude::*;

verus! {

/// The mathematical value of a board.
pub open spec fn board_view(b: Seq<Vec<usize>>) -> Seq<Seq<usize>> {
    b.map_values(|row: Vec<usize>| row@)
}

/// A well-formed board: square, non-empty, every cell `0` or `1`.
pub open spec fn board_wf(bv: Seq<Seq<usize>>) -> bool {
    &&& bv.len() > 0
    &&& forall|i: int| 0 <= i < bv.len() ==> (#[trigger] bv[i]).len() == bv.len()
    &&& forall|i: int, j: int|
        0 <= i < bv.len() && 0 <= j < bv.len() ==> (#[trigger] bv[i][j]) <= 1
}

/// The index `i` moved by `d - 1` (one step down, none, or one step up),
/// wrapped around a board of width `size`.
pub open spec fn wrap(i: int, d: int, size: int) -> int {
    (i + size + d - 1) % size
}

/// The neighbour cell of `(i, j)` in direction `(di - 1, dj - 1)`.
pub open spec fn nb(bv: Seq<Seq<usize>>, size: int, i: int, j: int, di: int, dj: int) -> int {
    bv[wrap(i, di, size)][wrap(j, dj, size)] as int
}

/// The number of live cells among the eight neighbours of `(i, j)`.
pub open spec fn neighbor_sum(bv: Seq<Seq<usize>>, i: int, j: int) -> int {
    let size = bv.len() as int;
    nb(bv, size, i, j, 0, 0) + nb(bv, size, i, j, 0, 1) + nb(bv, size, i, j, 0, 2) + nb(
        bv,
        size,
        i,
        j,
        1,
        0,
    ) + nb(bv, size, i, j, 1, 2) + nb(bv, size, i, j, 2, 0) + nb(bv, size, i, j, 2, 1) + nb(
        bv,
        size,
        i,
        j,
        2,
        2,
    )
}

/// The next state of cell `(i, j)`: alive with three live neighbours, dead
/// away from two or three, unchanged with two.
pub open spec fn life_rule(bv: Seq<Seq<usize>>, i: int, j: int) -> int {
    let s = neighbor_sum(bv, i, j);
    if s == 3 {
        1
    } else if s != 2 {
        0
    } else {
        bv[i][j] as int
    }
}

/// Index `i` moved by `d - 1`, wrapped around the board width.
fn wrap_exec(i: usize, d: usize, size: usize) -> (r: usize)
    requires
        0 < size,
        i < size,
        d <= 2,
        size <= usize::MAX / 2 - 2,
    ensures
        r as int == wrap(i as int, d as int, size as int),
        r < size,
{
    (i + size + d - 1) % size
}

/// The next state of the cell at `(i, j)`.
pub fn isitalive(old_board: &Vec<Vec<usize>>, i: usize, j: usize) -> (r: usize)
    requires
        board_wf(board_view(old_board@)),
        old_board@.len() <= usize::MAX / 2 - 2,
        i < old_board@.len(),
        j < old_board@.len(),
    ensures
        r as int == life_rule(board_view(old_board@), i as int, j as int),
        r <= 1,
{
    let ghost bv = board_view(old_board@);
    let size = old_board.len();

    let i0 = wrap_exec(i, 0, size);
    let i1 = wrap_exec(i, 1, size);
    let i2 = wrap_exec(i, 2, size);
    let j0 = wrap_exec(j, 0, size);
    let j1 = wrap_exec(j, 1, size);
    let j2 = wrap_exec(j, 2, size);
    proof {
        assert(bv[i0 as int] == old_board@[i0 as int]@);
        assert(bv[i1 as int] == old_board@[i1 as int]@);
        assert(bv[i2 as int] == old_board@[i2 as int]@);
        assert(bv[i0 as int].len() == size);
        assert(bv[i1 as int].len() == size);
        assert(bv[i2 as int].len() == size);
        assert(bv[i as int] == old_board@[i as int]@);
        assert(bv[i as int].len() == size);
    }
    let a00 = old_board[i0][j0];
    let a01 = old_board[i0][j1];
    let a02 = old_board[i0][j2];
    let a10 = old_board[i1][j0];
    let a12 = old_board[i1][j2];
    let a20 = old_board[i2][j0];
    let a21 = old_board[i2][j1];
    let a22 = old_board[i2][j2];
    proof {
        assert(a00 <= 1 && a01 <= 1 && a02 <= 1 && a10 <= 1 && a12 <= 1 && a20 <= 1 && a21 <= 1
            && a22 <= 1);
    }
    let sum = a00 + a01 + a02 + a10 + a12 + a20 + a21 + a22;
    if sum == 3 {
        1
    } else if sum != 2 {
        0
    } else {
        old_board[i][j]
    }
}

/// One full step of the board: every cell is replaced by its next state.
pub fn update(old_board: &Vec<Vec<usize>>) -> (r: Vec<Vec<usize>>)
    requires
        board_wf(board_view(old_board@)),
        old_board@.len() <= usize::MAX / 2 - 2,
    ensures
        board_view(r@).len() == board_view(old_board@).len(),
        forall|i: int| 0 <= i < r@.len() ==> (#[trigger] board_view(r@)[i]).len() == r@.len(),
        forall|i: int, j: int|
            0 <= i < r@.len() && 0 <= j < r@.len() ==> (#[trigger] board_view(r@)[i][j]) as int
                == life_rule(board_view(old_board@), i, j),
        board_wf(board_view(r@)),
{
    let ghost bv = board_view(old_board@);
    let size = old_board.len();
    let mut new_board: Vec<Vec<usize>> = Vec::new();
    let mut i: usize = 0;
    while i < size
        invariant
            size == old_board@.len(),
            bv == board_view(old_board@),
            board_wf(bv),
            size <= usize::MAX / 2 - 2,
            0 <= i <= size,
            new_board@.len() == i,
            forall|a: int|
                0 <= a < i ==> (#[trigger] board_view(new_board@)[a]).len() == size,
            forall|a: int, b: int|
                0 <= a < i && 0 <= b < size ==> (#[trigger] board_view(new_board@)[a][b]) as int
                    == life_rule(bv, a, b),
        decreases size - i,
    {
        let mut row: Vec<usize> = Vec::new();
        let mut j: usize = 0;
        while j < size
            invariant
                size == old_board@.len(),
                bv == board_view(old_board@),
                board_wf(bv),
                size <= usize::MAX / 2 - 2,
                0 <= i < size,
                0 <= j <= size,
                row@.len() == j,
                forall|b: int|
                    0 <= b < j ==> (#[trigger] row@[b]) as int == life_rule(bv, i as int, b),
            decreases size - j,
        {
            let c = isitalive(old_board, i, j);
            row.push(c);
            j = j + 1;
        }
        let ghost prev = board_view(new_board@);
        new_board.push(row);
        proof {
            assert(board_view(new_board@) =~= prev.push(row@));
        }
        i = i + 1;
    }
    proof {
        assert(board_wf(board_view(new_board@))) by {
            assert(forall|a: int, b: int|
                0 <= a < size && 0 <= b < size ==> life_rule(bv, a, b) <= 1);
        }
    }
    new_board
}

} // verus!
