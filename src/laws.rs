use vstd::prelude::*;
use crate::board::{lemma_permissions_match_grid, lemma_same_cells_same_permissions, same_permissions, Board};
use crate::grid::{
    after_move, col_holds, count_legal_upto, in_bounds, is_digit, lemma_place_consistent, legal_moves_at,
    legal_moves_at_upto, no_duplicates, place, placeable, row_holds, share_unit, square_holds, square_of,
};

verus! {

/// Writing into a cell the value it already holds leaves the board as it was.
/// For an empty cell that write is legal; a digit is refused, since the cell's
/// own row already holds it.
pub proof fn lemma_same_value_again(b: Board, after: Board, r: int, c: int)
    requires
        b.wf(),
        in_bounds(r),
        in_bounds(c),
        after.wf(),
        after.cells() == after_move(b.cells(), r, c, b.cells()[r][c]),
    ensures
        placeable(b.cells(), r, c, b.cells()[r][c]) <==> b.cells()[r][c] == 0,
        after.cells() == b.cells(),
        same_permissions(after, b),
{
    let g = b.cells();
    lemma_permissions_match_grid(b);
    if g[r][c] != 0 {
        assert(row_holds(g, r, g[r][c]));
    }
    assert(place(g, r, c, g[r][c]) =~~= g);
    lemma_same_cells_same_permissions(after, b);
}

/// Clearing a cell and then writing back the value it held restores the cells
/// and every permission flag.
pub proof fn lemma_clear_then_restore(b: Board, cleared: Board, restored: Board, r: int, c: int)
    requires
        b.wf(),
        in_bounds(r),
        in_bounds(c),
        cleared.wf(),
        cleared.cells() == after_move(b.cells(), r, c, 0),
        restored.wf(),
        restored.cells() == after_move(cleared.cells(), r, c, b.cells()[r][c]),
    ensures
        placeable(cleared.cells(), r, c, b.cells()[r][c]),
        restored.cells() == b.cells(),
        same_permissions(restored, b),
{
    let g = b.cells();
    let o = g[r][c];
    lemma_permissions_match_grid(b);
    lemma_place_consistent(g, r, c, 0);
    let h = place(g, r, c, 0);
    if o != 0 {
        assert(!row_holds(h, r, o));
        assert(!col_holds(h, c, o));
        assert(!square_holds(h, square_of(r, c), o));
    }
    assert(place(h, r, c, o) =~~= g);
    lemma_same_cells_same_permissions(restored, b);
}

/// No unit of a board holds a digit twice, and a move that would put a digit
/// into a unit that already holds it elsewhere is not legal.
pub proof fn lemma_duplicate_refused(b: Board, r: int, c: int, r2: int, c2: int)
    requires
        b.wf(),
        in_bounds(r),
        in_bounds(c),
        in_bounds(r2),
        in_bounds(c2),
        share_unit(r, c, r2, c2),
        is_digit(b.cells()[r2][c2]),
    ensures
        no_duplicates(b.cells()),
        !placeable(b.cells(), r, c, b.cells()[r2][c2]),
{
    let g = b.cells();
    let v = g[r2][c2];
    lemma_permissions_match_grid(b);
    if r == r2 {
        assert(row_holds(g, r, v));
    } else if c == c2 {
        assert(col_holds(g, c, v));
    } else {
        assert(square_holds(g, square_of(r, c), v));
    }
}

proof fn lemma_count_matches_list_upto(g: Seq<Seq<int>>, r: int, c: int, n: nat)
    ensures
        count_legal_upto(g, r, c, n) == legal_moves_at_upto(g, r, c, n).len(),
    decreases n,
{
    if n > 0 {
        lemma_count_matches_list_upto(g, r, c, (n - 1) as nat);
    }
}

/// The number of legal digits at a cell is the length of the list of its legal moves.
pub proof fn lemma_count_matches_list(g: Seq<Seq<int>>, r: int, c: int)
    ensures
        count_legal_upto(g, r, c, 9) == legal_moves_at(g, r, c).len(),
{
    lemma_count_matches_list_upto(g, r, c, 9);
}

} // verus!
