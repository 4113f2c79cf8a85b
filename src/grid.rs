use vstd::prelude::*;

verus! {

/// Index of the 3x3 square that holds cell (r, c).
pub open spec fn square_of(r: int, c: int) -> int {
    3 * (r / 3) + c / 3
}

pub open spec fn in_bounds(i: int) -> bool {
    0 <= i < 9
}

pub open spec fn is_digit(d: int) -> bool {
    1 <= d <= 9
}

/// A 9x9 grid of cell values, 0 meaning empty.
pub open spec fn is_grid(g: Seq<Seq<int>>) -> bool {
    &&& g.len() == 9
    &&& forall|r: int| 0 <= r < 9 ==> (#[trigger] g[r]).len() == 9
    &&& forall|r: int, c: int| in_bounds(r) && in_bounds(c) ==> 0 <= #[trigger] g[r][c] <= 9
}

/// Two distinct cells that lie in one row, one column or one square.
pub open spec fn share_unit(r1: int, c1: int, r2: int, c2: int) -> bool {
    &&& r1 != r2 || c1 != c2
    &&& r1 == r2 || c1 == c2 || square_of(r1, c1) == square_of(r2, c2)
}

/// No digit appears twice in a row, a column or a square.
pub open spec fn no_duplicates(g: Seq<Seq<int>>) -> bool {
    forall|r1: int, c1: int, r2: int, c2: int|
        in_bounds(r1) && in_bounds(c1) && in_bounds(r2) && in_bounds(c2) && share_unit(r1, c1, r2, c2)
            && #[trigger] g[r1][c1] != 0 ==> g[r1][c1] != #[trigger] g[r2][c2]
}

pub open spec fn consistent(g: Seq<Seq<int>>) -> bool {
    is_grid(g) && no_duplicates(g)
}

pub open spec fn row_holds(g: Seq<Seq<int>>, u: int, d: int) -> bool {
    exists|c: int| 0 <= c < 9 && #[trigger] g[u][c] == d
}

pub open spec fn col_holds(g: Seq<Seq<int>>, u: int, d: int) -> bool {
    exists|r: int| 0 <= r < 9 && #[trigger] g[r][u] == d
}

pub open spec fn square_holds(g: Seq<Seq<int>>, u: int, d: int) -> bool {
    exists|r: int, c: int| in_bounds(r) && in_bounds(c) && square_of(r, c) == u && #[trigger] g[r][c] == d
}

/// Value `d` may be written at (r, c): clearing always may, a digit only where
/// its row, column and square do not hold it yet.
pub open spec fn placeable(g: Seq<Seq<int>>, r: int, c: int, d: int) -> bool {
    d == 0 || (!row_holds(g, r, d) && !col_holds(g, c, d) && !square_holds(g, square_of(r, c), d))
}

pub open spec fn place(g: Seq<Seq<int>>, r: int, c: int, v: int) -> Seq<Seq<int>> {
    g.update(r, g[r].update(c, v))
}

/// The grid after an attempt to write `v` at (r, c): written if placeable, else unchanged.
pub open spec fn after_move(g: Seq<Seq<int>>, r: int, c: int, v: int) -> Seq<Seq<int>> {
    if placeable(g, r, c, v) {
        place(g, r, c, v)
    } else {
        g
    }
}

pub open spec fn empty_grid() -> Seq<Seq<int>> {
    Seq::new(9, |r: int| Seq::new(9, |c: int| 0int))
}

/// The empty grid after attempting the first `k` cells of `input`, in row-major order.
pub open spec fn replay(input: Seq<Seq<int>>, k: nat) -> Seq<Seq<int>>
    decreases k,
{
    if k == 0 {
        empty_grid()
    } else {
        let r = (k - 1) / 9;
        let c = (k - 1) % 9;
        after_move(replay(input, (k - 1) as nat), r, c, input[r][c])
    }
}

/// How many of the digits 1..=n are placeable at (r, c).
pub open spec fn count_legal_upto(g: Seq<Seq<int>>, r: int, c: int, n: nat) -> nat
    decreases n,
{
    if n == 0 {
        0
    } else {
        count_legal_upto(g, r, c, (n - 1) as nat) + if placeable(g, r, c, n as int) {
            1nat
        } else {
            0nat
        }
    }
}

/// The moves (r, c, d) with d among 1..=n placeable at (r, c), by ascending digit.
pub open spec fn legal_moves_at_upto(g: Seq<Seq<int>>, r: int, c: int, n: nat) -> Seq<(int, int, int)>
    decreases n,
{
    if n == 0 {
        seq![]
    } else {
        let s = legal_moves_at_upto(g, r, c, (n - 1) as nat);
        if placeable(g, r, c, n as int) {
            s.push((r, c, n as int))
        } else {
            s
        }
    }
}

pub open spec fn legal_moves_at(g: Seq<Seq<int>>, r: int, c: int) -> Seq<(int, int, int)> {
    legal_moves_at_upto(g, r, c, 9)
}

/// The legal moves of the first `k` cells in row-major order, one cell after another.
pub open spec fn legal_moves_upto(g: Seq<Seq<int>>, k: nat) -> Seq<(int, int, int)>
    decreases k,
{
    if k == 0 {
        seq![]
    } else {
        legal_moves_upto(g, (k - 1) as nat) + legal_moves_at(g, (k - 1) / 9, (k - 1) % 9)
    }
}

pub proof fn lemma_empty_grid_consistent()
    ensures
        consistent(empty_grid()),
        forall|u: int, d: int|
            in_bounds(u) && is_digit(d) ==> !row_holds(empty_grid(), u, d) && !col_holds(empty_grid(), u, d)
                && !square_holds(empty_grid(), u, d),
{
    let g = empty_grid();
    assert forall|r: int, c: int| in_bounds(r) && in_bounds(c) implies #[trigger] g[r][c] == 0 by {}
}

/// Writing a placeable value keeps a consistent grid consistent; the unit of
/// (r, c) gains `v` and loses the value that stood there, every other unit is unchanged.
pub proof fn lemma_place_consistent(g: Seq<Seq<int>>, r: int, c: int, v: int)
    requires
        consistent(g),
        in_bounds(r),
        in_bounds(c),
        0 <= v <= 9,
        placeable(g, r, c, v),
    ensures
        consistent(place(g, r, c, v)),
        forall|u: int, d: int|
            in_bounds(u) && is_digit(d) ==> #[trigger] row_holds(place(g, r, c, v), u, d) == if u
                == r && d == v {
                true
            } else if u == r && d == g[r][c] {
                false
            } else {
                row_holds(g, u, d)
            },
        forall|u: int, d: int|
            in_bounds(u) && is_digit(d) ==> #[trigger] col_holds(place(g, r, c, v), u, d) == if u
                == c && d == v {
                true
            } else if u == c && d == g[r][c] {
                false
            } else {
                col_holds(g, u, d)
            },
        forall|u: int, d: int|
            in_bounds(u) && is_digit(d) ==> #[trigger] square_holds(place(g, r, c, v), u, d) == if u
                == square_of(r, c) && d == v {
                true
            } else if u == square_of(r, c) && d == g[r][c] {
                false
            } else {
                square_holds(g, u, d)
            },
{
    let h = place(g, r, c, v);
    let o = g[r][c];
    assert forall|r2: int, c2: int| in_bounds(r2) && in_bounds(c2) implies #[trigger] h[r2][c2] == if r2
        == r && c2 == c {
        v
    } else {
        g[r2][c2]
    } by {}
    assert(is_grid(h));
    assert forall|r1: int, c1: int, r2: int, c2: int|
        in_bounds(r1) && in_bounds(c1) && in_bounds(r2) && in_bounds(c2) && share_unit(r1, c1, r2, c2)
            && #[trigger] h[r1][c1] != 0 implies h[r1][c1] != #[trigger] h[r2][c2] by {
        if r1 == r && c1 == c {
            if r2 == r {
                assert(!row_holds(g, r, v));
            } else if c2 == c {
                assert(!col_holds(g, c, v));
            } else {
                assert(!square_holds(g, square_of(r, c), v));
            }
        } else if r2 == r && c2 == c && v != 0 {
            if r1 == r {
                assert(!row_holds(g, r, v));
            } else if c1 == c {
                assert(!col_holds(g, c, v));
            } else {
                assert(!square_holds(g, square_of(r, c), v));
            }
        }
    }
    assert forall|u: int, d: int| in_bounds(u) && is_digit(d) implies #[trigger] row_holds(h, u, d)
        == if u == r && d == v {
        true
    } else if u == r && d == o {
        false
    } else {
        row_holds(g, u, d)
    } by {
        if u == r && d == v {
            assert(h[r][c] == v);
        } else if u == r && d == o {
            if row_holds(h, u, d) {
                let c2 = choose|c2: int| 0 <= c2 < 9 && #[trigger] h[u][c2] == d;
                assert(g[r][c2] == o);
            }
        } else {
            if row_holds(h, u, d) {
                let c2 = choose|c2: int| 0 <= c2 < 9 && #[trigger] h[u][c2] == d;
                assert(g[u][c2] == d);
            }
            if row_holds(g, u, d) {
                let c2 = choose|c2: int| 0 <= c2 < 9 && #[trigger] g[u][c2] == d;
                assert(h[u][c2] == d);
            }
        }
    }
    assert forall|u: int, d: int| in_bounds(u) && is_digit(d) implies #[trigger] col_holds(h, u, d)
        == if u == c && d == v {
        true
    } else if u == c && d == o {
        false
    } else {
        col_holds(g, u, d)
    } by {
        if u == c && d == v {
            assert(h[r][c] == v);
        } else if u == c && d == o {
            if col_holds(h, u, d) {
                let r2 = choose|r2: int| 0 <= r2 < 9 && #[trigger] h[r2][u] == d;
                assert(g[r2][c] == o);
            }
        } else {
            if col_holds(h, u, d) {
                let r2 = choose|r2: int| 0 <= r2 < 9 && #[trigger] h[r2][u] == d;
                assert(g[r2][u] == d);
            }
            if col_holds(g, u, d) {
                let r2 = choose|r2: int| 0 <= r2 < 9 && #[trigger] g[r2][u] == d;
                assert(h[r2][u] == d);
            }
        }
    }
    assert forall|u: int, d: int| in_bounds(u) && is_digit(d) implies #[trigger] square_holds(h, u, d)
        == if u == square_of(r, c) && d == v {
        true
    } else if u == square_of(r, c) && d == o {
        false
    } else {
        square_holds(g, u, d)
    } by {
        if u == square_of(r, c) && d == v {
            assert(h[r][c] == v);
        } else if u == square_of(r, c) && d == o {
            if square_holds(h, u, d) {
                let (r2, c2) = choose|r2: int, c2: int|
                    in_bounds(r2) && in_bounds(c2) && square_of(r2, c2) == u && #[trigger] h[r2][c2] == d;
                assert(g[r2][c2] == o);
            }
        } else {
            if square_holds(h, u, d) {
                let (r2, c2) = choose|r2: int, c2: int|
                    in_bounds(r2) && in_bounds(c2) && square_of(r2, c2) == u && #[trigger] h[r2][c2] == d;
                assert(g[r2][c2] == d);
            }
            if square_holds(g, u, d) {
                let (r2, c2) = choose|r2: int, c2: int|
                    in_bounds(r2) && in_bounds(c2) && square_of(r2, c2) == u && #[trigger] g[r2][c2] == d;
                assert(h[r2][c2] == d);
            }
        }
    }
}

} // verus!
