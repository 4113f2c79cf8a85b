use vstd::prelude::*;
use crate::grid::{
    after_move, consistent, count_legal_upto, empty_grid, in_bounds, is_digit, lemma_empty_grid_consistent,
    lemma_place_consistent, legal_moves_at, legal_moves_at_upto, legal_moves_upto,
    place, placeable, replay, row_holds, col_holds, square_holds, square_of,
};

verus! {

/// Why a coordinate, a move or a grid was refused.
#[derive(Debug, Clone, Copy, PartialEq, Eq, Structural)]
pub enum InputError {
    /// A row or column outside 0..9.
    CoordOutOfRange,
    /// A cell value outside 0..=9.
    ValueOutOfRange,
}

/// A cell position; row and column always lie in 0..9.
#[derive(Clone, Copy)]
pub struct Coord {
    row: i8,
    col: i8,
}

impl Coord {
    #[verifier::type_invariant]
    spec fn inv(self) -> bool {
        in_bounds(self.row as int) && in_bounds(self.col as int)
    }

    pub closed spec fn row(self) -> int {
        self.row as int
    }

    pub closed spec fn col(self) -> int {
        self.col as int
    }

    pub fn new(row: i8, col: i8) -> (res: Result<Coord, InputError>)
        ensures
            res is Ok <==> in_bounds(row as int) && in_bounds(col as int),
            res matches Ok(c) ==> c.row() == row && c.col() == col,
            res matches Err(e) ==> e == InputError::CoordOutOfRange,
    {
        if 0 <= row && row < 9 && 0 <= col && col < 9 {
            Ok(Coord { row, col })
        } else {
            Err(InputError::CoordOutOfRange)
        }
    }

    pub fn to_row(&self) -> (r: i8)
        ensures
            r == self.row(),
            in_bounds(r as int),
    {
        proof {
            use_type_invariant(self);
        }
        self.row
    }

    pub fn to_col(&self) -> (c: i8)
        ensures
            c == self.col(),
            in_bounds(c as int),
    {
        proof {
            use_type_invariant(self);
        }
        self.col
    }

    pub fn to_square(&self) -> (s: i8)
        ensures
            s == square_of(self.row(), self.col()),
            in_bounds(s as int),
    {
        proof {
            use_type_invariant(self);
        }
        let r_major = (self.row - self.row % 3) / 3;
        let c_major = (self.col - self.col % 3) / 3;
        3 * r_major + c_major
    }
}

/// An intended write of `value` (0 clears) at a coordinate; the value always lies in 0..=9.
#[derive(Clone, Copy)]
pub struct Move {
    coord: Coord,
    new_value: i8,
}

impl Move {
    #[verifier::type_invariant]
    spec fn inv(self) -> bool {
        0 <= self.new_value <= 9
    }

    pub closed spec fn row(self) -> int {
        self.coord.row()
    }

    pub closed spec fn col(self) -> int {
        self.coord.col()
    }

    pub closed spec fn value(self) -> int {
        self.new_value as int
    }

    pub fn new(row: i8, col: i8, val: i8) -> (res: Result<Move, InputError>)
        ensures
            res is Ok <==> in_bounds(row as int) && in_bounds(col as int) && 0 <= val <= 9,
            res matches Ok(m) ==> m@ == (row as int, col as int, val as int),
            res matches Err(e) ==> e == if in_bounds(row as int) && in_bounds(col as int) {
                InputError::ValueOutOfRange
            } else {
                InputError::CoordOutOfRange
            },
    {
        match Coord::new(row, col) {
            Ok(coord) => Move::new_from_coord_and_value(coord, val),
            Err(e) => Err(e),
        }
    }

    pub fn new_from_coord_and_value(coord: Coord, val: i8) -> (res: Result<Move, InputError>)
        ensures
            res is Ok <==> 0 <= val <= 9,
            res matches Ok(m) ==> m@ == (coord.row(), coord.col(), val as int),
            res matches Err(e) ==> e == InputError::ValueOutOfRange,
    {
        if 0 <= val && val <= 9 {
            Ok(Move { coord, new_value: val })
        } else {
            Err(InputError::ValueOutOfRange)
        }
    }

    pub fn to_coord(&self) -> (c: Coord)
        ensures
            c.row() == self.row() && c.col() == self.col(),
    {
        self.coord
    }

    pub fn to_value(&self) -> (v: i8)
        ensures
            v == self.value(),
            0 <= v <= 9,
    {
        proof {
            use_type_invariant(self);
        }
        self.new_value
    }
}

impl View for Move {
    type V = (int, int, int);

    /// (row, column, value)
    open spec fn view(&self) -> (int, int, int) {
        (self.row(), self.col(), self.value())
    }
}

/// The grid of an input array, cell by cell.
pub open spec fn grid_of(array: [[i8; 9]; 9]) -> Seq<Seq<int>> {
    Seq::new(9, |r: int| Seq::new(9, |c: int| array[r][c] as int))
}

pub open spec fn values_in_range(array: [[i8; 9]; 9]) -> bool {
    forall|r: int, c: int| in_bounds(r) && in_bounds(c) ==> 0 <= #[trigger] array[r][c] <= 9
}

/// A 9x9 grid with, for each row, column and square, the digits that may still be placed there.
pub struct Board {
    matrix: [[i8; 9]; 9],
    allowed_in_row: [[bool; 9]; 9],
    allowed_in_col: [[bool; 9]; 9],
    allowed_in_square: [[bool; 9]; 9],
}

impl Board {
    pub closed spec fn cells(&self) -> Seq<Seq<int>> {
        Seq::new(9, |r: int| Seq::new(9, |c: int| self.matrix[r][c] as int))
    }

    pub closed spec fn row_allowed(&self, u: int, d: int) -> bool {
        self.allowed_in_row[u][d - 1]
    }

    pub closed spec fn col_allowed(&self, u: int, d: int) -> bool {
        self.allowed_in_col[u][d - 1]
    }

    pub closed spec fn square_allowed(&self, u: int, d: int) -> bool {
        self.allowed_in_square[u][d - 1]
    }

    /// The grid has no duplicate digit in any unit, and each permission flag is
    /// true exactly when its unit does not hold its digit.
    pub closed spec fn wf(&self) -> bool {
        &&& consistent(self.cells())
        &&& forall|u: int, d: int|
            in_bounds(u) && is_digit(d) ==> #[trigger] self.row_allowed(u, d) == !row_holds(
                self.cells(),
                u,
                d,
            )
        &&& forall|u: int, d: int|
            in_bounds(u) && is_digit(d) ==> #[trigger] self.col_allowed(u, d) == !col_holds(
                self.cells(),
                u,
                d,
            )
        &&& forall|u: int, d: int|
            in_bounds(u) && is_digit(d) ==> #[trigger] self.square_allowed(u, d) == !square_holds(
                self.cells(),
                u,
                d,
            )
    }

    pub fn new() -> (b: Board)
        ensures
            b.wf(),
            b.cells() == empty_grid(),
    {
        let b = Board {
            matrix: [[0i8; 9]; 9],
            allowed_in_row: [[true; 9]; 9],
            allowed_in_col: [[true; 9]; 9],
            allowed_in_square: [[true; 9]; 9],
        };
        proof {
            lemma_empty_grid_consistent();
            assert(b.cells() =~~= empty_grid());
        }
        b
    }

    fn set_val(&mut self, coord: Coord, val: i8)
        ensures
            final(self).allowed_in_row == old(self).allowed_in_row,
            final(self).allowed_in_col == old(self).allowed_in_col,
            final(self).allowed_in_square == old(self).allowed_in_square,
            forall|r: int, c: int|
                in_bounds(r) && in_bounds(c) ==> #[trigger] final(self).matrix[r][c] == if r == coord.row()
                    && c == coord.col() {
                    val
                } else {
                    old(self).matrix[r][c]
                },
    {
        self.matrix[coord.to_row() as usize][coord.to_col() as usize] = val;
    }

    /// The value at a cell, 0 when it is empty.
    pub fn get_val(&self, coord: Coord) -> (v: i8)
        ensures
            v == self.cells()[coord.row()][coord.col()],
    {
        self.matrix[coord.to_row() as usize][coord.to_col() as usize]
    }

    fn is_allowed_in_row(&self, row: i8, value: i8) -> (b: bool)
        requires
            in_bounds(row as int),
            is_digit(value as int),
        ensures
            b == self.row_allowed(row as int, value as int),
    {
        self.allowed_in_row[row as usize][(value as usize) - 1]
    }

    fn is_allowed_in_col(&self, col: i8, value: i8) -> (b: bool)
        requires
            in_bounds(col as int),
            is_digit(value as int),
        ensures
            b == self.col_allowed(col as int, value as int),
    {
        self.allowed_in_col[col as usize][(value as usize) - 1]
    }

    fn is_allowed_in_square(&self, square: i8, value: i8) -> (b: bool)
        requires
            in_bounds(square as int),
            is_digit(value as int),
        ensures
            b == self.square_allowed(square as int, value as int),
    {
        self.allowed_in_square[square as usize][(value as usize) - 1]
    }

    /// Clearing is always legal; a digit is legal where its row, column and square lack it.
    pub fn is_move_legal(&self, attempt: Move) -> (legal: bool)
        requires
            self.wf(),
        ensures
            legal == placeable(self.cells(), attempt.row(), attempt.col(), attempt.value()),
    {
        proof {
            use_type_invariant(&attempt);
        }
        if attempt.new_value == 0 {
            true
        } else {
            self.is_allowed_in_row(attempt.coord.to_row(), attempt.new_value) && self.is_allowed_in_col(
                attempt.coord.to_col(),
                attempt.new_value,
            ) && self.is_allowed_in_square(attempt.coord.to_square(), attempt.new_value)
        }
    }

    fn allow(&mut self, coord: Coord, value: i8)
        requires
            is_digit(value as int),
        ensures
            final(self).matrix == old(self).matrix,
            forall|u: int, d: int|
                in_bounds(u) && is_digit(d) ==> #[trigger] final(self).row_allowed(u, d) == if u
                    == coord.row() && d == value {
                    true
                } else {
                    old(self).row_allowed(u, d)
                },
            forall|u: int, d: int|
                in_bounds(u) && is_digit(d) ==> #[trigger] final(self).col_allowed(u, d) == if u
                    == coord.col() && d == value {
                    true
                } else {
                    old(self).col_allowed(u, d)
                },
            forall|u: int, d: int|
                in_bounds(u) && is_digit(d) ==> #[trigger] final(self).square_allowed(u, d) == if u
                    == square_of(coord.row(), coord.col()) && d == value {
                    true
                } else {
                    old(self).square_allowed(u, d)
                },
    {
        self.allowed_in_row[coord.to_row() as usize][(value as usize) - 1] = true;
        self.allowed_in_col[coord.to_col() as usize][(value as usize) - 1] = true;
        self.allowed_in_square[coord.to_square() as usize][(value as usize) - 1] = true;
    }

    fn disallow(&mut self, coord: Coord, value: i8)
        requires
            is_digit(value as int),
        ensures
            final(self).matrix == old(self).matrix,
            forall|u: int, d: int|
                in_bounds(u) && is_digit(d) ==> #[trigger] final(self).row_allowed(u, d) == if u
                    == coord.row() && d == value {
                    false
                } else {
                    old(self).row_allowed(u, d)
                },
            forall|u: int, d: int|
                in_bounds(u) && is_digit(d) ==> #[trigger] final(self).col_allowed(u, d) == if u
                    == coord.col() && d == value {
                    false
                } else {
                    old(self).col_allowed(u, d)
                },
            forall|u: int, d: int|
                in_bounds(u) && is_digit(d) ==> #[trigger] final(self).square_allowed(u, d) == if u
                    == square_of(coord.row(), coord.col()) && d == value {
                    false
                } else {
                    old(self).square_allowed(u, d)
                },
    {
        self.allowed_in_row[coord.to_row() as usize][(value as usize) - 1] = false;
        self.allowed_in_col[coord.to_col() as usize][(value as usize) - 1] = false;
        self.allowed_in_square[coord.to_square() as usize][(value as usize) - 1] = false;
    }

    /// Takes `value` (if a digit) from the units of `coord` and gives back the
    /// digit that the cell held; the cell itself is left as it was.
    fn disallow_and_allow_old(&mut self, coord: Coord, value: i8)
        requires
            old(self).wf(),
            0 <= value <= 9,
        ensures
            final(self).matrix == old(self).matrix,
            forall|u: int, d: int|
                in_bounds(u) && is_digit(d) ==> #[trigger] final(self).row_allowed(u, d) == if u
                    == coord.row() && d == old(self).cells()[coord.row()][coord.col()] {
                    true
                } else if u == coord.row() && d == value {
                    false
                } else {
                    old(self).row_allowed(u, d)
                },
            forall|u: int, d: int|
                in_bounds(u) && is_digit(d) ==> #[trigger] final(self).col_allowed(u, d) == if u
                    == coord.col() && d == old(self).cells()[coord.row()][coord.col()] {
                    true
                } else if u == coord.col() && d == value {
                    false
                } else {
                    old(self).col_allowed(u, d)
                },
            forall|u: int, d: int|
                in_bounds(u) && is_digit(d) ==> #[trigger] final(self).square_allowed(u, d) == if u
                    == square_of(coord.row(), coord.col()) && d == old(self).cells()[coord.row()][coord.col()] {
                    true
                } else if u == square_of(coord.row(), coord.col()) && d == value {
                    false
                } else {
                    old(self).square_allowed(u, d)
                },
    {
        if value > 0 {
            self.disallow(coord, value);
        }
        let old_value = self.get_val(coord);
        proof {
            use_type_invariant(&coord);
            assert(0 <= self.cells()[coord.row()][coord.col()] <= 9);
        }
        if old_value > 0 {
            self.allow(coord, old_value);
        }
    }

    /// Writes the move's value if the move is legal; reports whether it did.
    pub fn put_if_legal(&mut self, entry: Move) -> (applied: bool)
        requires
            old(self).wf(),
        ensures
            final(self).wf(),
            applied == placeable(old(self).cells(), entry.row(), entry.col(), entry.value()),
            final(self).cells() == after_move(old(self).cells(), entry.row(), entry.col(), entry.value()),
    {
        proof {
            use_type_invariant(&entry);
            use_type_invariant(&entry.coord);
        }
        if self.is_move_legal(entry) {
            let ghost g = self.cells();
            let ghost r = entry.row();
            let ghost c = entry.col();
            let ghost v = entry.value();
            let ghost before = *self;
            self.disallow_and_allow_old(entry.coord, entry.new_value);
            let ghost mid = *self;
            self.set_val(entry.coord, entry.new_value);
            proof {
                lemma_place_consistent(g, r, c, v);
                assert(self.cells() =~~= place(g, r, c, v));
                if v != 0 {
                    assert(g[r][c] != v);
                }
                let h = self.cells();
                assert forall|u: int, d: int| in_bounds(u) && is_digit(d) implies #[trigger] self.row_allowed(
                    u,
                    d,
                ) == !row_holds(h, u, d) by {
                    assert(mid.row_allowed(u, d) == self.row_allowed(u, d));
                    assert(before.row_allowed(u, d) == !row_holds(g, u, d));
                }
                assert forall|u: int, d: int| in_bounds(u) && is_digit(d) implies #[trigger] self.col_allowed(
                    u,
                    d,
                ) == !col_holds(h, u, d) by {
                    assert(mid.col_allowed(u, d) == self.col_allowed(u, d));
                    assert(before.col_allowed(u, d) == !col_holds(g, u, d));
                }
                assert forall|u: int, d: int| in_bounds(u) && is_digit(d) implies #[trigger] self.square_allowed(
                    u,
                    d,
                ) == !square_holds(h, u, d) by {
                    assert(mid.square_allowed(u, d) == self.square_allowed(u, d));
                    assert(before.square_allowed(u, d) == !square_holds(g, u, d));
                }
            }
            true
        } else {
            false
        }
    }

    /// Builds a board by attempting every cell of `array` in row-major order;
    /// a cell that conflicts with the cells kept before it is left empty.
    /// Fails when some value lies outside 0..=9.
    pub fn new_from_array(array: [[i8; 9]; 9]) -> (res: Result<Board, InputError>)
        ensures
            res is Ok <==> values_in_range(array),
            res matches Ok(b) ==> b.wf() && b.cells() == replay(grid_of(array), 81),
            res matches Err(e) ==> e == InputError::ValueOutOfRange,
    {
        let mut r: usize = 0;
        while r < 9
            invariant
                r <= 9,
                forall|r2: int, c2: int|
                    0 <= r2 < r && in_bounds(c2) ==> 0 <= #[trigger] array[r2][c2] <= 9,
            decreases 9 - r,
        {
            let mut c: usize = 0;
            while c < 9
                invariant
                    r < 9,
                    c <= 9,
                    forall|r2: int, c2: int|
                        0 <= r2 < r && in_bounds(c2) ==> 0 <= #[trigger] array[r2][c2] <= 9,
                    forall|c2: int| 0 <= c2 < c ==> 0 <= #[trigger] array[r as int][c2] <= 9,
                decreases 9 - c,
            {
                let val = array[r][c];
                if val < 0 || val > 9 {
                    return Err(InputError::ValueOutOfRange);
                }
                c = c + 1;
            }
            r = r + 1;
        }
        let mut board = Board::new();
        let ghost input = grid_of(array);
        let mut r: i8 = 0;
        while r < 9
            invariant
                0 <= r <= 9,
                values_in_range(array),
                input == grid_of(array),
                board.wf(),
                board.cells() == replay(input, (9 * r) as nat),
            decreases 9 - r,
        {
            let mut c: i8 = 0;
            while c < 9
                invariant
                    0 <= r < 9,
                    0 <= c <= 9,
                    values_in_range(array),
                    input == grid_of(array),
                    board.wf(),
                    board.cells() == replay(input, (9 * r + c) as nat),
                decreases 9 - c,
            {
                let val = array[r as usize][c as usize];
                let ghost k = 9 * r + c;
                proof {
                    assert(((k + 1) - 1) / 9 == r && ((k + 1) - 1) % 9 == c);
                    assert(input[r as int][c as int] == val as int);
                    assert(replay(input, (k + 1) as nat) == after_move(
                        replay(input, k as nat),
                        r as int,
                        c as int,
                        val as int,
                    ));
                }
                if let Ok(entry) = Move::new(r, c, val) {
                    board.put_if_legal(entry);
                }
                c = c + 1;
            }
            r = r + 1;
        }
        Ok(board)
    }

    /// How many digits 1..=9 are legal at `coord`.
    pub fn count_legal_values_at(&self, coord: Coord) -> (n: i8)
        requires
            self.wf(),
        ensures
            n == count_legal_upto(self.cells(), coord.row(), coord.col(), 9),
    {
        let mut count: i8 = 0;
        let mut v: i8 = 1;
        while v <= 9
            invariant
                1 <= v <= 10,
                self.wf(),
                0 <= count < v,
                count == count_legal_upto(self.cells(), coord.row(), coord.col(), (v - 1) as nat),
            decreases 10 - v,
        {
            if let Ok(hypothetical_move) = Move::new_from_coord_and_value(coord, v) {
                if self.is_move_legal(hypothetical_move) {
                    count += 1;
                }
            }
            v += 1;
        }
        count
    }

    /// The legal moves at `coord` that place a digit, by ascending digit.
    pub fn list_legal_moves_at(&self, coord: Coord) -> (moves: Vec<Move>)
        requires
            self.wf(),
        ensures
            moves@.map_values(|m: Move| m@) == legal_moves_at(self.cells(), coord.row(), coord.col()),
    {
        let mut result: Vec<Move> = Vec::new();
        let mut v: i8 = 1;
        while v <= 9
            invariant
                1 <= v <= 10,
                self.wf(),
                result@.map_values(|m: Move| m@) == legal_moves_at_upto(
                    self.cells(),
                    coord.row(),
                    coord.col(),
                    (v - 1) as nat,
                ),
            decreases 10 - v,
        {
            if let Ok(new_move) = Move::new_from_coord_and_value(coord, v) {
                if self.is_move_legal(new_move) {
                    let ghost before = result@;
                    result.push(new_move);
                    proof {
                        assert(result@.map_values(|m: Move| m@) =~= before.map_values(|m: Move| m@).push(
                            new_move@,
                        ));
                    }
                }
            }
            v += 1;
        }
        result
    }

    /// The legal moves of all cells, cell after cell in row-major order.
    pub fn list_legal_moves(&self) -> (moves: Vec<Move>)
        requires
            self.wf(),
        ensures
            moves@.map_values(|m: Move| m@) == legal_moves_upto(self.cells(), 81),
    {
        let mut result: Vec<Move> = Vec::new();
        let mut r: i8 = 0;
        while r < 9
            invariant
                0 <= r <= 9,
                self.wf(),
                result@.map_values(|m: Move| m@) == legal_moves_upto(self.cells(), (9 * r) as nat),
            decreases 9 - r,
        {
            let mut c: i8 = 0;
            while c < 9
                invariant
                    0 <= r < 9,
                    0 <= c <= 9,
                    self.wf(),
                    result@.map_values(|m: Move| m@) == legal_moves_upto(self.cells(), (9 * r + c) as nat),
                decreases 9 - c,
            {
                if let Ok(coord) = Coord::new(r, c) {
                    let mut legal_here = self.list_legal_moves_at(coord);
                    let ghost before = result@;
                    let ghost here = legal_here@;
                    result.append(&mut legal_here);
                    proof {
                        let k = 9 * r + c;
                        assert(((k + 1) - 1) / 9 == r && ((k + 1) - 1) % 9 == c);
                        assert(result@.map_values(|m: Move| m@) =~= before.map_values(|m: Move| m@)
                            + here.map_values(|m: Move| m@));
                    }
                }
                c = c + 1;
            }
            r = r + 1;
        }
        result
    }
}

/// The two boards agree on every permission flag.
pub open spec fn same_permissions(a: Board, b: Board) -> bool {
    forall|u: int, d: int|
        in_bounds(u) && is_digit(d) ==> (#[trigger] a.row_allowed(u, d) == b.row_allowed(u, d)
            && a.col_allowed(u, d) == b.col_allowed(u, d) && a.square_allowed(u, d) == b.square_allowed(
            u,
            d,
        ))
}

/// Every board that `new`, `new_from_array` and `put_if_legal` produce holds
/// no digit twice in a unit, and its permission flag for a unit and a digit is
/// false exactly when the digit occupies a cell of that unit.
pub proof fn lemma_permissions_match_grid(b: Board)
    requires
        b.wf(),
    ensures
        consistent(b.cells()),
        forall|u: int, d: int|
            in_bounds(u) && is_digit(d) ==> (#[trigger] b.row_allowed(u, d) <==> !row_holds(b.cells(), u, d)),
        forall|u: int, d: int|
            in_bounds(u) && is_digit(d) ==> (#[trigger] b.col_allowed(u, d) <==> !col_holds(b.cells(), u, d)),
        forall|u: int, d: int|
            in_bounds(u) && is_digit(d) ==> (#[trigger] b.square_allowed(u, d) <==> !square_holds(
                b.cells(),
                u,
                d,
            )),
{
}

/// Two boards with the same cells have the same permission flags.
pub proof fn lemma_same_cells_same_permissions(a: Board, b: Board)
    requires
        a.wf(),
        b.wf(),
        a.cells() == b.cells(),
    ensures
        same_permissions(a, b),
{
}

} // verus!
