//! Board of a four-in-a-row game: six rows of seven columns, row 5 at the
//! bottom. A cell holds 0 when empty, 1 or 2 for the disc of each player.

use vstd::prelude::*;

verus! {

pub const ROWS: usize = 6;

pub const COLUMNS: usize = 7;

pub const OUT_OF_RANGE: &'static str = "El número está fuera de rango";

pub const COLUMN_FULL: &'static str = "La columna está llena";

#[derive(Debug, Clone, Copy, PartialEq, Eq, Structural)]
pub enum Player {
    PlayerUno,
    PlayerDos,
}

/// The value a player's disc leaves in a cell.
pub open spec fn disc(p: Player) -> i32 {
    match p {
        Player::PlayerUno => 1,
        Player::PlayerDos => 2,
    }
}

pub struct Matrix {
    matrix: [[i32; 7]; 6],
}

impl Matrix {
    /// The value in row `r`, column `c`.
    pub closed spec fn cell(&self, r: int, c: int) -> i32 {
        self.matrix[r][c]
    }

    /// Cells hold 0, 1 or 2, and no disc rests above an empty cell.
    pub open spec fn wf(&self) -> bool {
        &&& forall|r: int, c: int|
            0 <= r < 6 && 0 <= c < 7 ==> {
                let v = #[trigger] self.cell(r, c);
                v == 0 || v == 1 || v == 2
            }
        &&& forall|r: int, c: int|
            0 <= r < 5 && 0 <= c < 7 && #[trigger] self.cell(r, c) != 0 ==> self.cell(r + 1, c)
                != 0
    }

    /// Some cell of column `c` is empty.
    pub open spec fn has_room(&self, c: int) -> bool {
        exists|r: int| 0 <= r < 6 && #[trigger] self.cell(r, c) == 0
    }

    /// `row` is the lowest empty cell of column `c`: where a dropped disc stops.
    pub open spec fn is_landing_row(&self, row: int, c: int) -> bool {
        &&& 0 <= row < 6
        &&& self.cell(row, c) == 0
        &&& forall|k: int| row < k < 6 ==> #[trigger] self.cell(k, c) != 0
    }

    /// Four equal non-empty cells starting at (r, c), each one step (dr, dc) from the last.
    pub open spec fn line_at(&self, r: int, c: int, dr: int, dc: int) -> bool {
        &&& self.cell(r, c) != 0
        &&& self.cell(r, c) == self.cell(r + dr, c + dc)
        &&& self.cell(r, c) == self.cell(r + 2 * dr, c + 2 * dc)
        &&& self.cell(r, c) == self.cell(r + 3 * dr, c + 3 * dc)
    }

    /// A horizontal, vertical or diagonal line of four equal discs lies on the board.
    pub open spec fn has_line(&self) -> bool {
        ||| exists|r: int, c: int| 0 <= r < 6 && 0 <= c < 4 && #[trigger] self.line_at(r, c, 0, 1)
        ||| exists|r: int, c: int| 0 <= r < 3 && 0 <= c < 7 && #[trigger] self.line_at(r, c, 1, 0)
        ||| exists|r: int, c: int| 0 <= r < 3 && 0 <= c < 4 && #[trigger] self.line_at(r, c, 1, 1)
        ||| exists|r: int, c: int|
            3 <= r < 6 && 0 <= c < 4 && #[trigger] self.line_at(r, c, -1, 1)
    }

    /// An empty board.
    pub fn new() -> (r: Matrix)
        ensures
            r.wf(),
            forall|i: int, j: int| 0 <= i < 6 && 0 <= j < 7 ==> #[trigger] r.cell(i, j) == 0,
    {
        let row: [i32; 7] = [0; 7];
        let matrix: [[i32; 7]; 6] = [row; 6];
        let r = Matrix { matrix };
        assert forall|i: int, j: int| 0 <= i < 6 && 0 <= j < 7 implies #[trigger] r.cell(i, j)
            == 0 by {
            assert(r.matrix[i] == row);
        }
        r
    }

    /// The cell in row `r`, column `c`.
    pub fn get(&self, r: usize, c: usize) -> (v: i32)
        requires
            r < 6,
            c < 7,
        ensures
            v == self.cell(r as int, c as int),
    {
        self.matrix[r][c]
    }

    /// Drops `player`'s disc into `column`: it stops on the lowest empty cell.
    pub fn add_element_matrix(&mut self, column: usize, player: &Player) -> (r: Result<(), &'static str>)
        requires
            old(self).wf(),
        ensures
            final(self).wf(),
            column >= 7 ==> r == Err::<(), &str>(OUT_OF_RANGE),
            column < 7 && !old(self).has_room(column as int) ==> r == Err::<(), &str>(
                COLUMN_FULL,
            ),
            r is Ok <==> column < 7 && old(self).has_room(column as int),
            r is Err ==> forall|i: int, j: int| #[trigger] final(self).cell(i, j) == old(self).cell(i, j),
            r is Ok ==> exists|row: int|
                {
                    &&& #[trigger] old(self).is_landing_row(row, column as int)
                    &&& forall|i: int, j: int|
                        0 <= i < 6 && 0 <= j < 7 ==> #[trigger] final(self).cell(i, j) == if i
                            == row && j == column {
                            disc(*player)
                        } else {
                            old(self).cell(i, j)
                        }
                },
    {
        if column >= 7 {
            return Err(OUT_OF_RANGE);
        }
        let v: i32 = match player {
            Player::PlayerUno => 1,
            Player::PlayerDos => 2,
        };
        assert(v == disc(*player) && (v == 1 || v == 2));
        let mut k: usize = 6;
        while k > 0
            invariant
                0 <= k <= 6,
                column < 7,
                *self == *old(self),
                old(self).wf(),
                v == disc(*player) && (v == 1 || v == 2),
                forall|i: int| k <= i < 6 ==> #[trigger] self.cell(i, column as int) != 0,
            decreases k,
        {
            let row = k - 1;
            if self.matrix[row][column] == 0 {
                let ghost before = *self;
                let mut line: [i32; 7] = self.matrix[row];
                line[column] = v;
                self.matrix[row] = line;
                assert(before == *old(self));
                assert(before.wf());
                assert(before.is_landing_row(row as int, column as int));
                assert forall|i: int, j: int| 0 <= i < 6 && 0 <= j < 7 implies #[trigger] self.cell(
                    i,
                    j,
                ) == if i == row && j == column {
                    v
                } else {
                    before.cell(i, j)
                } by {
                    if i == row {
                        assert(self.matrix[i] == line);
                    } else {
                        assert(self.matrix[i] == before.matrix[i]);
                    }
                }
                assert forall|i: int, j: int|
                    0 <= i < 5 && 0 <= j < 7 && #[trigger] self.cell(i, j) != 0 implies self.cell(
                    i + 1,
                    j,
                ) != 0 by {
                    let a = self.cell(i, j);
                    let b = self.cell(i + 1, j);
                    if i == row && j == column {
                        assert(before.cell(i + 1, j) != 0);
                    } else {
                        assert(before.cell(i, j) != 0);
                        assert(before.cell(i + 1, j) != 0);
                    }
                }
                assert forall|i: int, j: int| 0 <= i < 6 && 0 <= j < 7 implies {
                    let w = #[trigger] self.cell(i, j);
                    w == 0 || w == 1 || w == 2
                } by {
                    let b = before.cell(i, j);
                    if i != row || j != column {
                        assert(self.cell(i, j) == b);
                    }
                }
                return Ok(());
            }
            k = row;
        }
        assert(!old(self).has_room(column as int));
        Err(COLUMN_FULL)
    }

    /// Every cell holds a disc.
    pub fn is_full(&self) -> (r: bool)
        ensures
            r == forall|i: int, j: int| 0 <= i < 6 && 0 <= j < 7 ==> #[trigger] self.cell(i, j) != 0,
    {
        let mut i: usize = 0;
        while i < 6
            invariant
                0 <= i <= 6,
                forall|a: int, b: int| 0 <= a < i && 0 <= b < 7 ==> #[trigger] self.cell(a, b) != 0,
            decreases 6 - i,
        {
            let mut j: usize = 0;
            while j < 7
                invariant
                    0 <= i < 6,
                    0 <= j <= 7,
                    forall|a: int, b: int|
                        0 <= a < i && 0 <= b < 7 ==> #[trigger] self.cell(a, b) != 0,
                    forall|b: int| 0 <= b < j ==> #[trigger] self.cell(i as int, b) != 0,
                decreases 7 - j,
            {
                if self.matrix[i][j] == 0 {
                    assert(self.cell(i as int, j as int) == 0);
                    return false;
                }
                j = j + 1;
            }
            i = i + 1;
        }
        true
    }
    /// Reads the four cells of the line from (r, c) in direction (dr, dc).
    fn line_exec(&self, r: usize, c: usize, dr: i64, dc: i64) -> (b: bool)
        requires
            -1 <= dr <= 1,
            0 <= dc <= 1,
            r < 6,
            c < 7,
            0 <= r + 3 * dr < 6,
            c + 3 * dc < 7,
        ensures
            b == self.line_at(r as int, c as int, dr as int, dc as int),
    {
        let r1 = (r as i64 + dr) as usize;
        let r2 = (r as i64 + 2 * dr) as usize;
        let r3 = (r as i64 + 3 * dr) as usize;
        let c1 = (c as i64 + dc) as usize;
        let c2 = (c as i64 + 2 * dc) as usize;
        let c3 = (c as i64 + 3 * dc) as usize;
        let m = &self.matrix;
        m[r][c] != 0 && m[r][c] == m[r1][c1] && m[r][c] == m[r2][c2] && m[r][c] == m[r3][c3]
    }

    /// Looks for a line in direction (dr, dc) starting in rows `r_lo..r_hi`, columns `0..c_hi`.
    fn scan(&self, r_lo: usize, r_hi: usize, c_hi: usize, dr: i64, dc: i64) -> (b: bool)
        requires
            -1 <= dr <= 1,
            0 <= dc <= 1,
            r_lo <= r_hi <= 6,
            c_hi <= 7,
            0 <= r_lo + 3 * dr,
            r_hi + 3 * dr <= 6,
            c_hi + 3 * dc <= 7,
        ensures
            b == exists|i: int, j: int|
                r_lo <= i < r_hi && 0 <= j < c_hi && #[trigger] self.line_at(
                    i,
                    j,
                    dr as int,
                    dc as int,
                ),
    {
        let mut i: usize = r_lo;
        while i < r_hi
            invariant
                r_lo <= i <= r_hi,
                -1 <= dr <= 1,
                0 <= dc <= 1,
                r_hi <= 6,
                c_hi <= 7,
                0 <= r_lo + 3 * dr,
                r_hi + 3 * dr <= 6,
                c_hi + 3 * dc <= 7,
                forall|a: int, b: int|
                    r_lo <= a < i && 0 <= b < c_hi ==> !#[trigger] self.line_at(
                        a,
                        b,
                        dr as int,
                        dc as int,
                    ),
            decreases r_hi - i,
        {
            let mut j: usize = 0;
            while j < c_hi
                invariant
                    r_lo <= i < r_hi,
                    -1 <= dr <= 1,
                    0 <= dc <= 1,
                    r_hi <= 6,
                    c_hi <= 7,
                    0 <= r_lo + 3 * dr,
                    r_hi + 3 * dr <= 6,
                    c_hi + 3 * dc <= 7,
                    0 <= j <= c_hi,
                    forall|a: int, b: int|
                        r_lo <= a < i && 0 <= b < c_hi ==> !#[trigger] self.line_at(
                            a,
                            b,
                            dr as int,
                            dc as int,
                        ),
                    forall|b: int|
                        0 <= b < j ==> !#[trigger] self.line_at(i as int, b, dr as int, dc as int),
                decreases c_hi - j,
            {
                if self.line_exec(i, j, dr, dc) {
                    return true;
                }
                j = j + 1;
            }
            i = i + 1;
        }
        false
    }

    /// Some player has four discs in a row: horizontally, vertically or diagonally.
    pub fn is_win(&self) -> (r: bool)
        ensures
            r == self.has_line(),
    {
        self.scan(0, 6, 4, 0, 1) || self.scan(0, 3, 7, 1, 0) || self.scan(0, 3, 4, 1, 1)
            || self.scan(3, 6, 4, -1, 1)
    }
}

} // verus!
