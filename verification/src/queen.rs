//! A queen's square and the row-major order of the squares of a board.

use crate::random::draw;
use rand::rngs::ThreadRng;
use vstd::prelude::*;

verus! {

/// The square of a queen: column `x` and row `y`.
///
/// The row is declared before the column, so that the derived order compares
/// rows first, as the row-major order does.
#[derive(Debug, Clone, Copy, PartialEq, Eq, Structural, Ord)]
pub struct Queen {
    pub y: usize,
    pub x: usize,
}

impl Queen {
    /// Both coordinates lie on a board of the given size.
    pub open spec fn on_board(self, size: int) -> bool {
        self.x < size && self.y < size
    }

    /// The row-major index of the square on a board of the given size.
    pub open spec fn position_index(self, size: int) -> int {
        self.x + self.y * size
    }

    /// This square comes before the other in row-major order.
    pub open spec fn precedes(self, other: Queen) -> bool {
        self.y < other.y || (self.y == other.y && self.x < other.x)
    }

    /// The square that follows this one in row-major order, the first
    /// square of the board after the last one.
    pub open spec fn successor(self, size: int) -> Queen {
        if self.x + 1 < size {
            Queen { y: self.y, x: (self.x + 1) as usize }
        } else if self.y + 1 < size {
            Queen { y: (self.y + 1) as usize, x: 0 }
        } else {
            Queen { y: 0, x: 0 }
        }
    }

    /// Creates a queen at the given position.
    pub fn new(x: usize, y: usize) -> (queen: Self)
        ensures
            queen.x == x,
            queen.y == y,
    {
        Self { y, x }
    }

    /// The queen whose column and row are the two numbers reduced modulo
    /// the size of the board.
    pub fn wrapped(a: usize, b: usize, size: usize) -> (queen: Self)
        requires
            size > 0,
        ensures
            queen.x == a % size,
            queen.y == b % size,
            queen.on_board(size as int),
    {
        Self { y: b % size, x: a % size }
    }

    /// Creates a queen with random position in a square of the given size.
    pub fn random(rng: &mut ThreadRng, size: usize) -> (queen: Self)
        requires
            size > 0,
        ensures
            queen.on_board(size as int),
    {
        let a: usize = draw(rng);
        let b: usize = draw(rng);
        Self::wrapped(a, b, size)
    }

    /// Increments the row-major index of the queen and updates its position.
    pub fn increment_position_index(&mut self, increment: usize, size: usize)
        requires
            old(self).on_board(size as int),
            old(self).position_index(size as int) + increment < size * size,
        ensures
            final(self).on_board(size as int),
            final(self).position_index(size as int) == old(self).position_index(size as int)
                + increment,
            increment == 1 ==> *final(self) == old(self).successor(size as int),
    {
        let columns: usize = increment % size;
        let rows: usize = increment / size;
        proof {
            vstd::arithmetic::div_mod::lemma_fundamental_div_mod(increment as int, size as int);
            assert(size * rows == rows * size) by (nonlinear_arith);
            lemma_rows_fit(self.x as int, self.y as int, columns as int, rows as int, size as int);
        }
        if self.x >= size - columns {
            self.x = self.x - (size - columns);
            self.y = self.y + rows + 1;
        } else {
            self.x = self.x + columns;
            self.y = self.y + rows;
        }
    }

    /// Computes the row-major index of the queen.
    pub fn get_position_index(&self, size: usize) -> (index: usize)
        requires
            self.position_index(size as int) <= usize::MAX,
        ensures
            index == self.position_index(size as int),
    {
        assert(self.y * size <= self.position_index(size as int));
        self.x + self.y * size
    }

    /// Checks if the queen is at the given position on the board.
    pub fn is_at_position(&self, x: usize, y: usize) -> (at: bool)
        ensures
            at <==> (self.x == x && self.y == y),
    {
        x == self.x && y == self.y
    }
}

/// A square `columns` columns and `rows` rows further on, whose index is
/// still on the board, has its row on the board, one row further where the
/// column wraps.
proof fn lemma_rows_fit(x: int, y: int, columns: int, rows: int, size: int)
    requires
        0 <= x < size,
        0 <= y < size,
        0 <= columns < size,
        0 <= rows,
        x + y * size + columns + rows * size < size * size,
    ensures
        x + columns >= size ==> y + rows + 1 < size,
        y + rows < size,
        x + y * size + columns + rows * size == (x + columns) + (y + rows) * size,
        (x + columns) + (y + rows) * size == (x + columns - size) + (y + rows + 1) * size,
{
    assert((y + rows) * size == y * size + rows * size) by (nonlinear_arith);
    assert((y + rows + 1) * size == (y + rows) * size + size) by (nonlinear_arith);
    if y + rows >= size {
        assert((y + rows) * size >= size * size) by (nonlinear_arith)
            requires
                y + rows >= size,
                size > 0,
        ;
    }
    if x + columns >= size && y + rows + 1 >= size {
        assert((y + rows + 1) * size >= size * size) by (nonlinear_arith)
            requires
                y + rows + 1 >= size,
                size > 0,
        ;
    }
}

/// On a board, the row-major order of two squares is the order of their
/// row-major indices, and equal indices mean equal squares.
pub proof fn lemma_order_is_index_order(a: Queen, b: Queen, size: int)
    requires
        a.on_board(size),
        b.on_board(size),
    ensures
        a.precedes(b) <==> a.position_index(size) < b.position_index(size),
        a == b <==> a.position_index(size) == b.position_index(size),
        0 <= a.position_index(size) < size * size,
{
    let (ax, ay, bx, by) = (a.x as int, a.y as int, b.x as int, b.y as int);
    if ay < by {
        assert(by * size >= ay * size + size) by (nonlinear_arith)
            requires
                ay < by,
                size > 0,
        ;
    } else if by < ay {
        assert(ay * size >= by * size + size) by (nonlinear_arith)
            requires
                by < ay,
                size > 0,
        ;
    }
    assert(ay * size + size <= size * size) by (nonlinear_arith)
        requires
            0 <= ay < size,
    ;
    assert(0 <= ay * size) by (nonlinear_arith)
        requires
            0 <= ay,
            0 < size,
    ;
}

/// A square on the board that has another square of the board after it is
/// followed directly by its successor: the successor comes after it, and
/// no later than the other square.
pub proof fn lemma_successor_is_least_above(a: Queen, b: Queen, size: int)
    requires
        a.on_board(size),
        b.on_board(size),
        a.precedes(b),
        size <= usize::MAX,
    ensures
        a.precedes(a.successor(size)),
        a.successor(size) == b || a.successor(size).precedes(b),
        a.successor(size).on_board(size),
{
}

/// The successor of a square on the board is on the board, and its
/// row-major index is the next one, or 0 after the last.
pub proof fn lemma_successor_is_next_index(a: Queen, size: int)
    requires
        a.on_board(size),
        size <= usize::MAX,
    ensures
        a.successor(size).on_board(size),
        a.successor(size).position_index(size) == (a.position_index(size) + 1) % (size * size),
{
    let n = a.position_index(size);
    let (x, y) = (a.x as int, a.y as int);
    lemma_order_is_index_order(a, a, size);
    assert((y + 1) * size == y * size + size) by (nonlinear_arith);
    let next = a.successor(size);
    if x + 1 < size {
        assert(next.position_index(size) == n + 1);
        assert(y * size + size <= size * size) by (nonlinear_arith)
            requires
                0 <= y < size,
        ;
        vstd::arithmetic::div_mod::lemma_small_mod((n + 1) as nat, (size * size) as nat);
    } else if y + 1 < size {
        assert(next.x == 0 && next.y == y + 1);
        assert(next.position_index(size) == n + 1);
        assert((y + 1) * size + size <= size * size) by (nonlinear_arith)
            requires
                0 <= y + 1 < size,
        ;
        vstd::arithmetic::div_mod::lemma_small_mod((n + 1) as nat, (size * size) as nat);
    } else {
        assert(y * size == size * size - size) by (nonlinear_arith)
            requires
                y == size - 1,
        ;
        assert(n + 1 == size * size);
        assert(next.position_index(size) == 0) by (nonlinear_arith)
            requires
                next.x == 0,
                next.y == 0,
                next.position_index(size) == next.x + next.y * size,
        ;
        vstd::arithmetic::div_mod::lemma_mod_self_0(size * size);
    }
}

} // verus!
