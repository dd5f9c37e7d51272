//! The tic-tac-toe demonstration logic: the board rules that the bundled
//! example application renders.

use vstd::prelude::*;

verus! {

/// A mark on the board.
#[derive(Debug, Clone, Copy, PartialEq, Eq, Structural)]
pub enum SquareValue {
    X,
    O,
}

/// The example game's state: every board in play order, the move shown,
/// and whose turn it is.
#[derive(Debug)]
pub struct GameState {
    pub squares_history: Vec<Vec<Option<SquareValue>>>,
    pub step_index: usize,
    pub x_is_next: bool,
}

/// The three board positions of winning line `k`.
pub open spec fn line(k: int) -> (int, int, int) {
    if k == 0 {
        (0, 1, 2)
    } else if k == 1 {
        (3, 4, 5)
    } else if k == 2 {
        (6, 7, 8)
    } else if k == 3 {
        (0, 3, 6)
    } else if k == 4 {
        (1, 4, 7)
    } else if k == 5 {
        (2, 5, 8)
    } else if k == 6 {
        (0, 4, 8)
    } else {
        (2, 4, 6)
    }
}

/// Whether line `k` is filled by a single player on `s`.
pub open spec fn line_won(s: Seq<Option<SquareValue>>, k: int) -> bool {
    let (a, b, c) = line(k);
    &&& a < s.len() && b < s.len() && c < s.len()
    &&& s[a] is Some
    &&& s[a] == s[b]
    &&& s[a] == s[c]
}

/// The winner of the first winning line at or after `k`, if any.
pub open spec fn first_winner_from(s: Seq<Option<SquareValue>>, k: int) -> Option<SquareValue>
    decreases 8 - k when 0 <= k <= 8
{
    if k >= 8 {
        None
    } else if line_won(s, k) {
        s[line(k).0]
    } else {
        first_winner_from(s, k + 1)
    }
}

/// The game's winner on board `s`: the player filling the first winning
/// line, in line order.
pub open spec fn spec_winner(s: Seq<Option<SquareValue>>) -> Option<SquareValue> {
    first_winner_from(s, 0)
}

/// Decides the winner on a board: the player that fills a row, column or
/// diagonal, with lines checked in a fixed order.
pub fn calculate_winner(squares: &Vec<Option<SquareValue>>) -> (r: Option<SquareValue>)
    ensures
        r == spec_winner(squares@),
        r is Some ==> exists|k: int| 0 <= k < 8 && line_won(squares@, k),
        r is None ==> forall|k: int| 0 <= k < 8 ==> !line_won(squares@, k),
{
    let lines: [(usize, usize, usize); 8] = [
        (0, 1, 2),
        (3, 4, 5),
        (6, 7, 8),
        (0, 3, 6),
        (1, 4, 7),
        (2, 5, 8),
        (0, 4, 8),
        (2, 4, 6),
    ];
    let mut i: usize = 0;
    #[verifier::loop_isolation(false)]
    while i < 8
        invariant
            i <= 8,
            forall|k: int| 0 <= k < i ==> !line_won(squares@, k),
            first_winner_from(squares@, 0) == first_winner_from(squares@, i as int),
        decreases 8 - i,
    {
        let (a, b, c) = lines[i];
        proof {
            assert((a as int, b as int, c as int) == line(i as int));
        }
        if a < squares.len() && b < squares.len() && c < squares.len() {
            let won = match (squares[a], squares[b], squares[c]) {
                (Some(x), Some(y), Some(z)) => x == y && x == z,
                _ => false,
            };
            if won {
                proof {
                    assert(line_won(squares@, i as int));
                }
                return squares[a];
            }
        }
        proof {
            assert(!line_won(squares@, i as int));
        }
        i = i + 1;
    }
    None
}

/// How many squares of `s` carry a mark.
pub open spec fn marks_on(s: Seq<Option<SquareValue>>) -> int
    decreases s.len(),
{
    if s.len() == 0 {
        0
    } else {
        marks_on(s.drop_last()) + (if s.last() is Some {
            1int
        } else {
            0int
        })
    }
}

/// Whose turn it is on board `s`: the first player moves on even mark
/// counts.
pub open spec fn spec_x_is_next(s: Seq<Option<SquareValue>>) -> bool {
    marks_on(s) % 2 == 0
}

/// The mark the next move places on board `s`.
pub open spec fn next_mark(s: Seq<Option<SquareValue>>) -> SquareValue {
    if spec_x_is_next(s) {
        SquareValue::X
    } else {
        SquareValue::O
    }
}

/// Decides whose turn it is: the first player moves on even mark counts.
pub fn x_is_next(squares: &Vec<Option<SquareValue>>) -> (r: bool)
    ensures
        r == spec_x_is_next(squares@),
{
    let n = squares.len();
    let mut count: usize = 0;
    let mut i: usize = 0;
    #[verifier::loop_isolation(false)]
    while i < n
        invariant
            i <= n,
            count <= i,
            count == marks_on(squares@.take(i as int)),
        decreases n - i,
    {
        proof {
            assert(squares@.take(i + 1int).drop_last() =~= squares@.take(i as int));
            assert(squares@.take(i + 1int).last() == squares@[i as int]);
        }
        if squares[i].is_some() {
            count = count + 1;
        }
        i = i + 1;
    }
    proof {
        assert(squares@.take(n as int) =~= squares@);
    }
    count % 2 == 0
}

/// The board after a move on square `index`, if the move is legal: the
/// game has no winner yet and the square is free. The move places the
/// player whose turn it is; an illegal move yields nothing.
pub fn next_board(squares: &Vec<Option<SquareValue>>, index: usize) -> (r: Option<
    Vec<Option<SquareValue>>,
>)
    ensures
        r is Some <==> (spec_winner(squares@) is None && index < squares@.len()
            && squares@[index as int] is None),
        r matches Some(b) ==> b@ == squares@.update(index as int, Some(next_mark(squares@))),
{
    if calculate_winner(squares).is_some() {
        return None;
    }
    if index >= squares.len() {
        return None;
    }
    if squares[index].is_some() {
        return None;
    }
    let mark = if x_is_next(squares) {
        SquareValue::X
    } else {
        SquareValue::O
    };
    let n = squares.len();
    let mut b: Vec<Option<SquareValue>> = Vec::new();
    let mut i: usize = 0;
    #[verifier::loop_isolation(false)]
    while i < n
        invariant
            i <= n,
            b@ == squares@.take(i as int),
        decreases n - i,
    {
        b.push(squares[i]);
        proof {
            assert(b@ =~= squares@.take(i + 1int));
        }
        i = i + 1;
    }
    proof {
        assert(squares@.take(n as int) =~= squares@);
    }
    b[index] = Some(mark);
    proof {
        assert(b@ =~= squares@.update(index as int, Some(next_mark(squares@))));
    }
    Some(b)
}

impl GameState {
    /// The board currently shown.
    pub open spec fn spec_current(&self) -> Seq<Option<SquareValue>> {
        self.squares_history@[self.step_index as int]@
    }

    /// Whether the state is coherent: the shown move exists.
    pub open spec fn wf(&self) -> bool {
        (self.step_index as int) < self.squares_history@.len()
    }

    /// A fresh game: one empty nine-square board, first player to move.
    pub fn new() -> (r: GameState)
        ensures
            r.wf(),
            r.step_index == 0,
            r.x_is_next == true,
            r.squares_history@.len() == 1,
            r.squares_history@[0]@.len() == 9,
            forall|i: int| 0 <= i < 9 ==> r.squares_history@[0]@[i] is None,
    {
        let mut board: Vec<Option<SquareValue>> = Vec::new();
        let mut i: usize = 0;
        #[verifier::loop_isolation(false)]
        while i < 9
            invariant
                i <= 9,
                board@.len() == i,
                forall|j: int| 0 <= j < i ==> board@[j] is None,
            decreases 9 - i,
        {
            board.push(None);
            i = i + 1;
        }
        let mut squares_history: Vec<Vec<Option<SquareValue>>> = Vec::new();
        squares_history.push(board);
        GameState { squares_history, step_index: 0, x_is_next: true }
    }

    /// Plays a move on square `index` of the shown board, when it is
    /// legal: history after the shown move is discarded, the new board
    /// appended, the shown move advanced and the turn flipped. Reports
    /// whether the move was applied; an illegal move leaves the state
    /// untouched.
    pub fn play(&mut self, index: usize) -> (applied: bool)
        requires
            old(self).wf(),
            old(self).step_index < usize::MAX,
        ensures
            final(self).wf(),
            applied == (spec_winner(old(self).spec_current()) is None && index < old(
                self,
            ).spec_current().len() && old(self).spec_current()[index as int] is None),
            applied ==> ({
                &&& final(self).step_index == old(self).step_index + 1
                &&& final(self).x_is_next == !spec_x_is_next(old(self).spec_current())
                &&& final(self).squares_history@.len() == old(self).step_index + 2
                &&& (forall|k: int|
                    0 <= k <= old(self).step_index ==> final(self).squares_history@[k] == old(
                        self,
                    ).squares_history@[k])
                &&& final(self).spec_current() == old(self).spec_current().update(
                    index as int,
                    Some(next_mark(old(self).spec_current())),
                )
            }),
            !applied ==> *final(self) == *old(self),
    {
        let current = &self.squares_history[self.step_index];
        let next = next_board(current, index);
        match next {
            Some(board) => {
                let turn = !x_is_next(&self.squares_history[self.step_index]);
                self.squares_history.truncate(self.step_index + 1);
                self.squares_history.push(board);
                self.step_index = self.step_index + 1;
                self.x_is_next = turn;
                proof {
                    assert(self.squares_history@ =~= old(self).squares_history@.take(
                        old(self).step_index + 1,
                    ).push(self.squares_history@.last()));
                }
                true
            },
            None => false,
        }
    }

    /// Shows an earlier (or later, after jumping back) move again, when it
    /// exists. Reports whether the jump was applied.
    pub fn jump_to(&mut self, step: usize) -> (applied: bool)
        requires
            old(self).wf(),
        ensures
            final(self).wf(),
            applied == (step < old(self).squares_history@.len()),
            applied ==> final(self).step_index == step && final(self).squares_history == old(
                self,
            ).squares_history && final(self).x_is_next == (step % 2 == 0),
            !applied ==> *final(self) == *old(self),
    {
        if step < self.squares_history.len() {
            self.step_index = step;
            self.x_is_next = step % 2 == 0;
            true
        } else {
            false
        }
    }
}

} // verus!
