//! The ants and the board they walk on.

use vstd::prelude::*;
use crate::canvas::{Canvas, CanvasView};
use crate::color::Color;
use crate::frame::DrawCall;

verus! {

/// The way an ant faces.
#[derive(Debug, Clone, Copy, PartialEq, Eq, Structural)]
pub enum Direction {
    North,
    East,
    South,
    West,
}

impl Default for Direction {
    fn default() -> (direction: Direction)
        ensures
            direction == Direction::North,
    {
        Direction::North
    }
}

impl Direction {
    /// The direction a quarter turn to the left.
    pub open spec fn turned_left(self) -> Direction {
        match self {
            Direction::North => Direction::West,
            Direction::East => Direction::North,
            Direction::South => Direction::East,
            Direction::West => Direction::South,
        }
    }

    /// The direction a quarter turn to the right.
    pub open spec fn turned_right(self) -> Direction {
        match self {
            Direction::North => Direction::East,
            Direction::East => Direction::South,
            Direction::South => Direction::West,
            Direction::West => Direction::North,
        }
    }

    /// Turns a quarter to the left.
    pub fn left(self) -> (turned: Direction)
        ensures
            turned == self.turned_left(),
    {
        match self {
            Direction::North => Direction::West,
            Direction::East => Direction::North,
            Direction::South => Direction::East,
            Direction::West => Direction::South,
        }
    }

    /// Turns a quarter to the right.
    pub fn right(self) -> (turned: Direction)
        ensures
            turned == self.turned_right(),
    {
        match self {
            Direction::North => Direction::East,
            Direction::East => Direction::South,
            Direction::South => Direction::West,
            Direction::West => Direction::North,
        }
    }
}

/// One ant: where it is, the way it faces, and the color it leaves.
#[derive(Debug, Clone, Copy, PartialEq, Eq, Structural)]
pub struct Ant {
    pub x: usize,
    pub y: usize,
    pub direction: Direction,
    pub id: usize,
    pub color: Color,
}

impl Ant {
    /// Whether the ant stands on a board of `width` by `height` cells.
    pub open spec fn on_board(self, width: nat, height: nat) -> bool {
        self.x < width && self.y < height
    }

    /// Whether the ant can take a step on a board of `width` by `height`
    /// cells: the side that it walks along and may wrap around is not
    /// empty.
    pub open spec fn can_move(self, width: nat, height: nat) -> bool {
        match self.direction {
            Direction::North => height > 0,
            Direction::East => width > 0,
            Direction::South => self.y > 0 || height > 0,
            Direction::West => self.x > 0 || width > 0,
        }
    }

    /// The ant one cell further in its direction; at the edge of the board
    /// it comes back in on the other side.
    pub open spec fn moved(self, width: nat, height: nat) -> Ant {
        match self.direction {
            Direction::North => Ant {
                y: if self.y < height - 1 {
                    (self.y + 1) as usize
                } else {
                    0
                },
                ..self
            },
            Direction::East => Ant {
                x: if self.x < width - 1 {
                    (self.x + 1) as usize
                } else {
                    0
                },
                ..self
            },
            Direction::South => Ant {
                y: if self.y > 0 {
                    (self.y - 1) as usize
                } else {
                    (height - 1) as usize
                },
                ..self
            },
            Direction::West => Ant {
                x: if self.x > 0 {
                    (self.x - 1) as usize
                } else {
                    (width - 1) as usize
                },
                ..self
            },
        }
    }

    /// Takes one step on a board of `board_width` by `board_height` cells.
    pub fn move_forward(&mut self, board_width: usize, board_height: usize)
        requires
            old(self).can_move(board_width as nat, board_height as nat),
        ensures
            *final(self) == old(self).moved(board_width as nat, board_height as nat),
    {
        match self.direction {
            Direction::North => {
                if self.y < board_height - 1 {
                    self.y += 1
                } else {
                    self.y = 0
                }
            },
            Direction::East => {
                if self.x < board_width - 1 {
                    self.x += 1
                } else {
                    self.x = 0
                }
            },
            Direction::South => {
                if self.y > 0 {
                    self.y -= 1
                } else {
                    self.y = board_height - 1
                }
            },
            Direction::West => {
                if self.x > 0 {
                    self.x -= 1
                } else {
                    self.x = board_width - 1
                }
            },
        }
    }
}

/// A colony as the contracts see it.
pub struct ColonyView {
    /// For each cell, by column, then by row, the ant that marked it, if
    /// the cell is marked.
    pub board: Seq<Seq<Option<usize>>>,
    /// The ants, in the order in which they move.
    pub ants: Seq<Ant>,
    /// The number of columns of the board.
    pub width: nat,
    /// The number of rows of the board.
    pub height: nat,
}

impl ColonyView {
    /// What every colony satisfies: the board has its shape and every ant
    /// stands on it.
    pub open spec fn wf(self) -> bool {
        &&& self.width <= usize::MAX
        &&& self.height <= usize::MAX
        &&& self.board.len() == self.width
        &&& forall|x: int| 0 <= x < self.width ==> (#[trigger] self.board[x]).len() == self.height
        &&& forall|k: int|
            0 <= k < self.ants.len() ==> (#[trigger] self.ants[k]).on_board(self.width, self.height)
    }

    /// The draw call that the visit of the ant at `k` queues: an unmarked
    /// cell takes the color of the ant, a marked one goes back to `blank`.
    pub open spec fn call_of(self, k: int, blank: Color) -> DrawCall {
        let ant = self.ants[k];
        DrawCall {
            x: ant.x,
            y: ant.y,
            color: if self.board[ant.x as int][ant.y as int] is Some {
                blank
            } else {
                ant.color
            },
        }
    }

    /// The colony after the visit of the ant at `k`: on an unmarked cell
    /// the ant turns right and marks the cell, on a marked one it turns
    /// left and clears the mark; then it takes a step.
    pub open spec fn visited(self, k: int) -> ColonyView {
        let ant = self.ants[k];
        let marked = self.board[ant.x as int][ant.y as int] is Some;
        let turned = Ant {
            direction: if marked {
                ant.direction.turned_left()
            } else {
                ant.direction.turned_right()
            },
            ..ant
        };
        ColonyView {
            board: self.board.update(
                ant.x as int,
                self.board[ant.x as int].update(
                    ant.y as int,
                    if marked {
                        None
                    } else {
                        Some(ant.id)
                    },
                ),
            ),
            ants: self.ants.update(k, turned.moved(self.width, self.height)),
            ..self
        }
    }

    /// The colony after the first `n` ants have had their visit, one after
    /// the other.
    pub open spec fn swept(self, n: nat) -> ColonyView
        decreases n,
    {
        if n == 0 {
            self
        } else {
            self.swept((n - 1) as nat).visited(n - 1)
        }
    }

    /// The draw calls that the visits of the first `n` ants queue, in order.
    pub open spec fn calls(self, n: nat, blank: Color) -> Seq<DrawCall>
        decreases n,
    {
        if n == 0 {
            Seq::empty()
        } else {
            self.calls((n - 1) as nat, blank).push(
                self.swept((n - 1) as nat).call_of(n - 1, blank),
            )
        }
    }
}

/// The ants and the board that they mark.
pub struct Colony {
    /// indexed by x, y
    board: Vec<Vec<Option<usize>>>,
    ants: Vec<Ant>,
    width: usize,
    height: usize,
}

impl View for Colony {
    type V = ColonyView;

    closed spec fn view(&self) -> ColonyView {
        ColonyView {
            board: Seq::new(self.board@.len(), |x: int| self.board@[x]@),
            ants: self.ants@,
            width: self.width as nat,
            height: self.height as nat,
        }
    }
}

impl Colony {
    /// Whether the colony is in order.
    pub open spec fn wf(&self) -> bool {
        self@.wf()
    }

    /// A colony of `ants` on an unmarked board of `width` by `height`
    /// cells.
    pub fn new(width: usize, height: usize, ants: Vec<Ant>) -> (colony: Colony)
        requires
            forall|k: int|
                0 <= k < ants@.len() ==> (#[trigger] ants@[k]).on_board(width as nat, height as nat),
        ensures
            colony.wf(),
            colony@ == (ColonyView {
                board: Seq::new(width as nat, |x: int| Seq::new(height as nat, |y: int| None)),
                ants: ants@,
                width: width as nat,
                height: height as nat,
            }),
    {
        let mut board: Vec<Vec<Option<usize>>> = Vec::new();
        let mut x: usize = 0;
        while x < width
            invariant
                x <= width,
                board@.len() == x,
                forall|i: int| 0 <= i < x ==> (#[trigger] board@[i])@.len() == height,
                forall|i: int, j: int|
                    0 <= i < x && 0 <= j < height ==> #[trigger] board@[i]@[j] == None::<usize>,
            decreases width - x,
        {
            let mut column: Vec<Option<usize>> = Vec::new();
            let mut y: usize = 0;
            while y < height
                invariant
                    y <= height,
                    column@.len() == y,
                    forall|j: int| 0 <= j < y ==> #[trigger] column@[j] == None::<usize>,
                decreases height - y,
            {
                column.push(None);
                y = y + 1;
            }
            board.push(column);
            x = x + 1;
        }
        let colony = Colony { board, ants, width, height };
        proof {
            let blank = Seq::new(
                width as nat,
                |x: int| Seq::new(height as nat, |y: int| None::<usize>),
            );
            assert forall|x: int| 0 <= x < width implies #[trigger] colony@.board[x] =~= blank[x] by {}
            assert(colony@.board =~= blank);
        }
        colony
    }

    /// The number of columns of the board.
    pub fn width(&self) -> (width: usize)
        ensures
            width == self@.width,
    {
        self.width
    }

    /// The number of rows of the board.
    pub fn height(&self) -> (height: usize)
        ensures
            height == self@.height,
    {
        self.height
    }

    /// The number of ants.
    pub fn len(&self) -> (count: usize)
        ensures
            count == self@.ants.len(),
    {
        self.ants.len()
    }

    /// The ant at `k`.
    pub fn ant(&self, k: usize) -> (ant: Ant)
        requires
            k < self@.ants.len(),
        ensures
            ant == self@.ants[k as int],
    {
        self.ants[k]
    }

    /// The ant that marked the cell `(x, y)`, if the cell is marked.
    pub fn mark(&self, x: usize, y: usize) -> (mark: Option<usize>)
        requires
            self.wf(),
            x < self@.width,
            y < self@.height,
        ensures
            mark == self@.board[x as int][y as int],
    {
        assert(self@.board[x as int] == self.board@[x as int]@);
        self.board[x][y]
    }

    /// Lets every ant have its visit, in order, and queues a draw call for
    /// each cell that an ant leaves: in the color of the ant where it
    /// marked the cell, in `blank` where it cleared a mark.
    pub fn step(&mut self, canvas: &mut Canvas, blank: Color)
        requires
            old(self).wf(),
            old(canvas).wf(),
            old(canvas)@.width() == old(self)@.width,
            old(canvas)@.height() == old(self)@.height,
        ensures
            final(self).wf(),
            final(canvas).wf(),
            final(self)@ == old(self)@.swept(old(self)@.ants.len()),
            final(canvas)@ == (CanvasView {
                pending: old(canvas)@.pending + old(self)@.calls(old(self)@.ants.len(), blank),
                ..old(canvas)@
            }),
    {
        let mut k: usize = 0;
        proof {
            assert(canvas@.pending + old(self)@.calls(0, blank) =~= canvas@.pending);
        }
        while k < self.ants.len()
            invariant
                k <= self.ants@.len(),
                self.ants@.len() == old(self)@.ants.len(),
                self.wf(),
                canvas.wf(),
                self@ == old(self)@.swept(k as nat),
                canvas@ == (CanvasView {
                    pending: old(canvas)@.pending + old(self)@.calls(k as nat, blank),
                    ..old(canvas)@
                }),
                old(canvas)@.width() == old(self)@.width,
                old(canvas)@.height() == old(self)@.height,
                self@.width == old(self)@.width,
                self@.height == old(self)@.height,
            decreases self.ants@.len() - k,
        {
            let ghost before = self@;
            let ghost queued = canvas@.pending;
            let ant = self.ants[k];
            assert(self@.ants[k as int].on_board(self@.width, self@.height));
            assert(self@.board[ant.x as int] == self.board@[ant.x as int]@);
            let current_cell_state = self.board[ant.x][ant.y];
            let mut next = ant;
            let new_cell_color;
            match current_cell_state {
                None => {
                    next.direction = ant.direction.right();
                    self.board[ant.x][ant.y] = Some(ant.id);
                    new_cell_color = ant.color;
                },
                Some(_) => {
                    next.direction = ant.direction.left();
                    self.board[ant.x][ant.y] = None;
                    new_cell_color = blank;
                },
            }
            canvas.fill_rect(ant.x, ant.y, new_cell_color);
            next.move_forward(self.width, self.height);
            self.ants[k] = next;
            proof {
                let after = before.visited(k as int);
                assert(self@.ants =~= after.ants);
                assert forall|x: int| 0 <= x < self@.width implies #[trigger] self@.board[x]
                    =~= after.board[x] by {}
                assert(self@.board =~= after.board);
                assert(self@ == after);
                assert(old(self)@.swept((k + 1) as nat) == after);
                assert(canvas@.pending =~= old(canvas)@.pending + old(self)@.calls(
                    (k + 1) as nat,
                    blank,
                ));
                lemma_step_stays_on_board(
                    Ant { direction: next.direction, ..ant },
                    self@.width,
                    self@.height,
                );
            }
            k = k + 1;
        }
    }
}

/// A quarter turn to one side undoes a quarter turn to the other, and
/// four quarter turns to one side lead back.
pub proof fn lemma_turns_cancel(direction: Direction)
    ensures
        direction.turned_left().turned_right() == direction,
        direction.turned_right().turned_left() == direction,
        direction.turned_left().turned_left().turned_left().turned_left() == direction,
        direction.turned_right().turned_right().turned_right().turned_right() == direction,
{
}

/// An ant on the board can take a step, and the step leaves it on the
/// board, facing as before.
pub proof fn lemma_step_stays_on_board(ant: Ant, width: nat, height: nat)
    requires
        ant.on_board(width, height),
        width <= usize::MAX,
        height <= usize::MAX,
    ensures
        ant.can_move(width, height),
        ant.moved(width, height).on_board(width, height),
        ant.moved(width, height).direction == ant.direction,
{
}

} // verus!
