use vstd::prelude::*;
use crate::types::{Ball, Direction, Move, Pos, Ground, MAX_SIZE, grow, grown, step_spec};

verus! {

/// A position of the game: the board, the balls, where the player stands, and
/// the pushes made so far.
#[derive(Clone)]
pub struct State {
    pub width: usize,
    pub height: usize,
    /// Terrain, row by row.
    pub ground: Vec<Ground>,
    pub balls: Vec<Ball>,
    pub player: Pos,
    /// The pushes that led here: ball index and direction.
    pub directions: Vec<Move>,
}

/// The mathematical value of a `State`.
pub struct StateView {
    pub width: int,
    pub height: int,
    pub ground: Seq<Ground>,
    pub balls: Seq<Ball>,
    pub player: Pos,
    pub directions: Seq<Move>,
}

impl View for State {
    type V = StateView;

    open spec fn view(&self) -> StateView {
        StateView {
            width: self.width as int,
            height: self.height as int,
            ground: self.ground@,
            balls: self.balls@,
            player: self.player,
            directions: self.directions@,
        }
    }
}

/// Index of cell `(x, y)` in a row-major grid of the given width.
pub open spec fn cell_index(width: int, x: int, y: int) -> int {
    width * y + x
}

/// A cell of a `w` by `h` grid has an index below `w * h`.
pub proof fn lemma_cell_in_range(w: int, h: int, x: int, y: int)
    requires
        0 <= x < w,
        0 <= y < h,
    ensures
        0 <= cell_index(w, x, y) < w * h,
{
    assert(0 <= w * y + x < w * h) by (nonlinear_arith)
        requires
            0 <= x < w,
            0 <= y < h,
    ;
}

/// Distinct cells of a grid have distinct indices.
pub proof fn lemma_cell_injective(w: int, x1: int, y1: int, x2: int, y2: int)
    requires
        0 <= x1 < w,
        0 <= x2 < w,
        0 <= y1,
        0 <= y2,
        cell_index(w, x1, y1) == cell_index(w, x2, y2),
    ensures
        x1 == x2,
        y1 == y2,
{
    if y1 < y2 {
        assert(w * y2 >= w * (y1 + 1)) by (nonlinear_arith)
            requires
                y1 + 1 <= y2,
                0 < w,
        ;
        assert(w * (y1 + 1) == w * y1 + w) by (nonlinear_arith);
    } else if y2 < y1 {
        assert(w * y1 >= w * (y2 + 1)) by (nonlinear_arith)
            requires
                y2 + 1 <= y1,
                0 < w,
        ;
        assert(w * (y2 + 1) == w * y2 + w) by (nonlinear_arith);
    }
}

impl StateView {
    pub open spec fn in_bounds(&self, x: int, y: int) -> bool {
        0 <= x < self.width && 0 <= y < self.height
    }

    pub open spec fn ground_at(&self, x: int, y: int) -> Ground {
        self.ground[cell_index(self.width, x, y)]
    }

    /// Some ball other than ball `i`, of size below `below`, rests on `(x, y)`.
    pub open spec fn other_at(&self, i: int, x: int, y: int, below: int) -> bool {
        exists|j: int|
            0 <= j < self.balls.len() && j != i && self.balls[j].x == x && self.balls[j].y == y
                && self.balls[j].size < below
    }

    /// Some ball rests on `(x, y)`.
    pub open spec fn ball_at(&self, x: int, y: int) -> bool {
        exists|j: int| 0 <= j < self.balls.len() && self.balls[j].x == x && self.balls[j].y == y
    }

    /// The grid is non-empty, its dimensions fit coordinates, and `ground`
    /// holds one entry per cell.
    pub open spec fn shape_ok(&self) -> bool {
        &&& 1 <= self.width <= i32::MAX
        &&& 1 <= self.height <= i32::MAX
        &&& self.width * self.height <= usize::MAX
        &&& self.ground.len() == self.width * self.height
    }

    /// Ball `i` lies in bounds, off blocks and off snow, with a size from 1 to
    /// `MAX_SIZE`.
    pub open spec fn ball_ok(&self, i: int) -> bool {
        let b = self.balls[i];
        &&& self.in_bounds(b.x as int, b.y as int)
        &&& self.ground_at(b.x as int, b.y as int) == Ground::Plain
        &&& 1 <= b.size <= MAX_SIZE
    }

    /// Two balls share a cell only when their sizes differ.
    pub open spec fn stacking_ok(&self) -> bool {
        forall|i: int, j: int|
            0 <= i < self.balls.len() && 0 <= j < self.balls.len() && i != j
                && self.balls[i].x == self.balls[j].x && self.balls[i].y == self.balls[j].y
                ==> self.balls[i].size != self.balls[j].size
    }

    /// The invariant of a game position.
    pub open spec fn valid(&self) -> bool {
        &&& self.shape_ok()
        &&& self.in_bounds(self.player.x as int, self.player.y as int)
        &&& self.ground_at(self.player.x as int, self.player.y as int) != Ground::Block
        &&& forall|i: int| 0 <= i < self.balls.len() ==> self.ball_ok(i)
        &&& self.stacking_ok()
    }

    /// The cell that ball `i` lands on when pushed in direction `d`.
    pub open spec fn target(&self, i: int, d: Direction) -> (int, int) {
        step_spec(d, self.balls[i].x as int, self.balls[i].y as int)
    }

    /// The push of ball `i` in direction `d` is allowed.
    pub open spec fn can_push(&self, i: int, d: Direction) -> bool {
        let b = self.balls[i];
        let (nx, ny) = self.target(i, d);
        &&& self.in_bounds(nx, ny)
        &&& self.ground_at(nx, ny) != Ground::Block
        &&& !self.other_at(i, nx, ny, b.size + 1)
        &&& !self.other_at(i, b.x as int, b.y as int, b.size as int)
    }

    /// The position after ball `i` has been pushed in direction `d`, or `None`
    /// where the push is not allowed.
    pub open spec fn pushed(&self, i: int, d: Direction) -> Option<StateView> {
        if !self.can_push(i, d) {
            None
        } else {
            let b = self.balls[i];
            let (nx, ny) = self.target(i, d);
            let size = if self.ground_at(nx, ny) == Ground::Snow {
                grown(b.size)
            } else {
                b.size
            };
            let player = if self.other_at(i, b.x as int, b.y as int, 256) {
                self.player
            } else {
                Pos { x: b.x, y: b.y }
            };
            Some(
                StateView {
                    ground: self.ground.update(cell_index(self.width, nx, ny), Ground::Plain),
                    balls: self.balls.update(i, Ball { size, x: nx as i32, y: ny as i32 }),
                    player,
                    ..*self
                },
            )
        }
    }
}

/// A successful push keeps a valid position valid: every ball stays in
/// bounds, off blocks and off snow, two balls share a cell only when their
/// sizes differ, and every size stays between 1 and `MAX_SIZE`.
pub proof fn lemma_push_keeps_valid(v: StateView, i: int, d: Direction)
    requires
        v.valid(),
        0 <= i < v.balls.len(),
        v.pushed(i, d) is Some,
    ensures
        v.pushed(i, d).unwrap().valid(),
{
    let w = v.pushed(i, d).unwrap();
    let b = v.balls[i];
    let (nx, ny) = v.target(i, d);
    let t = cell_index(v.width, nx, ny);
    assert(v.ball_ok(i));
    lemma_cell_in_range(v.width, v.height, nx, ny);
    assert forall|j: int| 0 <= j < w.balls.len() implies w.ball_ok(j) by {
        assert(v.ball_ok(j));
        let c = w.balls[j];
        if j != i {
            lemma_cell_in_range(v.width, v.height, c.x as int, c.y as int);
            if cell_index(v.width, c.x as int, c.y as int) == t {
                lemma_cell_injective(v.width, c.x as int, c.y as int, nx, ny);
            }
        }
    }
    assert forall|j: int, k: int|
        0 <= j < w.balls.len() && 0 <= k < w.balls.len() && j != k && w.balls[j].x
            == w.balls[k].x && w.balls[j].y == w.balls[k].y implies w.balls[j].size
        != w.balls[k].size by {
        if j == i || k == i {
            let o = if j == i { k } else { j };
            assert(v.ball_ok(o));
            assert(!v.other_at(i, nx, ny, b.size + 1));
            assert(v.balls[o].size > b.size);
            if v.ground_at(nx, ny) == Ground::Snow {
                assert(v.ground_at(v.balls[o].x as int, v.balls[o].y as int) == Ground::Plain);
            }
        }
    }
    let p = w.player;
    if p != v.player {
        assert(v.ball_ok(i));
        lemma_cell_in_range(v.width, v.height, b.x as int, b.y as int);
        if cell_index(v.width, b.x as int, b.y as int) == t {
            lemma_cell_injective(v.width, b.x as int, b.y as int, nx, ny);
        }
    } else {
        lemma_cell_in_range(v.width, v.height, p.x as int, p.y as int);
        if cell_index(v.width, p.x as int, p.y as int) == t {
            lemma_cell_injective(v.width, p.x as int, p.y as int, nx, ny);
        }
    }
}

/// A successful push never shrinks a ball and never grows one past
/// `MAX_SIZE`; only the pushed ball changes size.
pub proof fn lemma_push_sizes(v: StateView, i: int, d: Direction)
    requires
        v.valid(),
        0 <= i < v.balls.len(),
        v.pushed(i, d) is Some,
    ensures
        forall|j: int|
            0 <= j < v.balls.len() ==> v.balls[j].size <= #[trigger] v.pushed(i, d).unwrap().balls[j].size
                <= MAX_SIZE,
        forall|j: int|
            0 <= j < v.balls.len() && j != i ==> #[trigger] v.pushed(i, d).unwrap().balls[j].size
                == v.balls[j].size,
{
    lemma_push_keeps_valid(v, i, d);
    assert forall|j: int| 0 <= j < v.balls.len() implies v.balls[j].size <= #[trigger] v.pushed(i, d).unwrap().balls[j].size <= MAX_SIZE by {
        assert(v.ball_ok(j));
        assert(v.pushed(i, d).unwrap().ball_ok(j));
    }
}

/// Snow is used up by the push that lands on it: once a ball has landed on a
/// cell, a later push onto that same cell leaves the pushed ball's size as it
/// was.
pub proof fn lemma_snow_consumed_once(v: StateView, i: int, d: Direction, j: int, e: Direction)
    requires
        v.valid(),
        0 <= i < v.balls.len(),
        0 <= j < v.balls.len(),
        v.pushed(i, d) is Some,
        v.pushed(i, d).unwrap().pushed(j, e) is Some,
        v.pushed(i, d).unwrap().target(j, e) == v.target(i, d),
    ensures
        v.pushed(i, d).unwrap().ground_at(v.target(i, d).0, v.target(i, d).1) == Ground::Plain,
        v.pushed(i, d).unwrap().pushed(j, e).unwrap().balls[j].size == v.pushed(i, d).unwrap().balls[j].size,
{
    let (nx, ny) = v.target(i, d);
    lemma_cell_in_range(v.width, v.height, nx, ny);
}

impl State {
    /// Terrain of `(x, y)`, or `None` outside the grid.
    pub fn get(&self, x: i32, y: i32) -> (r: Option<Ground>)
        requires
            self@.shape_ok(),
        ensures
            r == (if self@.in_bounds(x as int, y as int) {
                Some(self@.ground_at(x as int, y as int))
            } else {
                None
            }),
    {
        if x < 0 || x >= self.width as i32 || y < 0 || y >= self.height as i32 {
            return None;
        }
        proof {
            lemma_cell_in_range(self.width as int, self.height as int, x as int, y as int);
        }
        Some(self.ground[self.width * y as usize + x as usize])
    }

    /// Sets the terrain of `(x, y)`.
    pub fn set(&mut self, x: usize, y: usize, value: Ground)
        requires
            old(self)@.shape_ok(),
            x < old(self).width,
            y < old(self).height,
        ensures
            final(self)@ == (StateView {
                ground: old(self)@.ground.update(
                    cell_index(old(self).width as int, x as int, y as int),
                    value,
                ),
                ..old(self)@
            }),
    {
        proof {
            lemma_cell_in_range(self.width as int, self.height as int, x as int, y as int);
        }
        let idx = self.width * y + x;
        self.ground.set(idx, value);
    }

    /// Whether some ball other than ball `i`, of size below `below`, rests on
    /// `(x, y)`.
    pub fn other_at(&self, i: usize, x: i32, y: i32, below: u16) -> (r: bool)
        ensures
            r == self@.other_at(i as int, x as int, y as int, below as int),
    {
        let mut j: usize = 0;
        while j < self.balls.len()
            invariant
                j <= self.balls.len(),
                forall|k: int|
                    0 <= k < j ==> !(k != i && self.balls@[k].x == x && self.balls@[k].y == y
                        && self.balls@[k].size < below),
            decreases self.balls.len() - j,
        {
            let b = self.balls[j];
            if j != i && b.x == x && b.y == y && (b.size as u16) < below {
                assert(self@.balls[j as int] == b);
                return true;
            }
            j = j + 1;
        }
        false
    }

    /// Pushes ball `i` one cell in direction `d`, if the stacking rules allow
    /// it, without asking whether the player can get behind the ball. Snow
    /// under the landing cell grows the ball and is used up; where no other
    /// ball stays on the cell the ball left, the player steps onto it.
    /// Returns whether the push was made; a refused push changes nothing.
    pub fn push(&mut self, i: usize, d: Direction) -> (r: bool)
        requires
            old(self)@.valid(),
            i < old(self).balls.len(),
        ensures
            r == old(self)@.can_push(i as int, d),
            r ==> old(self)@.pushed(i as int, d) == Some(final(self)@),
            !r ==> *final(self) == *old(self),
    {
        let this = self.balls[i];
        proof {
            assert(old(self)@.ball_ok(i as int));
        }
        let (nx, ny) = d.step(this.x, this.y);
        let g = self.get(nx, ny);
        if matches!(g, None | Some(Ground::Block)) {
            return false;
        }
        if self.other_at(i, nx, ny, this.size as u16 + 1) {
            return false;
        }
        if self.other_at(i, this.x, this.y, this.size as u16) {
            return false;
        }
        let any_ball = self.other_at(i, this.x, this.y, 256);
        let size = if matches!(g, Some(Ground::Snow)) {
            grow(this.size)
        } else {
            this.size
        };
        self.balls.set(i, Ball { size, x: nx, y: ny });
        self.set(nx as usize, ny as usize, Ground::Plain);
        if !any_ball {
            self.player = Pos { x: this.x, y: this.y };
        }
        proof {
            let v = old(self)@;
            assert(self@.balls =~= v.pushed(i as int, d).unwrap().balls);
            assert(self@.ground =~= v.pushed(i as int, d).unwrap().ground);
        }
        true
    }

    /// Whether this position satisfies the invariant `valid`.
    pub fn is_valid(&self) -> (r: bool)
        ensures
            r == self@.valid(),
    {
        if self.width == 0 || self.height == 0 || self.width > i32::MAX as usize || self.height
            > i32::MAX as usize {
            return false;
        }
        match self.width.checked_mul(self.height) {
            None => {
                return false;
            },
            Some(n) => {
                if self.ground.len() != n {
                    return false;
                }
            },
        }
        match self.get(self.player.x, self.player.y) {
            None => {
                return false;
            },
            Some(g) => {
                if g == Ground::Block {
                    return false;
                }
            },
        }
        let mut i: usize = 0;
        while i < self.balls.len()
            invariant
                self@.shape_ok(),
                i <= self.balls.len(),
                forall|k: int| 0 <= k < i ==> self@.ball_ok(k),
            decreases self.balls.len() - i,
        {
            let b = self.balls[i];
            assert(self@.balls[i as int] == b);
            if b.size < 1 || b.size > MAX_SIZE {
                assert(!self@.ball_ok(i as int));
                return false;
            }
            match self.get(b.x, b.y) {
                Some(Ground::Plain) => {},
                _ => {
                    assert(!self@.ball_ok(i as int));
                    return false;
                },
            }
            i = i + 1;
        }
        let mut i: usize = 0;
        while i < self.balls.len()
            invariant
                i <= self.balls.len(),
                forall|a: int, b: int|
                    0 <= a < i && 0 <= b < self.balls.len() && a != b && self.balls@[a].x
                        == self.balls@[b].x && self.balls@[a].y == self.balls@[b].y
                        ==> self.balls@[a].size != self.balls@[b].size,
            decreases self.balls.len() - i,
        {
            let mut j: usize = 0;
            while j < self.balls.len()
                invariant
                    i < self.balls.len(),
                    j <= self.balls.len(),
                    forall|a: int, b: int|
                        0 <= a < i && 0 <= b < self.balls.len() && a != b && self.balls@[a].x
                            == self.balls@[b].x && self.balls@[a].y == self.balls@[b].y
                            ==> self.balls@[a].size != self.balls@[b].size,
                    forall|b: int|
                        0 <= b < j && i != b && self.balls@[i as int].x == self.balls@[b].x
                            && self.balls@[i as int].y == self.balls@[b].y
                            ==> self.balls@[i as int].size != self.balls@[b].size,
                decreases self.balls.len() - j,
            {
                let p = self.balls[i];
                let q = self.balls[j];
                if i != j && p.x == q.x && p.y == q.y && p.size == q.size {
                    return false;
                }
                j = j + 1;
            }
            i = i + 1;
        }
        true
    }
}

} // verus!
