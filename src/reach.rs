use vstd::prelude::*;
use crate::state::{
    State, StateView, cell_index, lemma_cell_in_range, lemma_cell_injective, lemma_push_keeps_valid,
};
use crate::types::{Direction, Ground, Move, Pos, inverse_spec, step_spec};

verus! {

impl StateView {
    /// The player may walk onto `(x, y)`: it is in bounds, not a block, and no
    /// ball rests there.
    pub open spec fn free(&self, x: int, y: int) -> bool {
        &&& self.in_bounds(x, y)
        &&& self.ground_at(x, y) != Ground::Block
        &&& !self.ball_at(x, y)
    }

    /// The player can walk to `(x, y)` in at most `k` steps.
    pub open spec fn reach_within(&self, x: int, y: int, k: nat) -> bool
        decreases k,
    {
        if k == 0 {
            x == self.player.x && y == self.player.y
        } else {
            self.reach_within(x, y, (k - 1) as nat) || (self.free(x, y) && (self.reach_within(
                x - 1,
                y,
                (k - 1) as nat,
            ) || self.reach_within(x + 1, y, (k - 1) as nat) || self.reach_within(
                x,
                y - 1,
                (k - 1) as nat,
            ) || self.reach_within(x, y + 1, (k - 1) as nat)))
        }
    }

    /// The player can walk to `(x, y)`.
    pub open spec fn reachable(&self, x: int, y: int) -> bool {
        exists|k: nat| self.reach_within(x, y, k)
    }

    /// Cell `(x, y)` is marked in `mask` if the player may walk onto it.
    pub open spec fn marked_if_free(&self, mask: Seq<bool>, x: int, y: int) -> bool {
        self.free(x, y) ==> mask[cell_index(self.width, x, y)]
    }

    /// Each free neighbour of `(x, y)` is marked in `mask`.
    pub open spec fn neighbours_marked(&self, mask: Seq<bool>, x: int, y: int) -> bool {
        &&& self.marked_if_free(mask, x - 1, y)
        &&& self.marked_if_free(mask, x + 1, y)
        &&& self.marked_if_free(mask, x, y - 1)
        &&& self.marked_if_free(mask, x, y + 1)
    }

    /// The outcome of `step_ball`: whether the push was made, and the position
    /// after it. The player first walks to the cell behind the ball; where the
    /// push is then refused the player stays there.
    pub open spec fn stepped(&self, i: int, d: Direction) -> (bool, StateView) {
        let b = self.balls[i];
        let s = step_spec(inverse_spec(d), b.x as int, b.y as int);
        if !self.reachable(s.0, s.1) {
            (false, *self)
        } else {
            let v = StateView { player: Pos { x: s.0 as i32, y: s.1 as i32 }, ..*self };
            match v.pushed(i, d) {
                Some(w) => (true, StateView { directions: w.directions.push(Move { ball: i as usize, dir: d }), ..w }),
                None => (false, v),
            }
        }
    }
}

/// Number of cells of `s` that are not marked.
pub open spec fn count_unmarked(s: Seq<bool>) -> nat
    decreases s.len(),
{
    if s.len() == 0 {
        0
    } else {
        count_unmarked(s.drop_last()) + if s.last() {
            0nat
        } else {
            1nat
        }
    }
}

/// Marking one unmarked cell leaves one fewer unmarked.
pub proof fn lemma_count_unmarked_update(s: Seq<bool>, i: int)
    requires
        0 <= i < s.len(),
        !s[i],
    ensures
        count_unmarked(s.update(i, true)) + 1 == count_unmarked(s),
    decreases s.len(),
{
    let t = s.update(i, true);
    if i == s.len() - 1 {
        assert(t.drop_last() =~= s.drop_last());
    } else {
        assert(t.drop_last() =~= s.drop_last().update(i, true));
        lemma_count_unmarked_update(s.drop_last(), i);
    }
}

/// Every cell the player can reach lies in bounds, and is either where the
/// player stands or free.
pub proof fn lemma_reach_free(v: StateView, x: int, y: int, k: nat)
    requires
        v.in_bounds(v.player.x as int, v.player.y as int),
        v.reach_within(x, y, k),
    ensures
        v.in_bounds(x, y),
        (x == v.player.x && y == v.player.y) || v.free(x, y),
    decreases k,
{
    if k > 0 && v.reach_within(x, y, (k - 1) as nat) {
        lemma_reach_free(v, x, y, (k - 1) as nat);
    }
}

/// A mask that marks the player's cell and is closed under stepping onto free
/// neighbours marks every reachable cell.
pub proof fn lemma_closed_mask_complete(v: StateView, mask: Seq<bool>, x: int, y: int, k: nat)
    requires
        v.shape_ok(),
        mask.len() == v.width * v.height,
        v.in_bounds(v.player.x as int, v.player.y as int),
        mask[cell_index(v.width, v.player.x as int, v.player.y as int)],
        forall|a: int, b: int|
            v.in_bounds(a, b) && #[trigger] mask[cell_index(v.width, a, b)] ==> v.neighbours_marked(
                mask,
                a,
                b,
            ),
        v.reach_within(x, y, k),
    ensures
        mask[cell_index(v.width, x, y)],
    decreases k,
{
    if k > 0 {
        let j = (k - 1) as nat;
        if v.reach_within(x, y, j) {
            lemma_closed_mask_complete(v, mask, x, y, j);
        } else {
            let (a, b) = if v.reach_within(x - 1, y, j) {
                (x - 1, y)
            } else if v.reach_within(x + 1, y, j) {
                (x + 1, y)
            } else if v.reach_within(x, y - 1, j) {
                (x, y - 1)
            } else {
                (x, y + 1)
            };
            lemma_closed_mask_complete(v, mask, a, b, j);
            lemma_reach_free(v, a, b, j);
            assert(v.neighbours_marked(mask, a, b));
        }
    }
}

/// What holds of the flood fill's mask and queue while it runs: queued cells
/// are marked, marked cells are reachable, and a marked cell has all its free
/// neighbours marked unless it still waits in the queue or is the cell being
/// expanded.
spec fn flood_inv(v: StateView, mask: Seq<bool>, queue: Seq<Pos>, head: int, busy: Option<Pos>) -> bool {
    &&& v.shape_ok()
    &&& v.in_bounds(v.player.x as int, v.player.y as int)
    &&& mask.len() == v.width * v.height
    &&& 0 <= head <= queue.len()
    &&& mask[cell_index(v.width, v.player.x as int, v.player.y as int)]
    &&& forall|j: int|
        0 <= j < queue.len() ==> v.in_bounds(#[trigger] queue[j].x as int, queue[j].y as int)
            && mask[cell_index(v.width, queue[j].x as int, queue[j].y as int)]
    &&& forall|a: int, b: int|
        v.in_bounds(a, b) && #[trigger] mask[cell_index(v.width, a, b)] ==> v.reachable(a, b)
    &&& forall|a: int, b: int|
        v.in_bounds(a, b) && #[trigger] mask[cell_index(v.width, a, b)] ==> (exists|j: int|
            head <= j < queue.len() && #[trigger] queue[j] == Pos { x: a as i32, y: b as i32 })
            || v.neighbours_marked(mask, a, b) || busy == Some(Pos { x: a as i32, y: b as i32 })
}

proof fn lemma_marked_grows(v: StateView, mask: Seq<bool>, mask2: Seq<bool>, x: int, y: int)
    requires
        v.shape_ok(),
        mask.len() == v.width * v.height,
        mask2.len() == mask.len(),
        forall|c: int| 0 <= c < mask.len() && mask[c] ==> mask2[c],
        v.marked_if_free(mask, x, y),
    ensures
        v.marked_if_free(mask2, x, y),
{
    if v.free(x, y) {
        lemma_cell_in_range(v.width, v.height, x, y);
    }
}

proof fn lemma_visit_step(
    v: StateView,
    mask: Seq<bool>,
    queue: Seq<Pos>,
    head: int,
    p: Pos,
    x: int,
    y: int,
    mask2: Seq<bool>,
    queue2: Seq<Pos>,
)
    requires
        flood_inv(v, mask, queue, head, Some(p)),
        v.in_bounds(p.x as int, p.y as int),
        mask[cell_index(v.width, p.x as int, p.y as int)],
        (x == p.x - 1 && y == p.y) || (x == p.x + 1 && y == p.y) || (x == p.x && y == p.y - 1) || (
        x == p.x && y == p.y + 1),
        if v.free(x, y) && !mask[cell_index(v.width, x, y)] {
            &&& mask2 == mask.update(cell_index(v.width, x, y), true)
            &&& queue2 == queue.push(Pos { x: x as i32, y: y as i32 })
        } else {
            &&& mask2 == mask
            &&& queue2 == queue
        },
    ensures
        flood_inv(v, mask2, queue2, head, Some(p)),
        v.marked_if_free(mask2, x, y),
        forall|c: int| 0 <= c < mask.len() && mask[c] ==> mask2[c],
        mask2[cell_index(v.width, p.x as int, p.y as int)],
        2 * count_unmarked(mask2) + queue2.len() <= 2 * count_unmarked(mask) + queue.len(),
{
    if v.free(x, y) && !mask[cell_index(v.width, x, y)] {
        let c = cell_index(v.width, x, y);
        lemma_cell_in_range(v.width, v.height, x, y);
        lemma_cell_in_range(v.width, v.height, v.player.x as int, v.player.y as int);
        lemma_cell_in_range(v.width, v.height, p.x as int, p.y as int);
        lemma_count_unmarked_update(mask, c);
        assert(v.reachable(p.x as int, p.y as int));
        let k = choose|k: nat| v.reach_within(p.x as int, p.y as int, k);
        assert(v.reach_within(x, y, k + 1));
        assert forall|a: int, b: int|
            v.in_bounds(a, b) && #[trigger] mask2[cell_index(v.width, a, b)] implies v.reachable(a, b) by {
            lemma_cell_in_range(v.width, v.height, a, b);
            if cell_index(v.width, a, b) == c {
                lemma_cell_injective(v.width, a, b, x, y);
                assert(v.reach_within(a, b, k + 1));
            } else {
                assert(mask[cell_index(v.width, a, b)]);
            }
        }
        assert forall|j: int|
            0 <= j < queue2.len() implies v.in_bounds(#[trigger] queue2[j].x as int, queue2[j].y as int)
                && mask2[cell_index(v.width, queue2[j].x as int, queue2[j].y as int)] by {
            if j < queue.len() {
                assert(queue2[j] == queue[j]);
                assert(mask[cell_index(v.width, queue[j].x as int, queue[j].y as int)]);
                lemma_cell_in_range(v.width, v.height, queue[j].x as int, queue[j].y as int);
            } else {
                assert(queue2[j] == Pos { x: x as i32, y: y as i32 });
            }
        }
        assert forall|a: int, b: int|
            v.in_bounds(a, b) && #[trigger] mask2[cell_index(v.width, a, b)] implies (exists|j: int|
                head <= j < queue2.len() && #[trigger] queue2[j] == Pos { x: a as i32, y: b as i32 })
                || v.neighbours_marked(mask2, a, b) || Some(p) == Some(Pos { x: a as i32, y: b as i32 }) by {
            lemma_cell_in_range(v.width, v.height, a, b);
            if cell_index(v.width, a, b) == c {
                lemma_cell_injective(v.width, a, b, x, y);
                assert(queue2[queue.len() as int] == Pos { x: a as i32, y: b as i32 });
            } else {
                assert(mask[cell_index(v.width, a, b)]);
                if exists|j: int| head <= j < queue.len() && #[trigger] queue[j] == (Pos { x: a as i32, y: b as i32 }) {
                    let j = choose|j: int| head <= j < queue.len() && #[trigger] queue[j] == Pos { x: a as i32, y: b as i32 };
                    assert(queue2[j] == queue[j]);
                } else if v.neighbours_marked(mask, a, b) {
                    lemma_marked_grows(v, mask, mask2, a - 1, b);
                    lemma_marked_grows(v, mask, mask2, a + 1, b);
                    lemma_marked_grows(v, mask, mask2, a, b - 1);
                    lemma_marked_grows(v, mask, mask2, a, b + 1);
                }
            }
        }
    }
}

/// Walking on from a reached cell: if the player reaches `q` from its cell
/// within `k` steps, and from `q` reaches `(x, y)` within `j`, it reaches
/// `(x, y)` within `k + j`.
proof fn lemma_reach_trans(v: StateView, q: Pos, x: int, y: int, k: nat, j: nat)
    requires
        v.reach_within(q.x as int, q.y as int, k),
        (StateView { player: q, ..v }).reach_within(x, y, j),
    ensures
        v.reach_within(x, y, k + j),
    decreases j,
{
    let u = StateView { player: q, ..v };
    if j > 0 {
        let i = (j - 1) as nat;
        if u.reach_within(x, y, i) {
            lemma_reach_trans(v, q, x, y, k, i);
        } else {
            let (a, b) = if u.reach_within(x - 1, y, i) {
                (x - 1, y)
            } else if u.reach_within(x + 1, y, i) {
                (x + 1, y)
            } else if u.reach_within(x, y - 1, i) {
                (x, y - 1)
            } else {
                (x, y + 1)
            };
            lemma_reach_trans(v, q, a, b, k, i);
            assert(u.balls == v.balls && u.ground == v.ground && u.width == v.width);
            assert(v.ball_at(x, y) == u.ball_at(x, y));
            assert(v.free(x, y) == u.free(x, y));
            assert(v.reach_within(x, y, k + j));
        }
    }
}

/// Walking back: where the player's own cell is free, every cell it reaches
/// can reach the player's cell in turn.
proof fn lemma_reach_back(v: StateView, x: int, y: int, k: nat)
    requires
        v.shape_ok(),
        v.free(v.player.x as int, v.player.y as int),
        v.reach_within(x, y, k),
    ensures
        (StateView { player: Pos { x: x as i32, y: y as i32 }, ..v }).reachable(
            v.player.x as int,
            v.player.y as int,
        ),
    decreases k,
{
    let p = v.player;
    let u = StateView { player: Pos { x: x as i32, y: y as i32 }, ..v };
    lemma_reach_free(v, x, y, k);
    if k == 0 {
        assert(u.reach_within(p.x as int, p.y as int, 0));
    } else {
        let i = (k - 1) as nat;
        if v.reach_within(x, y, i) {
            lemma_reach_back(v, x, y, i);
        } else {
            let (a, b) = if v.reach_within(x - 1, y, i) {
                (x - 1, y)
            } else if v.reach_within(x + 1, y, i) {
                (x + 1, y)
            } else if v.reach_within(x, y - 1, i) {
                (x, y - 1)
            } else {
                (x, y + 1)
            };
            lemma_reach_free(v, a, b, i);
            lemma_reach_back(v, a, b, i);
            let n = Pos { x: a as i32, y: b as i32 };
            let un = StateView { player: n, ..v };
            let k1 = choose|k1: nat| un.reach_within(p.x as int, p.y as int, k1);
            assert(u.reach_within(x, y, 0));
            assert(u.reach_within(a, b, 1));
            assert(StateView { player: n, ..u } == un);
            lemma_reach_trans(u, n, p.x as int, p.y as int, 1, k1);
        }
    }
}

/// Two positions that differ only in where the player stands, where the
/// first player's cell is free and the second player's cell is reachable
/// from it, let the player walk to the same cells.
pub proof fn lemma_same_region_same_reach(a: StateView, b: StateView)
    requires
        a.shape_ok(),
        b == (StateView { player: b.player, ..a }),
        a.free(a.player.x as int, a.player.y as int),
        a.reachable(b.player.x as int, b.player.y as int),
    ensures
        forall|x: int, y: int| #[trigger] a.reachable(x, y) == b.reachable(x, y),
{
    let q = b.player;
    let k = choose|k: nat| a.reach_within(q.x as int, q.y as int, k);
    lemma_reach_back(a, q.x as int, q.y as int, k);
    let p = a.player;
    let kb = choose|kb: nat| b.reach_within(p.x as int, p.y as int, kb);
    assert(StateView { player: p, ..b } == a);
    assert forall|x: int, y: int| #[trigger] a.reachable(x, y) == b.reachable(x, y) by {
        if a.reachable(x, y) {
            let j = choose|j: nat| a.reach_within(x, y, j);
            lemma_reach_trans(b, p, x, y, kb, j);
        }
        if b.reachable(x, y) {
            let j = choose|j: nat| b.reach_within(x, y, j);
            lemma_reach_trans(a, q, x, y, k, j);
        }
    }
}

/// A refused `step_ball` moves no ball, changes no terrain and records no
/// push, whether the player could not get behind the ball or the push broke
/// a stacking rule.
pub proof fn lemma_refused_step_keeps_board(v: StateView, i: int, d: Direction)
    requires
        v.valid(),
        0 <= i < v.balls.len(),
        !v.stepped(i, d).0,
    ensures
        v.stepped(i, d).1.balls == v.balls,
        v.stepped(i, d).1.ground == v.ground,
        v.stepped(i, d).1.directions == v.directions,
{
}

impl State {
    /// Marks `(x, y)` and queues it, if it is free and not yet marked.
    fn visit(&self, mask: &mut Vec<bool>, queue: &mut Vec<Pos>, x: i32, y: i32)
        requires
            self@.shape_ok(),
            old(mask).len() == self.width * self.height,
        ensures
            final(mask).len() == old(mask).len(),
            if self@.free(x as int, y as int) && !old(mask)@[cell_index(self.width as int, x as int, y as int)] {
                &&& final(mask)@ == old(mask)@.update(cell_index(self.width as int, x as int, y as int), true)
                &&& final(queue)@ == old(queue)@.push(Pos { x, y })
            } else {
                &&& final(mask)@ == old(mask)@
                &&& final(queue)@ == old(queue)@
            },
    {
        let g = self.get(x, y);
        if matches!(g, None | Some(Ground::Block)) {
            return;
        }
        if self.other_at(self.balls.len(), x, y, 256) {
            proof {
                let j = choose|j: int|
                    0 <= j < self@.balls.len() && j != self@.balls.len() && self@.balls[j].x == x
                        && self@.balls[j].y == y && self@.balls[j].size < 256;
                assert(self@.ball_at(x as int, y as int));
            }
            return;
        }
        proof {
            assert forall|j: int| 0 <= j < self@.balls.len() implies !(self@.balls[j].x == x && self@.balls[j].y == y) by {
                if self@.balls[j].x == x && self@.balls[j].y == y {
                    assert(self@.balls[j].size < 256);
                }
            }
            lemma_cell_in_range(self.width as int, self.height as int, x as int, y as int);
        }
        let idx = self.width * y as usize + x as usize;
        if !mask[idx] {
            mask.set(idx, true);
            queue.push(Pos { x, y });
        }
    }

    /// The cells the player can walk to from where it stands, as a row-major
    /// mask: a cell is walkable when it lies in bounds, is not a block, and no
    /// ball rests on it. The player's own cell is always marked.
    pub fn reach_mask(&self) -> (r: Vec<bool>)
        requires
            self@.shape_ok(),
            self@.in_bounds(self.player.x as int, self.player.y as int),
        ensures
            r@.len() == self@.width * self@.height,
            forall|x: int, y: int|
                self@.in_bounds(x, y) ==> (#[trigger] r@[cell_index(self@.width, x, y)]
                    == self@.reachable(x, y)),
    {
        let n = self.width * self.height;
        let mut mask: Vec<bool> = Vec::new();
        let mut i: usize = 0;
        while i < n
            invariant
                mask.len() == i,
                i <= n,
                forall|k: int| 0 <= k < i ==> !mask@[k],
            decreases n - i,
        {
            mask.push(false);
            i = i + 1;
        }
        let start = self.player;
        proof {
            lemma_cell_in_range(self.width as int, self.height as int, start.x as int, start.y as int);
        }
        let sidx = self.width * start.y as usize + start.x as usize;
        mask.set(sidx, true);
        let mut queue: Vec<Pos> = Vec::new();
        queue.push(start);
        let mut head: usize = 0;
        proof {
            let v = self@;
            assert(v.reach_within(start.x as int, start.y as int, 0));
            assert forall|a: int, b: int|
                v.in_bounds(a, b) && #[trigger] mask@[cell_index(v.width, a, b)] implies v.reachable(a, b) by {
                lemma_cell_in_range(v.width, v.height, a, b);
                if cell_index(v.width, a, b) == sidx {
                    lemma_cell_injective(v.width, a, b, start.x as int, start.y as int);
                }
                assert(v.reach_within(a, b, 0));
            }
            assert forall|a: int, b: int|
                v.in_bounds(a, b) && #[trigger] mask@[cell_index(v.width, a, b)] implies (exists|j: int|
                    head <= j < queue@.len() && #[trigger] queue@[j] == Pos { x: a as i32, y: b as i32 })
                    || v.neighbours_marked(mask@, a, b) || None::<Pos> == Some(Pos { x: a as i32, y: b as i32 }) by {
                lemma_cell_in_range(v.width, v.height, a, b);
                if cell_index(v.width, a, b) == sidx {
                    lemma_cell_injective(v.width, a, b, start.x as int, start.y as int);
                }
                assert(queue@[0] == Pos { x: a as i32, y: b as i32 });
            }
            assert(flood_inv(v, mask@, queue@, head as int, None));
        }
        while head < queue.len()
            invariant
                flood_inv(self@, mask@, queue@, head as int, None),
            decreases 2 * count_unmarked(mask@) + (queue@.len() - head),
        {
            let p = queue[head];
            let ghost m0 = mask@;
            let ghost q0 = queue@;
            let ghost h0 = head as int;
            head = head + 1;
            proof {
                let v = self@;
                assert(v.in_bounds(q0[h0].x as int, q0[h0].y as int));
                assert forall|a: int, b: int|
                    v.in_bounds(a, b) && #[trigger] m0[cell_index(v.width, a, b)] implies (exists|j: int|
                        head <= j < q0.len() && #[trigger] q0[j] == Pos { x: a as i32, y: b as i32 })
                        || v.neighbours_marked(m0, a, b) || Some(p) == Some(Pos { x: a as i32, y: b as i32 }) by {
                    if exists|j: int| h0 <= j < q0.len() && #[trigger] q0[j] == (Pos { x: a as i32, y: b as i32 }) {
                        let j = choose|j: int| h0 <= j < q0.len() && #[trigger] q0[j] == Pos { x: a as i32, y: b as i32 };
                        if j != h0 {
                            assert(head <= j < q0.len() && q0[j] == Pos { x: a as i32, y: b as i32 });
                        }
                    }
                }
                assert(flood_inv(v, m0, q0, head as int, Some(p)));
            }
            let ghost m1 = mask@;
            let ghost q1 = queue@;
            self.visit(&mut mask, &mut queue, p.x - 1, p.y);
            proof { lemma_visit_step(self@, m1, q1, head as int, p, p.x - 1, p.y as int, mask@, queue@); }
            let ghost m2 = mask@;
            let ghost q2 = queue@;
            self.visit(&mut mask, &mut queue, p.x + 1, p.y);
            proof { lemma_visit_step(self@, m2, q2, head as int, p, p.x + 1, p.y as int, mask@, queue@); }
            let ghost m3 = mask@;
            let ghost q3 = queue@;
            self.visit(&mut mask, &mut queue, p.x, p.y - 1);
            proof { lemma_visit_step(self@, m3, q3, head as int, p, p.x as int, p.y - 1, mask@, queue@); }
            let ghost m4 = mask@;
            let ghost q4 = queue@;
            self.visit(&mut mask, &mut queue, p.x, p.y + 1);
            proof {
                lemma_visit_step(self@, m4, q4, head as int, p, p.x as int, p.y + 1, mask@, queue@);
                let v = self@;
                let m = mask@;
                assert(v.neighbours_marked(m, p.x as int, p.y as int)) by {
                    lemma_cell_in_range(v.width, v.height, p.x as int, p.y as int);
                    if v.free(p.x - 1, p.y as int) {
                        lemma_cell_in_range(v.width, v.height, p.x - 1, p.y as int);
                    }
                    if v.free(p.x + 1, p.y as int) {
                        lemma_cell_in_range(v.width, v.height, p.x + 1, p.y as int);
                    }
                    if v.free(p.x as int, p.y - 1) {
                        lemma_cell_in_range(v.width, v.height, p.x as int, p.y - 1);
                    }
                };
                assert forall|a: int, b: int|
                    v.in_bounds(a, b) && #[trigger] m[cell_index(v.width, a, b)] implies (exists|j: int|
                        head <= j < queue@.len() && #[trigger] queue@[j] == Pos { x: a as i32, y: b as i32 })
                        || v.neighbours_marked(m, a, b) || None::<Pos> == Some(Pos { x: a as i32, y: b as i32 }) by {
                    if Some(p) == (Some(Pos { x: a as i32, y: b as i32 })) {
                        assert(a == p.x && b == p.y);
                    }
                }
            }
        }
        proof {
            let v = self@;
            let m = mask@;
            assert forall|x: int, y: int| v.in_bounds(x, y) implies (#[trigger] m[cell_index(v.width, x, y)]
                == v.reachable(x, y)) by {
                if v.reachable(x, y) {
                    let k = choose|k: nat| v.reach_within(x, y, k);
                    lemma_closed_mask_complete(v, m, x, y, k);
                }
            }
        }
        mask
    }

    /// Walks the player to `target` if it can get there; otherwise nothing
    /// changes. Returns whether it got there.
    pub fn move_to(&mut self, target: Pos) -> (r: bool)
        requires
            old(self)@.shape_ok(),
            old(self)@.in_bounds(old(self).player.x as int, old(self).player.y as int),
        ensures
            r == old(self)@.reachable(target.x as int, target.y as int),
            r ==> final(self)@ == (StateView { player: target, ..old(self)@ }),
            !r ==> *final(self) == *old(self),
    {
        if target.x < 0 || target.x >= self.width as i32 || target.y < 0 || target.y >= self.height as i32 {
            proof {
                if self@.reachable(target.x as int, target.y as int) {
                    let k = choose|k: nat| self@.reach_within(target.x as int, target.y as int, k);
                    lemma_reach_free(self@, target.x as int, target.y as int, k);
                }
            }
            return false;
        }
        let mask = self.reach_mask();
        proof {
            lemma_cell_in_range(self.width as int, self.height as int, target.x as int, target.y as int);
        }
        if mask[self.width * target.y as usize + target.x as usize] {
            self.player = target;
            true
        } else {
            false
        }
    }

    /// Walks the player behind ball `i` and pushes the ball in direction `d`,
    /// recording the push. Returns whether the push was made. Where the player
    /// cannot get behind the ball nothing changes; where it can but the push is
    /// refused, the player is left standing behind the ball.
    pub fn step_ball(&mut self, i: usize, d: Direction) -> (r: bool)
        requires
            old(self)@.valid(),
            i < old(self).balls.len(),
        ensures
            (r, final(self)@) == old(self)@.stepped(i as int, d),
            final(self)@.valid(),
    {
        let b = self.balls[i];
        proof {
            assert(old(self)@.ball_ok(i as int));
        }
        let (sx, sy) = d.inverse().step(b.x, b.y);
        if !self.move_to(Pos { x: sx, y: sy }) {
            return false;
        }
        proof {
            let v = old(self)@;
            let k = choose|k: nat| v.reach_within(sx as int, sy as int, k);
            lemma_reach_free(v, sx as int, sy as int, k);
            let w = self@;
            assert forall|j: int| 0 <= j < w.balls.len() implies w.ball_ok(j) by {
                assert(v.ball_ok(j));
            }
            assert(w.stacking_ok());
        }
        if !self.push(i, d) {
            return false;
        }
        proof {
            lemma_push_keeps_valid(
                StateView { player: Pos { x: sx, y: sy }, ..old(self)@ },
                i as int,
                d,
            );
        }
        let ghost before = self@;
        self.directions.push(Move { ball: i, dir: d });
        proof {
            let w = self@;
            assert forall|j: int| 0 <= j < w.balls.len() implies w.ball_ok(j) by {
                assert(before.ball_ok(j));
            }
            assert(w.stacking_ok());
        }
        true
    }
}

} // verus!
