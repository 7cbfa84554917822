use vstd::prelude::*;
use vstd::arithmetic::power::{lemma_pow_positive, pow};
use vstd::set_lib::{lemma_int_range, lemma_len_subset, set_int_range};
use crate::reach::{lemma_reach_free, lemma_same_region_same_reach};
use crate::state::{State, StateView, cell_index, lemma_push_keeps_valid};
use crate::types::{Ball, Direction, Ground, Move, Pos, inverse_spec, step_spec};
use std::collections::VecDeque;

verus! {

/// What identifies a position for the search: the terrain, the balls, and
/// the cells the player can walk to. Where exactly the player stands inside
/// that region, and the pushes that led here, are left out.
pub struct Concise {
    pub ground: Vec<Ground>,
    pub balls: Vec<Ball>,
    pub fill: Vec<bool>,
}

pub struct ConciseView {
    pub ground: Seq<Ground>,
    pub balls: Seq<Ball>,
    pub fill: Seq<bool>,
}

impl View for Concise {
    type V = ConciseView;

    open spec fn view(&self) -> ConciseView {
        ConciseView { ground: self.ground@, balls: self.balls@, fill: self.fill@ }
    }
}

impl StateView {
    /// Every ball rests on the cell of the first ball.
    pub open spec fn all_coincide(&self) -> bool {
        forall|j: int|
            0 <= j < self.balls.len() ==> #[trigger] self.balls[j].x == self.balls[0].x
                && self.balls[j].y == self.balls[0].y
    }
}

spec fn ground_digit(g: Ground) -> int {
    match g {
        Ground::Plain => 0,
        Ground::Snow => 1,
        Ground::Block => 2,
    }
}

/// A fingerprint written out as a sequence of small numbers.
spec fn digits(c: ConciseView) -> Seq<int> {
    c.ground.map_values(|g: Ground| ground_digit(g)) + c.fill.map_values(
        |b: bool|
            if b {
                1int
            } else {
                0int
            },
    ) + c.balls.map_values(|b: Ball| b.size as int) + c.balls.map_values(|b: Ball| b.x as int)
        + c.balls.map_values(|b: Ball| b.y as int)
}

/// `s` read as a number in base `base`, last digit lowest.
spec fn encode(s: Seq<int>, base: int) -> int
    decreases s.len(),
{
    if s.len() == 0 {
        0
    } else {
        encode(s.drop_last(), base) * base + s.last()
    }
}

spec fn digits_below(s: Seq<int>, base: int) -> bool {
    forall|k: int| 0 <= k < s.len() ==> 0 <= #[trigger] s[k] < base
}

proof fn lemma_encode_range(s: Seq<int>, base: int)
    requires
        base >= 1,
        digits_below(s, base),
    ensures
        0 <= encode(s, base) < pow(base, s.len()),
    decreases s.len(),
{
    reveal(pow);
    if s.len() > 0 {
        let p = s.drop_last();
        assert(digits_below(p, base)) by {
            assert forall|k: int| 0 <= k < p.len() implies 0 <= #[trigger] p[k] < base by {
                assert(p[k] == s[k]);
            }
        }
        lemma_encode_range(p, base);
        let e = encode(p, base);
        let q = pow(base, p.len());
        let d = s.last();
        assert(s[s.len() - 1] == d);
        assert(0 <= e * base + d < q * base) by (nonlinear_arith)
            requires
                0 <= e < q,
                0 <= d < base,
        ;
        assert(pow(base, s.len()) == base * q);
    }
}

proof fn lemma_encode_injective(s: Seq<int>, t: Seq<int>, base: int)
    requires
        base >= 1,
        s.len() == t.len(),
        digits_below(s, base),
        digits_below(t, base),
        encode(s, base) == encode(t, base),
    ensures
        s == t,
    decreases s.len(),
{
    if s.len() > 0 {
        let (ps, pt) = (s.drop_last(), t.drop_last());
        assert(digits_below(ps, base)) by {
            assert forall|k: int| 0 <= k < ps.len() implies 0 <= #[trigger] ps[k] < base by {
                assert(ps[k] == s[k]);
            }
        }
        assert(digits_below(pt, base)) by {
            assert forall|k: int| 0 <= k < pt.len() implies 0 <= #[trigger] pt[k] < base by {
                assert(pt[k] == t[k]);
            }
        }
        lemma_encode_range(ps, base);
        lemma_encode_range(pt, base);
        let (es, et) = (encode(ps, base), encode(pt, base));
        let (ds, dt) = (s.last(), t.last());
        assert(s[s.len() - 1] == ds);
        assert(t[t.len() - 1] == dt);
        assert(es == et && ds == dt) by (nonlinear_arith)
            requires
                es * base + ds == et * base + dt,
                0 <= ds < base,
                0 <= dt < base,
                0 <= es,
                0 <= et,
        {
            if es < et {
                assert(es * base + base <= et * base);
            } else if et < es {
                assert(et * base + base <= es * base);
            }
        }
        lemma_encode_injective(ps, pt, base);
        assert(s =~= t) by {
            assert forall|k: int| 0 <= k < s.len() implies s[k] == t[k] by {
                if k < s.len() - 1 {
                    assert(s[k] == ps[k] && t[k] == pt[k]);
                }
            }
        }
    }
}

/// Every ball of `c` lies on a `w` by `h` grid.
spec fn balls_on_grid(c: ConciseView, w: int, h: int) -> bool {
    forall|j: int|
        0 <= j < c.balls.len() ==> 0 <= #[trigger] c.balls[j].x < w && 0 <= c.balls[j].y < h
}

proof fn lemma_digits_below(c: ConciseView, w: int, h: int)
    requires
        w >= 0,
        h >= 0,
        balls_on_grid(c, w, h),
    ensures
        digits_below(digits(c), w + h + 256),
        digits(c).len() == c.ground.len() + c.fill.len() + 3 * c.balls.len(),
{
    let d = digits(c);
    let (ng, nf, nb) = (c.ground.len() as int, c.fill.len() as int, c.balls.len() as int);
    assert forall|k: int| 0 <= k < d.len() implies 0 <= #[trigger] d[k] < w + h + 256 by {
        if k < ng {
            assert(d[k] == ground_digit(c.ground[k]));
        } else if k < ng + nf {
            assert(d[k] == (if c.fill[k - ng] { 1int } else { 0int }));
        } else if k < ng + nf + nb {
            assert(d[k] == c.balls[k - ng - nf].size as int);
        } else if k < ng + nf + 2 * nb {
            let j = k - ng - nf - nb;
            assert(d[k] == c.balls[j].x as int);
            assert(0 <= c.balls[j].x < w);
        } else {
            let j = k - ng - nf - 2 * nb;
            assert(d[k] == c.balls[j].y as int);
            assert(0 <= c.balls[j].x < w);
        }
    }
}

proof fn lemma_digits_injective(c: ConciseView, e: ConciseView)
    requires
        c.ground.len() == e.ground.len(),
        c.fill.len() == e.fill.len(),
        c.balls.len() == e.balls.len(),
        digits(c) == digits(e),
    ensures
        c == e,
{
    let (dc, de) = (digits(c), digits(e));
    let (ng, nf, nb) = (c.ground.len() as int, c.fill.len() as int, c.balls.len() as int);
    assert forall|k: int| 0 <= k < ng implies c.ground[k] == e.ground[k] by {
        assert(dc[k] == ground_digit(c.ground[k]));
        assert(de[k] == ground_digit(e.ground[k]));
    }
    assert forall|k: int| 0 <= k < nf implies c.fill[k] == e.fill[k] by {
        assert(dc[ng + k] == (if c.fill[k] { 1int } else { 0int }));
        assert(de[ng + k] == (if e.fill[k] { 1int } else { 0int }));
    }
    assert forall|k: int| 0 <= k < nb implies c.balls[k] == e.balls[k] by {
        assert(dc[ng + nf + k] == c.balls[k].size as int);
        assert(de[ng + nf + k] == e.balls[k].size as int);
        assert(dc[ng + nf + nb + k] == c.balls[k].x as int);
        assert(de[ng + nf + nb + k] == e.balls[k].x as int);
        assert(dc[ng + nf + 2 * nb + k] == c.balls[k].y as int);
        assert(de[ng + nf + 2 * nb + k] == e.balls[k].y as int);
    }
    assert(c.ground =~= e.ground);
    assert(c.fill =~= e.fill);
    assert(c.balls =~= e.balls);
}

impl Concise {
    /// Whether two fingerprints are equal.
    pub fn same(&self, other: &Concise) -> (r: bool)
        ensures
            r == (self@ == other@),
    {
        if self.ground.len() != other.ground.len() || self.balls.len() != other.balls.len()
            || self.fill.len() != other.fill.len() {
            return false;
        }
        let mut k: usize = 0;
        while k < self.ground.len()
            invariant
                k <= self.ground.len() == other.ground.len(),
                forall|j: int| 0 <= j < k ==> self.ground@[j] == other.ground@[j],
            decreases self.ground.len() - k,
        {
            if self.ground[k] != other.ground[k] {
                return false;
            }
            k = k + 1;
        }
        let mut k: usize = 0;
        while k < self.balls.len()
            invariant
                k <= self.balls.len() == other.balls.len(),
                forall|j: int| 0 <= j < k ==> self.balls@[j] == other.balls@[j],
            decreases self.balls.len() - k,
        {
            if self.balls[k] != other.balls[k] {
                return false;
            }
            k = k + 1;
        }
        let mut k: usize = 0;
        while k < self.fill.len()
            invariant
                k <= self.fill.len() == other.fill.len(),
                forall|j: int| 0 <= j < k ==> self.fill@[j] == other.fill@[j],
            decreases self.fill.len() - k,
        {
            if self.fill[k] != other.fill[k] {
                return false;
            }
            k = k + 1;
        }
        assert(self.ground@ =~= other.ground@);
        assert(self.balls@ =~= other.balls@);
        assert(self.fill@ =~= other.fill@);
        true
    }
}

impl State {
    /// An independent copy of this position.
    pub fn duplicate(&self) -> (r: State)
        ensures
            r@ == self@,
    {
        let r = State {
            width: self.width,
            height: self.height,
            ground: self.ground.clone(),
            balls: self.balls.clone(),
            player: self.player,
            directions: self.directions.clone(),
        };
        assert(r.ground@ =~= self.ground@);
        assert(r.balls@ =~= self.balls@);
        assert(r.directions@ =~= self.directions@);
        r
    }

    /// The fingerprint of this position: its terrain, its balls, and the mask
    /// of cells that the player can walk to.
    pub fn concise(&self) -> (r: Concise)
        requires
            self@.valid(),
        ensures
            r.ground@ == self.ground@,
            r.balls@ == self.balls@,
            r.fill@.len() == self@.width * self@.height,
            forall|x: int, y: int|
                self@.in_bounds(x, y) ==> (#[trigger] r.fill@[cell_index(self@.width, x, y)]
                    == self@.reachable(x, y)),
    {
        let fill = self.reach_mask();
        let r = Concise { ground: self.ground.clone(), balls: self.balls.clone(), fill };
        assert(r.ground@ =~= self.ground@);
        assert(r.balls@ =~= self.balls@);
        r
    }

    /// Whether every ball rests on the cell of the first ball.
    pub fn all_coincide(&self) -> (r: bool)
        ensures
            r == self@.all_coincide(),
    {
        let mut j: usize = 0;
        while j < self.balls.len()
            invariant
                j <= self.balls.len(),
                forall|k: int|
                    0 <= k < j ==> (#[trigger] self.balls@[k]).x == self.balls@[0].x
                        && self.balls@[k].y == self.balls@[0].y,
            decreases self.balls.len() - j,
        {
            let b = self.balls[j];
            let f = self.balls[0];
            if b.x != f.x || b.y != f.y {
                assert(self@.balls[j as int] == b);
                return false;
            }
            assert(self.balls@[j as int] == b && self.balls@[0] == f);
            j = j + 1;
        }
        true
    }
}

/// Why the search found no solution.
#[derive(Clone, Copy, Debug, PartialEq, Eq, Structural)]
pub enum SolveError {
    /// No sequence of pushes brings every ball onto one cell.
    Unsolvable,
}

/// The position reached from `v` by making the pushes `moves` in order with
/// `step_ball`, or `None` where one of them names no ball or is refused.
pub open spec fn replay(v: StateView, moves: Seq<Move>) -> Option<StateView>
    decreases moves.len(),
{
    if moves.len() == 0 {
        Some(v)
    } else {
        match replay(v, moves.drop_last()) {
            Some(u) => {
                let m = moves.last();
                if m.ball < u.balls.len() && u.stepped(m.ball as int, m.dir).0 {
                    Some(u.stepped(m.ball as int, m.dir).1)
                } else {
                    None
                }
            },
            None => None,
        }
    }
}

/// `v` extends the search's starting position `init`: it is valid, has the
/// same grid and number of balls, keeps the first `n0` recorded pushes of
/// `init`, and replaying the pushes recorded after them from `init` gives `v`.
pub open spec fn descends(init: StateView, n0: int, v: StateView) -> bool {
    &&& v.valid()
    &&& v.width == init.width
    &&& v.height == init.height
    &&& v.balls.len() == init.balls.len()
    &&& 0 <= n0 <= v.directions.len()
    &&& v.directions.subrange(0, n0) == init.directions
    &&& replay(init, v.directions.skip(n0)) == Some(v)
}

proof fn lemma_descends_step(init: StateView, n0: int, u: StateView, i: int, d: Direction)
    requires
        descends(init, n0, u),
        0 <= i < u.balls.len(),
        i <= usize::MAX,
        u.stepped(i, d).0,
        u.stepped(i, d).1.valid(),
    ensures
        descends(init, n0, u.stepped(i, d).1),
{
    let w = u.stepped(i, d).1;
    let m = Move { ball: i as usize, dir: d };
    assert(w.directions == u.directions.push(m));
    let moves = w.directions.skip(n0);
    assert(moves =~= u.directions.skip(n0).push(m));
    assert(moves.drop_last() =~= u.directions.skip(n0));
    assert(moves.last() == m);
    assert(m.ball as int == i);
    assert(replay(init, moves.drop_last()) == Some(u));
    assert(w.directions.subrange(0, n0) =~= u.directions.subrange(0, n0));
}

/// The number that stands for a fingerprint in the termination argument.
spec fn code(c: ConciseView, base: int) -> int {
    encode(digits(c), base)
}

/// Two positions are one node of the search: the same grid, terrain and
/// balls, and the player can walk to the same cells.
pub open spec fn same_node(a: StateView, b: StateView) -> bool {
    &&& a.width == b.width
    &&& a.height == b.height
    &&& a.ground == b.ground
    &&& a.balls == b.balls
    &&& forall|x: int, y: int| #[trigger] a.reachable(x, y) == b.reachable(x, y)
}

/// `c` is the fingerprint of `v`.
pub open spec fn fingerprint_of(c: ConciseView, v: StateView) -> bool {
    &&& c.ground == v.ground
    &&& c.balls == v.balls
    &&& c.fill.len() == v.width * v.height
    &&& forall|x: int, y: int|
        v.in_bounds(x, y) ==> #[trigger] c.fill[cell_index(v.width, x, y)] == v.reachable(x, y)
}

/// `v` is one node with a queued or an expanded position that was reached
/// with no more pushes than `v`.
spec fn covered(v: StateView, queued: Seq<StateView>, expanded: Seq<StateView>) -> bool {
    (exists|j: int|
        0 <= j < queued.len() && same_node(#[trigger] queued[j], v) && queued[j].directions.len()
            <= v.directions.len()) || (exists|j: int|
        0 <= j < expanded.len() && same_node(#[trigger] expanded[j], v)
            && expanded[j].directions.len() <= v.directions.len())
}

/// Every position that one push leads to from `x` is covered.
spec fn successors_covered(x: StateView, queued: Seq<StateView>, expanded: Seq<StateView>) -> bool {
    forall|i: int, d: Direction|
        0 <= i < x.balls.len() && #[trigger] x.stepped(i, d).0 ==> covered(
            x.stepped(i, d).1,
            queued,
            expanded,
        )
}

spec fn queue_views(q: Seq<State>) -> Seq<StateView> {
    q.map_values(|s: State| s@)
}

spec fn seen_views(c: Seq<Concise>) -> Seq<ConciseView> {
    c.map_values(|s: Concise| s@)
}

/// The walkable cells depend on the grid, the terrain, the balls and the
/// player alone.
proof fn lemma_reach_board(a: StateView, b: StateView, x: int, y: int, k: nat)
    requires
        a.width == b.width,
        a.height == b.height,
        a.ground == b.ground,
        a.balls == b.balls,
        a.player == b.player,
    ensures
        a.reach_within(x, y, k) == b.reach_within(x, y, k),
    decreases k,
{
    if k > 0 {
        let j = (k - 1) as nat;
        lemma_reach_board(a, b, x, y, j);
        lemma_reach_board(a, b, x - 1, y, j);
        lemma_reach_board(a, b, x + 1, y, j);
        lemma_reach_board(a, b, x, y - 1, j);
        lemma_reach_board(a, b, x, y + 1, j);
    }
}

proof fn lemma_same_board_same_node(a: StateView, b: StateView)
    requires
        a.width == b.width,
        a.height == b.height,
        a.ground == b.ground,
        a.balls == b.balls,
        a.player == b.player,
    ensures
        same_node(a, b),
{
    assert forall|x: int, y: int| #[trigger] a.reachable(x, y) == b.reachable(x, y) by {
        if a.reachable(x, y) {
            let k = choose|k: nat| a.reach_within(x, y, k);
            lemma_reach_board(a, b, x, y, k);
        }
        if b.reachable(x, y) {
            let k = choose|k: nat| b.reach_within(x, y, k);
            lemma_reach_board(a, b, x, y, k);
        }
    }
}

/// Two valid positions with one fingerprint are one node.
proof fn lemma_fingerprint_node(c: ConciseView, a: StateView, b: StateView)
    requires
        a.valid(),
        b.valid(),
        a.width == b.width,
        a.height == b.height,
        fingerprint_of(c, a),
        fingerprint_of(c, b),
    ensures
        same_node(a, b),
{
    assert forall|x: int, y: int| #[trigger] a.reachable(x, y) == b.reachable(x, y) by {
        if !a.in_bounds(x, y) {
            if a.reachable(x, y) {
                let k = choose|k: nat| a.reach_within(x, y, k);
                lemma_reach_free(a, x, y, k);
            }
            if b.reachable(x, y) {
                let k = choose|k: nat| b.reach_within(x, y, k);
                lemma_reach_free(b, x, y, k);
            }
        } else {
            assert(c.fill[cell_index(a.width, x, y)] == a.reachable(x, y));
        }
    }
}

/// One push from two positions of one node: both are made or both refused,
/// and where made they lead to one node.
proof fn lemma_step_same_node(a: StateView, b: StateView, i: int, d: Direction)
    requires
        same_node(a, b),
        0 <= i < a.balls.len(),
    ensures
        a.stepped(i, d).0 == b.stepped(i, d).0,
        a.stepped(i, d).0 ==> same_node(a.stepped(i, d).1, b.stepped(i, d).1),
{
    let bl = a.balls[i];
    let s = step_spec(inverse_spec(d), bl.x as int, bl.y as int);
    assert(a.reachable(s.0, s.1) == b.reachable(s.0, s.1));
    if a.stepped(i, d).0 {
        let va = StateView { player: Pos { x: s.0 as i32, y: s.1 as i32 }, ..a };
        let vb = StateView { player: Pos { x: s.0 as i32, y: s.1 as i32 }, ..b };
        assert(va.can_push(i, d) == vb.can_push(i, d));
        lemma_same_board_same_node(a.stepped(i, d).1, b.stepped(i, d).1);
    }
}

/// A fingerprint of one position is one of every position of its node.
proof fn lemma_fingerprint_transfer(c: ConciseView, a: StateView, b: StateView)
    requires
        fingerprint_of(c, a),
        same_node(a, b),
    ensures
        fingerprint_of(c, b),
{
    assert forall|x: int, y: int| b.in_bounds(x, y) implies #[trigger] c.fill[cell_index(b.width, x, y)]
        == b.reachable(x, y) by {
        assert(a.reachable(x, y) == b.reachable(x, y));
    }
}

/// Two positions that differ only in where the player stands, inside one
/// walkable region, are one node of the search: a fingerprint of the one is a
/// fingerprint of the other.
pub proof fn lemma_region_one_fingerprint(a: StateView, b: StateView, c: ConciseView)
    requires
        a.shape_ok(),
        b == (StateView { player: b.player, ..a }),
        a.free(a.player.x as int, a.player.y as int),
        a.reachable(b.player.x as int, b.player.y as int),
        fingerprint_of(c, a),
    ensures
        same_node(a, b),
        fingerprint_of(c, b),
{
    lemma_same_region_same_reach(a, b);
    lemma_fingerprint_transfer(c, a, b);
}

proof fn lemma_same_node_trans(a: StateView, b: StateView, c: StateView)
    requires
        same_node(a, b),
        same_node(b, c),
    ensures
        same_node(a, c),
{
    assert forall|x: int, y: int| #[trigger] a.reachable(x, y) == c.reachable(x, y) by {
        assert(a.reachable(x, y) == b.reachable(x, y));
        assert(b.reachable(x, y) == c.reachable(x, y));
    }
}

/// Queueing or expanding a position loses no coverage.
proof fn lemma_covered_grow(q: Seq<StateView>, e: Seq<StateView>, q2: Seq<StateView>, e2: Seq<StateView>)
    requires
        q.len() <= q2.len(),
        e.len() <= e2.len(),
        forall|j: int| 0 <= j < q.len() ==> q2[j] == q[j],
        forall|j: int| 0 <= j < e.len() ==> e2[j] == e[j],
    ensures
        forall|v: StateView| #[trigger] covered(v, q, e) ==> covered(v, q2, e2),
{
    assert forall|v: StateView| #[trigger] covered(v, q, e) implies covered(v, q2, e2) by {
        if exists|j: int|
            0 <= j < q.len() && same_node(#[trigger] q[j], v) && q[j].directions.len() <= v.directions.len() {
            let j = choose|j: int|
                0 <= j < q.len() && same_node(#[trigger] q[j], v) && q[j].directions.len() <= v.directions.len();
            assert(q2[j] == q[j]);
        } else {
            let j = choose|j: int|
                0 <= j < e.len() && same_node(#[trigger] e[j], v) && e[j].directions.len() <= v.directions.len();
            assert(e2[j] == e[j]);
        }
    }
}

/// Taking the first queued position off the queue loses no coverage once a
/// position of its node, reached with no more pushes, is expanded.
proof fn lemma_covered_pop(q: Seq<StateView>, e: Seq<StateView>, e2: Seq<StateView>, k: int)
    requires
        q.len() > 0,
        e.len() <= e2.len(),
        forall|j: int| 0 <= j < e.len() ==> e2[j] == e[j],
        0 <= k < e2.len(),
        same_node(e2[k], q[0]),
        e2[k].directions.len() <= q[0].directions.len(),
    ensures
        forall|v: StateView| #[trigger] covered(v, q, e) ==> covered(v, q.drop_first(), e2),
{
    assert forall|v: StateView| #[trigger] covered(v, q, e) implies covered(v, q.drop_first(), e2) by {
        if exists|j: int|
            0 <= j < q.len() && same_node(#[trigger] q[j], v) && q[j].directions.len() <= v.directions.len() {
            let j = choose|j: int|
                0 <= j < q.len() && same_node(#[trigger] q[j], v) && q[j].directions.len() <= v.directions.len();
            if j == 0 {
                lemma_same_node_trans(e2[k], q[0], v);
            } else {
                assert(q.drop_first()[j - 1] == q[j]);
            }
        } else {
            let j = choose|j: int|
                0 <= j < e.len() && same_node(#[trigger] e[j], v) && e[j].directions.len() <= v.directions.len();
            assert(e2[j] == e[j]);
        }
    }
}

proof fn lemma_successors_covered_mono(
    x: StateView,
    q: Seq<StateView>,
    e: Seq<StateView>,
    q2: Seq<StateView>,
    e2: Seq<StateView>,
)
    requires
        successors_covered(x, q, e),
        forall|v: StateView| #[trigger] covered(v, q, e) ==> covered(v, q2, e2),
    ensures
        successors_covered(x, q2, e2),
{
    assert forall|i: int, d: Direction|
        0 <= i < x.balls.len() && #[trigger] x.stepped(i, d).0 implies covered(x.stepped(i, d).1, q2, e2) by {
        assert(covered(x.stepped(i, d).1, q, e));
    }
}

/// A push made from a valid position leaves it valid, on the same grid with
/// as many balls.
proof fn lemma_step_keeps_valid(v: StateView, i: int, d: Direction)
    requires
        v.valid(),
        0 <= i < v.balls.len(),
        v.stepped(i, d).0,
    ensures
        v.stepped(i, d).1.valid(),
        v.stepped(i, d).1.width == v.width,
        v.stepped(i, d).1.height == v.height,
        v.stepped(i, d).1.balls.len() == v.balls.len(),
{
    let b = v.balls[i];
    let s = step_spec(inverse_spec(d), b.x as int, b.y as int);
    let k = choose|k: nat| v.reach_within(s.0, s.1, k);
    lemma_reach_free(v, s.0, s.1, k);
    let u = StateView { player: Pos { x: s.0 as i32, y: s.1 as i32 }, ..v };
    assert forall|j: int| 0 <= j < u.balls.len() implies u.ball_ok(j) by {
        assert(v.ball_ok(j));
    }
    assert(u.stacking_ok());
    assert(u.valid());
    lemma_push_keeps_valid(u, i, d);
    let w = u.pushed(i, d).unwrap();
    let r = v.stepped(i, d).1;
    assert forall|j: int| 0 <= j < r.balls.len() implies r.ball_ok(j) by {
        assert(w.ball_ok(j));
    }
    assert(r.stacking_ok());
}

/// What the search maintains: every expanded position has its fingerprint
/// recorded, is no solution, and all its successors are covered.
spec fn search_closed(
    init: StateView,
    queued: Seq<StateView>,
    seen: Seq<ConciseView>,
    expanded: Seq<StateView>,
) -> bool {
    &&& expanded.len() == seen.len()
    &&& forall|j: int|
        0 <= j < expanded.len() ==> {
            let x = #[trigger] expanded[j];
            &&& fingerprint_of(seen[j], x)
            &&& x.valid()
            &&& x.width == init.width
            &&& x.height == init.height
            &&& x.balls.len() == init.balls.len()
            &&& !x.all_coincide()
            &&& successors_covered(x, queued, expanded)
        }
}

/// While every queued position was reached with at least `depth` pushes,
/// every position reached from the start with fewer pushes is covered by an
/// expanded position, and so is no solution.
proof fn lemma_search_below_depth(
    init: StateView,
    queued: Seq<StateView>,
    seen: Seq<ConciseView>,
    expanded: Seq<StateView>,
    depth: int,
    moves: Seq<Move>,
)
    requires
        init.valid(),
        covered(init, queued, expanded),
        search_closed(init, queued, seen, expanded),
        forall|j: int| 0 <= j < queued.len() ==> (#[trigger] queued[j]).directions.len() >= depth,
        init.directions.len() + moves.len() < depth,
    ensures
        replay(init, moves) matches Some(u) ==> {
            &&& u.valid()
            &&& u.width == init.width
            &&& u.height == init.height
            &&& u.balls.len() == init.balls.len()
            &&& u.directions.len() == init.directions.len() + moves.len()
            &&& covered(u, queued, expanded)
            &&& !u.all_coincide()
        },
    decreases moves.len(),
{
    if moves.len() > 0 {
        lemma_search_below_depth(init, queued, seen, expanded, depth, moves.drop_last());
    }
    if replay(init, moves) is Some {
        let u = replay(init, moves).unwrap();
        if moves.len() > 0 {
            let p = replay(init, moves.drop_last()).unwrap();
            let m = moves.last();
            let i = m.ball as int;
            let j = choose|j: int|
                0 <= j < expanded.len() && same_node(#[trigger] expanded[j], p)
                    && expanded[j].directions.len() <= p.directions.len();
            let x = expanded[j];
            lemma_step_same_node(x, p, i, m.dir);
            lemma_step_keeps_valid(p, i, m.dir);
            let x2 = x.stepped(i, m.dir).1;
            assert(covered(x2, queued, expanded));
            if exists|k: int|
                0 <= k < queued.len() && same_node(#[trigger] queued[k], x2) && queued[k].directions.len()
                    <= x2.directions.len() {
                let k = choose|k: int|
                    0 <= k < queued.len() && same_node(#[trigger] queued[k], x2)
                        && queued[k].directions.len() <= x2.directions.len();
                assert(queued[k].directions.len() >= depth);
            } else {
                let k = choose|k: int|
                    0 <= k < expanded.len() && same_node(#[trigger] expanded[k], x2)
                        && expanded[k].directions.len() <= x2.directions.len();
                lemma_same_node_trans(expanded[k], x2, u);
                assert(same_node(expanded[k], u) && expanded[k].directions.len() <= u.directions.len());
            }
        }
        if exists|k: int|
            0 <= k < queued.len() && same_node(#[trigger] queued[k], u) && queued[k].directions.len()
                <= u.directions.len() {
            let k = choose|k: int|
                0 <= k < queued.len() && same_node(#[trigger] queued[k], u) && queued[k].directions.len()
                    <= u.directions.len();
            assert(queued[k].directions.len() >= depth);
        }
        let j = choose|j: int|
            0 <= j < expanded.len() && same_node(#[trigger] expanded[j], u)
                && expanded[j].directions.len() <= u.directions.len();
        let x = expanded[j];
        assert(!x.all_coincide());
        assert(x.balls == u.balls);
    }
}

/// Whether `c` equals one of `seen`.
fn contains(seen: &Vec<Concise>, c: &Concise) -> (r: bool)
    ensures
        r == exists|j: int| 0 <= j < seen@.len() && (#[trigger] seen@[j])@ == c@,
{
    let mut k: usize = 0;
    while k < seen.len()
        invariant
            k <= seen.len(),
            forall|j: int| 0 <= j < k ==> (#[trigger] seen@[j])@ != c@,
        decreases seen.len() - k,
    {
        if seen[k].same(c) {
            return true;
        }
        k = k + 1;
    }
    false
}

/// Some sequence of pushes from `init` brings every ball onto one cell.
pub open spec fn solvable(init: StateView) -> bool {
    exists|moves: Seq<Move>| #[trigger] replay(init, moves) matches Some(u) && u.all_coincide()
}

/// The order in which the search tries directions.
pub open spec fn direction_order(k: int) -> Direction {
    if k == 0 {
        Direction::Right
    } else if k == 1 {
        Direction::Left
    } else if k == 2 {
        Direction::Down
    } else {
        Direction::Up
    }
}

fn direction_at(k: usize) -> (r: Direction)
    ensures
        r == direction_order(k as int),
{
    if k == 0 {
        Direction::Right
    } else if k == 1 {
        Direction::Left
    } else if k == 2 {
        Direction::Down
    } else {
        Direction::Up
    }
}

/// Searches breadth first for a sequence of pushes that brings every ball
/// onto one cell. Positions are expanded in the order they were found; from
/// each, every ball in turn is tried in the directions right, left, down, up.
/// A position whose fingerprint was already expanded is skipped. Returns the
/// first position found in which all balls coincide, with the pushes that
/// led there recorded after those of `state`; no solution takes fewer pushes.
/// Returns `Unsolvable` exactly when no sequence of pushes solves the level.
pub fn solve(state: State) -> (r: Result<State, SolveError>)
    requires
        state@.valid(),
    ensures
        match r {
            Ok(s) => {
                &&& s@.all_coincide()
                &&& descends(state@, state@.directions.len() as int, s@)
                &&& forall|moves: Seq<Move>|
                    #[trigger] replay(state@, moves) matches Some(u) && u.all_coincide()
                        ==> state@.directions.len() + moves.len() >= s@.directions.len()
            },
            Err(_) => !solvable(state@),
        },
{
    let ghost init = state@;
    let ghost n0 = state@.directions.len() as int;
    let ghost w = state@.width;
    let ghost h = state@.height;
    let ghost nb = state@.balls.len() as int;
    let ghost base = w + h + 256;
    let ghost bound = pow(base, (2 * w * h + 3 * nb) as nat);
    let ghost mut codes: Set<int> = Set::empty();
    let ghost mut expanded: Seq<StateView> = Seq::empty();
    proof {
        lemma_pow_positive(base, (2 * w * h + 3 * nb) as nat);
    }
    let mut visited: Vec<Concise> = Vec::new();
    let mut queue: VecDeque<State> = VecDeque::new();
    proof {
        assert(state@.directions.skip(n0) =~= Seq::<Move>::empty());
        assert(state@.directions.subrange(0, n0) =~= state@.directions);
    }
    queue.push_back(state);
    proof {
        assert(same_node(queue_views(queue@)[0], init));
    }
    while queue.len() > 0
        invariant
            init == state@,
            bound > 0,
            init.valid(),
            w == init.width,
            h == init.height,
            nb == init.balls.len(),
            n0 == init.directions.len(),
            base == w + h + 256,
            bound == pow(base, (2 * w * h + 3 * nb) as nat),
            forall|j: int| 0 <= j < queue@.len() ==> descends(init, n0, (#[trigger] queue@[j])@),
            (queue@.len() > 0 && queue@[0]@ == init) || !init.all_coincide(),
            codes.finite(),
            codes.len() == visited@.len(),
            codes.subset_of(set_int_range(0, bound)),
            forall|j: int|
                0 <= j < visited@.len() ==> {
                    let c = (#[trigger] visited@[j])@;
                    &&& c.ground.len() == w * h
                    &&& c.fill.len() == w * h
                    &&& c.balls.len() == nb
                    &&& balls_on_grid(c, w, h)
                    &&& codes.contains(code(c, base))
                },
            forall|x: int| #[trigger]
                codes.contains(x) ==> exists|j: int|
                    0 <= j < visited@.len() && x == code((#[trigger] visited@[j])@, base),
            covered(init, queue_views(queue@), expanded),
            search_closed(init, queue_views(queue@), seen_views(visited@), expanded),
            forall|a: int, b: int|
                0 <= a <= b < queue@.len() ==> (#[trigger] queue_views(queue@)[a]).directions.len()
                    <= (#[trigger] queue_views(queue@)[b]).directions.len(),
            queue@.len() > 0 ==> queue_views(queue@)[queue@.len() - 1].directions.len()
                <= queue_views(queue@)[0].directions.len() + 1,
            queue@.len() > 0 ==> forall|j: int|
                0 <= j < expanded.len() ==> (#[trigger] expanded[j]).directions.len()
                    <= queue_views(queue@)[0].directions.len(),
        decreases bound - visited@.len(), queue@.len(),
    {
        let ghost q0 = queue@;
        let ghost qv0 = queue_views(q0);
        let ghost sv0 = seen_views(visited@);
        let ghost e0 = expanded;
        let cur = match queue.pop_front() {
            Some(s) => s,
            None => { return Err(SolveError::Unsolvable); },
        };
        let ghost depth = cur@.directions.len() as int;
        proof {
            assert(cur == q0[0]);
            assert(qv0[0] == cur@);
            assert(descends(init, n0, cur@));
            assert forall|j: int| 0 <= j < queue@.len() implies descends(init, n0, (#[trigger] queue@[j])@) by {
                assert(queue@[j] == q0[j + 1]);
            }
            assert(queue_views(queue@) =~= qv0.drop_first());
            assert forall|j: int| 0 <= j < qv0.len() implies depth <= (#[trigger] qv0[j]).directions.len()
                <= depth + 1 by {
                assert(qv0[0].directions.len() <= qv0[j].directions.len());
                assert(qv0[j].directions.len() <= qv0[qv0.len() - 1].directions.len());
            }
        }
        if cur.all_coincide() {
            proof {
                assert forall|moves: Seq<Move>|
                    #[trigger] replay(init, moves) matches Some(u) && u.all_coincide() implies n0
                        + moves.len() >= depth by {
                    if n0 + moves.len() < depth {
                        lemma_search_below_depth(init, qv0, sv0, e0, depth, moves);
                    }
                }
            }
            return Ok(cur);
        }
        let c = cur.concise();
        proof {
            assert(fingerprint_of(c@, cur@));
        }
        if contains(&visited, &c) {
            proof {
                let k = choose|j: int| 0 <= j < visited@.len() && (#[trigger] visited@[j])@ == c@;
                assert(sv0[k] == c@);
                assert(fingerprint_of(sv0[k], e0[k]));
                lemma_fingerprint_node(c@, e0[k], cur@);
                lemma_covered_pop(qv0, e0, e0, k);
                assert forall|j: int| 0 <= j < expanded.len() implies successors_covered(
                    #[trigger] expanded[j],
                    queue_views(queue@),
                    expanded,
                ) by {
                    lemma_successors_covered_mono(expanded[j], qv0, e0, queue_views(queue@), e0);
                }
                assert(covered(init, qv0, e0));
                let qv1 = queue_views(queue@);
                assert forall|a: int, b: int|
                    0 <= a <= b < qv1.len() implies (#[trigger] qv1[a]).directions.len()
                        <= (#[trigger] qv1[b]).directions.len() by {
                    assert(qv1[a] == qv0[a + 1] && qv1[b] == qv0[b + 1]);
                }
                if qv1.len() > 0 {
                    assert(qv1[0] == qv0[1]);
                    assert(qv1[qv1.len() - 1] == qv0[qv0.len() - 1]);
                }
            }
            continue;
        }
        proof {
            let cv = c@;
            assert(balls_on_grid(cv, w, h)) by {
                assert forall|j: int| 0 <= j < cv.balls.len() implies 0 <= #[trigger] cv.balls[j].x < w && 0 <= cv.balls[j].y < h by {
                    assert(cur@.ball_ok(j));
                }
            }
            assert(w * h >= 0) by (nonlinear_arith) requires w >= 1, h >= 1;
            lemma_digits_below(cv, w, h);
            lemma_encode_range(digits(cv), base);
            assert(w * h + w * h + 3 * nb == 2 * w * h + 3 * nb) by (nonlinear_arith);
            let x = code(cv, base);
            assert(0 <= x < bound);
            assert(set_int_range(0, bound).contains(x));
            if codes.contains(x) {
                let j = choose|j: int| 0 <= j < visited@.len() && x == code((#[trigger] visited@[j])@, base);
                lemma_digits_below(visited@[j]@, w, h);
                lemma_encode_injective(digits(visited@[j]@), digits(cv), base);
                lemma_digits_injective(visited@[j]@, cv);
            }
            lemma_int_range(0, bound);
            lemma_len_subset(codes.insert(x), set_int_range(0, bound));
            codes = codes.insert(x);
        }
        let ghost v0 = visited@;
        visited.push(c);
        proof {
            assert forall|x: int| #[trigger] codes.contains(x) implies exists|j: int|
                0 <= j < visited@.len() && x == code((#[trigger] visited@[j])@, base) by {
                if x == code(visited@[v0.len() as int]@, base) {
                } else {
                    let j = choose|j: int| 0 <= j < v0.len() && x == code((#[trigger] v0[j])@, base);
                    assert(visited@[j] == v0[j]);
                }
            }
            let sv1 = seen_views(visited@);
            assert(sv1 =~= sv0.push(c@));
            expanded = expanded.push(cur@);
            assert(same_node(expanded[e0.len() as int], cur@));
            lemma_covered_pop(qv0, e0, expanded, e0.len() as int);
            assert forall|j: int| 0 <= j < e0.len() implies successors_covered(
                #[trigger] expanded[j],
                queue_views(queue@),
                expanded,
            ) by {
                assert(expanded[j] == e0[j]);
                lemma_successors_covered_mono(e0[j], qv0, e0, queue_views(queue@), expanded);
            }
            assert(covered(init, qv0, e0));
            assert forall|j: int| 0 <= j < e0.len() implies fingerprint_of(sv1[j], #[trigger] expanded[j]) by {
                assert(expanded[j] == e0[j]);
                assert(sv1[j] == sv0[j]);
            }
            let qv1 = queue_views(queue@);
            assert forall|a: int, b: int|
                0 <= a <= b < qv1.len() implies (#[trigger] qv1[a]).directions.len()
                    <= (#[trigger] qv1[b]).directions.len() by {
                assert(qv1[a] == qv0[a + 1] && qv1[b] == qv0[b + 1]);
            }
            assert forall|j: int| 0 <= j < qv1.len() implies depth <= (#[trigger] qv1[j]).directions.len()
                <= depth + 1 by {
                assert(qv1[j] == qv0[j + 1]);
            }
            assert forall|j: int| 0 <= j < expanded.len() implies (#[trigger] expanded[j]).directions.len() <= depth by {
                if j < e0.len() {
                    assert(expanded[j] == e0[j]);
                }
            }
        }
        let ghost last = expanded.len() - 1;
        let mut i: usize = 0;
        while i < cur.balls.len()
            invariant
                descends(init, n0, cur@),
                depth == cur@.directions.len(),
                forall|j: int| 0 <= j < queue@.len() ==> descends(init, n0, (#[trigger] queue@[j])@),
                !init.all_coincide(),
                last == expanded.len() - 1,
                last >= 0,
                expanded[last] == cur@,
                covered(init, queue_views(queue@), expanded),
                forall|j: int|
                    0 <= j < last ==> successors_covered(
                        #[trigger] expanded[j],
                        queue_views(queue@),
                        expanded,
                    ),
                forall|ii: int, d: Direction|
                    0 <= ii < i && #[trigger] cur@.stepped(ii, d).0 ==> covered(
                        cur@.stepped(ii, d).1,
                        queue_views(queue@),
                        expanded,
                    ),
                forall|a: int, b: int|
                    0 <= a <= b < queue@.len() ==> (#[trigger] queue_views(queue@)[a]).directions.len()
                        <= (#[trigger] queue_views(queue@)[b]).directions.len(),
                forall|j: int|
                    0 <= j < queue@.len() ==> depth <= (#[trigger] queue_views(queue@)[j]).directions.len()
                        <= depth + 1,
            decreases cur.balls.len() - i,
        {
            let mut k: usize = 0;
            while k < 4
                invariant
                    i < cur.balls.len(),
                    descends(init, n0, cur@),
                    depth == cur@.directions.len(),
                    forall|j: int| 0 <= j < queue@.len() ==> descends(init, n0, (#[trigger] queue@[j])@),
                    !init.all_coincide(),
                    last == expanded.len() - 1,
                    last >= 0,
                    expanded[last] == cur@,
                    covered(init, queue_views(queue@), expanded),
                    forall|j: int|
                        0 <= j < last ==> successors_covered(
                            #[trigger] expanded[j],
                            queue_views(queue@),
                            expanded,
                        ),
                    forall|ii: int, d: Direction|
                        0 <= ii < i && #[trigger] cur@.stepped(ii, d).0 ==> covered(
                            cur@.stepped(ii, d).1,
                            queue_views(queue@),
                            expanded,
                        ),
                    forall|kk: int|
                        0 <= kk < k && #[trigger] cur@.stepped(i as int, direction_order(kk)).0 ==> covered(
                            cur@.stepped(i as int, direction_order(kk)).1,
                            queue_views(queue@),
                            expanded,
                        ),
                    forall|a: int, b: int|
                        0 <= a <= b < queue@.len() ==> (#[trigger] queue_views(queue@)[a]).directions.len()
                            <= (#[trigger] queue_views(queue@)[b]).directions.len(),
                    forall|j: int|
                        0 <= j < queue@.len() ==> depth <= (#[trigger] queue_views(queue@)[j]).directions.len()
                            <= depth + 1,
                decreases 4 - k,
            {
                let mut next = cur.duplicate();
                let d = direction_at(k);
                if next.step_ball(i, d) {
                    proof {
                        lemma_descends_step(init, n0, cur@, i as int, d);
                    }
                    let ghost q1 = queue@;
                    queue.push_back(next);
                    proof {
                        assert forall|j: int| 0 <= j < queue@.len() implies descends(init, n0, (#[trigger] queue@[j])@) by {
                            if j < q1.len() {
                                assert(queue@[j] == q1[j]);
                            }
                        }
                        let (qa, qb) = (queue_views(q1), queue_views(queue@));
                        assert(qb =~= qa.push(next@));
                        lemma_covered_grow(qa, expanded, qb, expanded);
                        assert forall|j: int| 0 <= j < last implies successors_covered(#[trigger] expanded[j], qb, expanded) by {
                            lemma_successors_covered_mono(expanded[j], qa, expanded, qb, expanded);
                        }
                        assert forall|ii: int, dd: Direction|
                            0 <= ii < i && #[trigger] cur@.stepped(ii, dd).0 implies covered(cur@.stepped(ii, dd).1, qb, expanded) by {
                            assert(covered(cur@.stepped(ii, dd).1, qa, expanded));
                        }
                        assert(same_node(qb[qa.len() as int], next@));
                        assert forall|kk: int|
                            0 <= kk < k + 1 && #[trigger] cur@.stepped(i as int, direction_order(kk)).0 implies covered(
                                cur@.stepped(i as int, direction_order(kk)).1, qb, expanded) by {
                            if kk < k {
                                assert(covered(cur@.stepped(i as int, direction_order(kk)).1, qa, expanded));
                            }
                        }
                        assert forall|a: int, b: int|
                            0 <= a <= b < qb.len() implies (#[trigger] qb[a]).directions.len()
                                <= (#[trigger] qb[b]).directions.len() by {
                            if b < qa.len() {
                                assert(qb[a] == qa[a] && qb[b] == qa[b]);
                            } else if a < qa.len() {
                                assert(qb[a] == qa[a]);
                            }
                        }
                        assert forall|j: int| 0 <= j < qb.len() implies depth <= (#[trigger] qb[j]).directions.len()
                            <= depth + 1 by {
                            if j < qa.len() {
                                assert(qb[j] == qa[j]);
                            }
                        }
                    }
                }
                k = k + 1;
            }
            proof {
                assert forall|ii: int, d: Direction|
                    0 <= ii < i + 1 && #[trigger] cur@.stepped(ii, d).0 implies covered(
                        cur@.stepped(ii, d).1,
                        queue_views(queue@),
                        expanded,
                    ) by {
                    if ii == i {
                        let kk: int = match d {
                            Direction::Right => 0,
                            Direction::Left => 1,
                            Direction::Down => 2,
                            Direction::Up => 3,
                        };
                        assert(direction_order(kk) == d);
                    }
                }
            }
            i = i + 1;
        }
        proof {
            let (qv, sv) = (queue_views(queue@), seen_views(visited@));
            assert(successors_covered(cur@, qv, expanded));
            assert(search_closed(init, qv, sv, expanded)) by {
                assert forall|j: int| 0 <= j < expanded.len() implies successors_covered(#[trigger] expanded[j], qv, expanded) by {
                    if j == last {
                    }
                }
            }
            if qv.len() > 0 {
                assert(depth <= qv[0].directions.len());
                assert(qv[qv.len() - 1].directions.len() <= depth + 1);
            }
        }
    }
    proof {
        assert(queue_views(queue@) =~= Seq::<StateView>::empty());
        assert forall|moves: Seq<Move>| !(#[trigger] replay(init, moves) matches Some(u) && u.all_coincide()) by {
            lemma_search_below_depth(
                init,
                Seq::empty(),
                seen_views(visited@),
                expanded,
                n0 + moves.len() + 1,
                moves,
            );
        }
    }
    Err(SolveError::Unsolvable)
}

} // verus!
