use vstd::prelude::*;
use vstd::string::StrSliceExecFns;
use crate::state::{State, StateView, cell_index, lemma_cell_in_range, lemma_cell_injective};
use crate::types::{Ball, Ground, Move, Pos};

verus! {

/// The terrain a glyph stands for; a ball glyph stands on plain ground.
pub open spec fn glyph_ground(c: char) -> Option<Ground> {
    if c == '.' || c == '1' || c == '2' || c == '4' {
        Some(Ground::Plain)
    } else if c == '_' {
        Some(Ground::Snow)
    } else if c == '#' {
        Some(Ground::Block)
    } else {
        None
    }
}

/// The size of the ball a glyph places, or 0 where it places none.
pub open spec fn glyph_size(c: char) -> u8 {
    if c == '1' {
        1
    } else if c == '2' {
        2
    } else if c == '4' {
        4
    } else {
        0
    }
}

pub open spec fn is_digit(c: char) -> bool {
    '0' <= c <= '9'
}

/// The number written by the decimal digits `s`.
pub open spec fn decimal(s: Seq<char>) -> int
    decreases s.len(),
{
    if s.len() == 0 {
        0
    } else {
        decimal(s.drop_last()) * 10 + (s.last() as int - '0' as int)
    }
}

/// `s` is a non-empty run of decimal digits.
pub open spec fn is_number(s: Seq<char>) -> bool {
    s.len() > 0 && forall|k: int| 0 <= k < s.len() ==> is_digit(#[trigger] s[k])
}

/// The balls that row `y` places, left to right.
pub open spec fn row_balls(row: Seq<char>, y: int) -> Seq<Ball>
    decreases row.len(),
{
    if row.len() == 0 {
        Seq::empty()
    } else {
        let c = row.last();
        row_balls(row.drop_last(), y) + if glyph_size(c) > 0 {
            seq![Ball { size: glyph_size(c), x: (row.len() - 1) as i32, y: y as i32 }]
        } else {
            Seq::empty()
        }
    }
}

/// The balls that `rows` place, row by row.
pub open spec fn grid_balls(rows: Seq<Seq<char>>) -> Seq<Ball>
    decreases rows.len(),
{
    if rows.len() == 0 {
        Seq::empty()
    } else {
        grid_balls(rows.drop_last()) + row_balls(rows.last(), rows.len() - 1)
    }
}

/// A level text: the player's column, the player's row, then the grid rows.
/// It is accepted when the grid is a non-empty rectangle of known glyphs and
/// the player stands inside it, off blocks.
pub open spec fn level_ok(lines: Seq<Seq<char>>) -> bool {
    let rows = lines.skip(2);
    let w = rows[0].len() as int;
    let h = rows.len() as int;
    &&& lines.len() >= 3
    &&& 1 <= w <= i32::MAX
    &&& h <= i32::MAX
    &&& w * h <= usize::MAX
    &&& forall|y: int| 0 <= y < h ==> (#[trigger] rows[y]).len() == w
    &&& forall|y: int, x: int| 0 <= y < h && 0 <= x < w ==> glyph_ground(#[trigger] rows[y][x]) is Some
    &&& is_number(lines[0])
    &&& is_number(lines[1])
    &&& decimal(lines[0]) < w
    &&& decimal(lines[1]) < h
    &&& glyph_ground(rows[decimal(lines[1])][decimal(lines[0])]) != Some(Ground::Block)
}

/// The position a level text describes, where `level_ok` holds.
pub open spec fn level_state(lines: Seq<Seq<char>>, v: StateView) -> bool {
    let rows = lines.skip(2);
    &&& v.width == rows[0].len()
    &&& v.height == rows.len()
    &&& v.ground.len() == v.width * v.height
    &&& forall|x: int, y: int|
        0 <= x < v.width && 0 <= y < v.height ==> #[trigger] v.ground[cell_index(v.width, x, y)]
            == glyph_ground(rows[y][x]).unwrap()
    &&& v.balls == grid_balls(rows)
    &&& v.player == Pos { x: decimal(lines[0]) as i32, y: decimal(lines[1]) as i32 }
    &&& v.directions == Seq::<Move>::empty()
}

/// The characters of each line.
pub open spec fn texts(lines: Seq<&str>) -> Seq<Seq<char>> {
    lines.map_values(|l: &str| l@)
}

proof fn lemma_decimal_step(s: Seq<char>, i: int)
    requires
        0 <= i < s.len(),
    ensures
        decimal(s.take(i + 1)) == decimal(s.take(i)) * 10 + (s[i] as int - '0' as int),
{
    assert(s.take(i + 1).drop_last() =~= s.take(i));
}

/// Coordinates from here up are too large for any grid.
const COORD_CAP: u64 = 0x8000_0000;

/// Reads a coordinate written in decimal digits; `None` unless it is below
/// `limit`.
fn parse_coordinate(s: &str, limit: usize) -> (r: Option<usize>)
    requires
        limit <= i32::MAX,
    ensures
        r == (if is_number(s@) && decimal(s@) < limit {
            Some(decimal(s@) as usize)
        } else {
            None::<usize>
        }),
        r matches Some(v) ==> v < limit && v as int == decimal(s@),
{
    let n = s.unicode_len();
    if n == 0 {
        return None;
    }
    let mut acc: u64 = 0;
    let mut i: usize = 0;
    while i < n
        invariant
            n == s@.len(),
            i <= n,
            forall|k: int| 0 <= k < i ==> is_digit(#[trigger] s@[k]),
            decimal(s@.take(i as int)) >= 0,
            acc == (if decimal(s@.take(i as int)) >= COORD_CAP {
                COORD_CAP as int
            } else {
                decimal(s@.take(i as int))
            }),
        decreases n - i,
    {
        let c = s.get_char(i);
        if !('0' <= c && c <= '9') {
            return None;
        }
        proof {
            lemma_decimal_step(s@, i as int);
        }
        let d = (c as u32 - '0' as u32) as u64;
        if acc < COORD_CAP {
            acc = acc * 10 + d;
            if acc > COORD_CAP {
                acc = COORD_CAP;
            }
        }
        i = i + 1;
    }
    proof {
        assert(s@.take(n as int) =~= s@);
    }
    if acc < limit as u64 {
        Some(acc as usize)
    } else {
        None
    }
}

/// Appends the terrain and the balls of grid row `y` to `ground` and `balls`.
/// Returns `false` where the row has not `width` cells or holds a glyph that
/// stands for nothing.
fn parse_row(row: &str, y: i32, width: usize, ground: &mut Vec<Ground>, balls: &mut Vec<Ball>) -> (r: bool)
    requires
        y >= 0,
    ensures
        r == (row@.len() == width && forall|x: int| 0 <= x < width ==> glyph_ground(#[trigger] row@[x]) is Some),
        r ==> final(ground)@.len() == old(ground)@.len() + width,
        r ==> forall|k: int| 0 <= k < old(ground)@.len() ==> #[trigger] final(ground)@[k] == old(ground)@[k],
        r ==> forall|x: int|
            0 <= x < width ==> #[trigger] final(ground)@[old(ground)@.len() + x] == glyph_ground(row@[x]).unwrap(),
        r ==> final(balls)@ == old(balls)@ + row_balls(row@, y as int),
{
    let n = row.unicode_len();
    if n != width {
        return false;
    }
    let ghost g0 = ground@;
    let ghost b0 = balls@;
    let mut x: usize = 0;
    while x < n
        invariant
            n == width == row@.len(),
            x <= n,
            y >= 0,
            ground@.len() == g0.len() + x,
            forall|k: int| 0 <= k < g0.len() ==> #[trigger] ground@[k] == g0[k],
            forall|k: int| 0 <= k < x ==> glyph_ground(#[trigger] row@[k]) is Some,
            forall|k: int| 0 <= k < x ==> #[trigger] ground@[g0.len() + k] == glyph_ground(row@[k]).unwrap(),
            balls@ == b0 + row_balls(row@.take(x as int), y as int),
        decreases n - x,
    {
        let c = row.get_char(x);
        let g = if c == '.' {
            Ground::Plain
        } else if c == '_' {
            Ground::Snow
        } else if c == '#' {
            Ground::Block
        } else if c == '1' || c == '2' || c == '4' {
            let size: u8 = if c == '1' {
                1
            } else if c == '2' {
                2
            } else {
                4
            };
            balls.push(Ball { size, x: x as i32, y });
            Ground::Plain
        } else {
            return false;
        };
        ground.push(g);
        proof {
            let t = row@.take(x + 1);
            assert(t.drop_last() =~= row@.take(x as int));
            assert(t.last() == c);
            assert(balls@ =~= b0 + row_balls(t, y as int));
        }
        x = x + 1;
    }
    proof {
        assert(row@.take(n as int) =~= row@);
    }
    true
}

impl State {
    /// Reads a level: the player's column, the player's row, then the grid
    /// rows, in which `.` is plain ground, `_` snow, `#` a block, and `1`, `2`,
    /// `4` a ball of that size on plain ground. Balls are numbered row by row,
    /// left to right. Returns `None` where the text is not a level.
    pub fn from_lines(lines: &[&str]) -> (r: Option<State>)
        ensures
            r is Some == level_ok(texts(lines@)),
            r is Some ==> level_state(texts(lines@), r.unwrap()@),
    {
        let ghost t = texts(lines@);
        let ghost rows = t.skip(2);
        if lines.len() < 3 {
            return None;
        }
        proof {
            assert(rows[0] == lines@[2]@);
        }
        let w = lines[2].unicode_len();
        let h = lines.len() - 2;
        if w == 0 || w > i32::MAX as usize || h > i32::MAX as usize {
            return None;
        }
        if w.checked_mul(h).is_none() {
            return None;
        }
        let mut ground: Vec<Ground> = Vec::new();
        let mut balls: Vec<Ball> = Vec::new();
        let mut y: usize = 0;
        while y < h
            invariant
                lines@.len() == h + 2,
                t == texts(lines@),
                rows == t.skip(2),
                1 <= w <= i32::MAX,
                h <= i32::MAX,
                w * h <= usize::MAX,
                rows[0].len() == w,
                y <= h,
                ground@.len() == w * y,
                forall|yy: int| 0 <= yy < y ==> (#[trigger] rows[yy]).len() == w,
                forall|yy: int, x: int| 0 <= yy < y && 0 <= x < w ==> glyph_ground(#[trigger] rows[yy][x]) is Some,
                forall|xx: int, yy: int|
                    0 <= xx < w && 0 <= yy < y ==> #[trigger] ground@[cell_index(w as int, xx, yy)]
                        == glyph_ground(rows[yy][xx]).unwrap(),
                balls@ == grid_balls(rows.take(y as int)),
            decreases h - y,
        {
            let ghost g0 = ground@;
            assert(rows[y as int] == lines@[y + 2]@);
            if !parse_row(lines[y + 2], y as i32, w, &mut ground, &mut balls) {
                proof {
                    let x = choose|x: int| 0 <= x < w && !(glyph_ground(#[trigger] rows[y as int][x]) is Some);
                    if rows[y as int].len() == w {
                        assert(rows[y as int][x] == lines@[y + 2]@[x]);
                    }
                }
                return None;
            }
            proof {
                assert(w * (y + 1) == w * y + w) by (nonlinear_arith);
                assert forall|xx: int, yy: int|
                    0 <= xx < w && 0 <= yy < y + 1 implies #[trigger] ground@[cell_index(w as int, xx, yy)]
                        == glyph_ground(rows[yy][xx]).unwrap() by {
                    lemma_cell_in_range(w as int, y + 1, xx, yy);
                    if yy < y {
                        lemma_cell_in_range(w as int, y as int, xx, yy);
                        assert(ground@[cell_index(w as int, xx, yy)] == g0[cell_index(w as int, xx, yy)]);
                    } else {
                        assert(cell_index(w as int, xx, yy) == g0.len() + xx);
                    }
                }
                let tk = rows.take(y + 1);
                assert(tk.drop_last() =~= rows.take(y as int));
                assert(tk.last() == rows[y as int]);
            }
            y = y + 1;
        }
        proof {
            assert(rows.take(h as int) =~= rows);
        }
        let px = match parse_coordinate(lines[0], w) {
            Some(v) => v,
            None => { return None; },
        };
        let py = match parse_coordinate(lines[1], h) {
            Some(v) => v,
            None => { return None; },
        };
        proof {
            lemma_cell_in_range(w as int, h as int, px as int, py as int);
            assert(t[0] == lines@[0]@);
            assert(t[1] == lines@[1]@);
        }
        if ground[w * py + px] == Ground::Block {
            return None;
        }
        Some(State {
            width: w,
            height: h,
            ground,
            balls,
            player: Pos { x: px as i32, y: py as i32 },
            directions: Vec::new(),
        })
    }
}

} // verus!
