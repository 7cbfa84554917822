use snowball::search::{solve, SolveError};
use snowball::state::State;
use snowball::types::{grow, Ball, Direction, Ground, Move, Pos};

fn level(lines: &[&str]) -> State {
    let s = State::from_lines(lines).expect("level");
    assert!(s.is_valid());
    s
}

#[test]
fn equal_balls_side_by_side_are_unsolvable() {
    let mut s = level(&["0", "0", "11"]);
    assert!(!s.push(0, Direction::Right));
    assert!(!s.push(1, Direction::Left));
    assert!(!s.step_ball(0, Direction::Right));
    assert!(!s.step_ball(1, Direction::Left));
    assert!(!s.all_coincide());
    let r = solve(level(&["0", "0", "11"]));
    assert!(matches!(r, Err(SolveError::Unsolvable)));
}

#[test]
fn snow_doubles_up_to_the_cap() {
    let mut s = level(&["0", "0", ".1___."]);
    assert!(s.step_ball(0, Direction::Right));
    assert_eq!(s.balls[0].size, 2);
    assert_eq!(s.get(2, 0), Some(Ground::Plain));
    assert!(s.step_ball(0, Direction::Right));
    assert_eq!(s.balls[0].size, 4);
    assert!(s.step_ball(0, Direction::Right));
    assert_eq!(s.balls[0].size, 4);
    assert_eq!(s.get(4, 0), Some(Ground::Plain));
    assert_eq!((s.balls[0].x, s.balls[0].y), (4, 0));
    assert!(s.is_valid());
}

#[test]
fn used_snow_does_not_grow_again() {
    let mut s = level(&["0", "0", ".1__.", "....."]);
    assert!(s.step_ball(0, Direction::Right));
    assert_eq!(s.balls[0].size, 2);
    assert!(s.step_ball(0, Direction::Left));
    assert_eq!(s.balls[0].size, 2);
    assert!(s.step_ball(0, Direction::Right));
    assert_eq!((s.balls[0].x, s.balls[0].y), (2, 0));
    assert_eq!(s.balls[0].size, 2);
    assert_eq!(s.directions.len(), 3);
}

#[test]
fn refused_step_changes_no_ball_and_records_nothing() {
    let mut s = level(&["0", "0", ".#.", ".1.", "..."]);
    let before = s.balls.clone();
    // The ball cannot be pushed onto the block.
    assert!(!s.step_ball(0, Direction::Up));
    assert_eq!(s.balls, before);
    assert!(s.directions.is_empty());
    // Nobody can stand outside the grid to push it inward.
    let mut t = level(&["0", "0", "1.."]);
    assert!(!t.step_ball(0, Direction::Right));
    assert_eq!(t.player, Pos { x: 0, y: 0 });
    assert!(t.directions.is_empty());
}

#[test]
fn refused_push_leaves_player_behind_the_ball() {
    let mut t = level(&["3", "1", "12..", "...."]);
    // The larger ball may not be pushed onto the smaller one.
    assert!(!t.step_ball(1, Direction::Left));
    assert_eq!(t.player, Pos { x: 2, y: 0 });
    assert_eq!((t.balls[1].x, t.balls[1].y), (1, 0));
    assert!(t.directions.is_empty());
}

#[test]
fn smaller_ball_slides_under_larger() {
    let mut s = level(&["0", "0", ".12"]);
    assert!(s.step_ball(0, Direction::Right));
    assert!(s.all_coincide());
    assert!(s.is_valid());
    // The larger ball cannot leave with the smaller one on top of it.
    let mut t = s.clone();
    assert!(!t.push(1, Direction::Left));
}

#[test]
fn search_returns_fewest_pushes() {
    let init = level(&["0", "1", ".....", "..1.2", "....."]);
    let solved = solve(init.clone()).expect("solvable");
    assert!(solved.all_coincide());
    assert_eq!(solved.directions.len(), 2);
    assert_eq!(solved.directions[0], Move { ball: 0, dir: Direction::Right });
}

#[test]
fn replaying_the_solution_gives_the_same_position() {
    let init = level(&["0", "0", "......", ".1._..", "....#.", "..2..."]);
    let solved = solve(init.clone()).expect("solvable");
    let mut s = init.clone();
    for m in &solved.directions {
        assert!(s.step_ball(m.ball, m.dir));
    }
    assert_eq!(s.ground, solved.ground);
    assert_eq!(s.balls, solved.balls);
    assert_eq!(s.player, solved.player);
    assert_eq!(s.directions, solved.directions);
    assert!(s.all_coincide());
}

#[test]
fn already_solved_needs_no_push() {
    let init = level(&["0", "0", "..1"]);
    let solved = solve(init).expect("one ball");
    assert!(solved.directions.is_empty());
}

#[test]
fn fingerprint_ignores_where_in_its_region_the_player_stands() {
    let a = level(&["0", "0", "...", ".1.", "..."]);
    let b = level(&["2", "2", "...", ".1.", "..."]);
    assert!(a.concise().same(&b.concise()));
    let c = level(&["0", "0", ".#.", "#1.", "..."]);
    let d = level(&["2", "2", ".#.", "#1.", "..."]);
    assert!(!c.concise().same(&d.concise()));
    let fill = c.concise().fill;
    assert_eq!(fill, vec![true, false, false, false, false, false, false, false, false]);
    let fill = d.concise().fill;
    assert_eq!(fill, vec![false, false, true, false, false, true, true, true, true]);
}

#[test]
fn player_walks_only_through_free_cells() {
    let mut s = level(&["0", "0", ".#.", ".1.", "..."]);
    assert!(s.move_to(Pos { x: 2, y: 0 }));
    assert_eq!(s.player, Pos { x: 2, y: 0 });
    assert!(!s.move_to(Pos { x: 1, y: 1 }));
    assert!(!s.move_to(Pos { x: 1, y: 0 }));
    assert!(!s.move_to(Pos { x: 5, y: 0 }));
    assert_eq!(s.player, Pos { x: 2, y: 0 });
    let mask = s.reach_mask();
    assert_eq!(mask, vec![true, false, true, true, false, true, true, true, true]);
}

#[test]
fn reading_a_level() {
    let s = State::from_lines(&["1", "0", "._#", "2.4"]).expect("level");
    assert_eq!((s.width, s.height), (3, 2));
    assert_eq!(s.ground, vec![Ground::Plain, Ground::Snow, Ground::Block, Ground::Plain, Ground::Plain, Ground::Plain]);
    assert_eq!(s.balls, vec![Ball { size: 2, x: 0, y: 1 }, Ball { size: 4, x: 2, y: 1 }]);
    assert_eq!(s.player, Pos { x: 1, y: 0 });
    assert!(s.directions.is_empty());
}

#[test]
fn rejecting_malformed_levels() {
    assert!(State::from_lines(&["0", "0"]).is_none());
    assert!(State::from_lines(&["0", "0", "..", "."]).is_none());
    assert!(State::from_lines(&["0", "0", "..", ".x"]).is_none());
    assert!(State::from_lines(&["0", "0", ".3"]).is_none());
    assert!(State::from_lines(&["2", "0", ".."]).is_none());
    assert!(State::from_lines(&["0", "1", ".."]).is_none());
    assert!(State::from_lines(&["-1", "0", ".."]).is_none());
    assert!(State::from_lines(&["a", "0", ".."]).is_none());
    assert!(State::from_lines(&["", "0", ".."]).is_none());
    assert!(State::from_lines(&["99999999999", "0", ".."]).is_none());
    assert!(State::from_lines(&["0", "0", "#."]).is_none());
    assert!(State::from_lines(&["0", "0", ""]).is_none());
    assert!(State::from_lines(&["01", "0", ".."]).is_some());
}

#[test]
fn validity_check() {
    let mut s = level(&["0", "0", ".1"]);
    s.balls.push(Ball { size: 1, x: 1, y: 0 });
    assert!(!s.is_valid());
    let mut t = level(&["0", "0", ".1_"]);
    t.balls[0].x = 2;
    assert!(!t.is_valid());
    let mut u = level(&["0", "0", ".1"]);
    u.balls[0].size = 8;
    assert!(!u.is_valid());
    let mut w = level(&["0", "0", ".1"]);
    w.ground.pop();
    assert!(!w.is_valid());
}

#[test]
fn directions_and_growth() {
    assert_eq!(Direction::Left.inverse(), Direction::Right);
    assert_eq!(Direction::Right.inverse(), Direction::Left);
    assert_eq!(Direction::Up.inverse(), Direction::Down);
    assert_eq!(Direction::Down.inverse(), Direction::Up);
    assert_eq!(Direction::Left.step(3, 4), (2, 4));
    assert_eq!(Direction::Right.step(3, 4), (4, 4));
    assert_eq!(Direction::Up.step(3, 4), (3, 3));
    assert_eq!(Direction::Down.step(3, 4), (3, 5));
    assert_eq!(grow(1), 2);
    assert_eq!(grow(2), 4);
    assert_eq!(grow(3), 4);
    assert_eq!(grow(4), 4);
}

#[test]
fn terrain_lookup_and_update() {
    let mut s = level(&["0", "0", "._", "#."]);
    assert_eq!(s.get(1, 0), Some(Ground::Snow));
    assert_eq!(s.get(0, 1), Some(Ground::Block));
    assert_eq!(s.get(-1, 0), None);
    assert_eq!(s.get(0, 2), None);
    s.set(1, 0, Ground::Plain);
    assert_eq!(s.get(1, 0), Some(Ground::Plain));
    assert!(!s.other_at(5, 0, 0, 256));
}
