use battlesnake::coordinator::{accepts, get_move, MoveError};
use battlesnake::search::{back_up, blend, improves_on, minmax_simple, pick_best, search, search_scored, take_child, trunc_div, NodeState};
use battlesnake::simple::{cartesian_move, simple_out_of_bounds, Movement, SimpleBoard, SimpleSnake, SnakeMove};
use battlesnake::wire::{Battlesnake, Board, Coord, GameInfo};
use std::collections::VecDeque;

fn c(x: i32, y: i32) -> Coord {
    Coord { x, y }
}

fn snake(body: Vec<Coord>, health: i32) -> SimpleSnake {
    SimpleSnake { health, body: VecDeque::from(body) }
}

fn board(food: Vec<Coord>, snakes: Vec<Option<SimpleSnake>>, team: [usize; 2], opps: [usize; 2]) -> SimpleBoard {
    SimpleBoard::new(food, snakes, team, opps)
}

fn wire_snake(id: &str, body: Vec<Coord>, health: i32) -> Battlesnake {
    Battlesnake {
        id: id.to_string(),
        name: id.to_string(),
        health,
        head: body[0],
        length: body.len() as i32,
        body,
        latency: "0".to_string(),
        shout: None,
    }
}

fn wire_board(snakes: Vec<Battlesnake>, food: Vec<Coord>) -> Board {
    Board { height: 11, width: 11, food, snakes, hazards: vec![] }
}

fn session(a: &str, b: &str, timeout: u32) -> GameInfo {
    let mut gi = GameInfo::new("game".to_string(), timeout, a.to_string());
    gi.add_teammate(b.to_string());
    gi
}

fn forced_meeting(a_len: usize, our_team: bool) -> SimpleBoard {
    let a: Vec<Coord> = (0..a_len as i32).map(|k| c(0, 5 - k)).collect();
    let b = vec![c(0, 6), c(0, 7), c(0, 8)];
    let o2 = vec![c(1, 6), c(1, 7), c(1, 8)];
    let snakes = vec![Some(snake(a, 100)), Some(snake(b, 100)), Some(snake(o2, 100)), None];
    if our_team {
        board(vec![], snakes, [1, 2], [0, 3])
    } else {
        board(vec![], snakes, [0, 3], [1, 2])
    }
}

#[test]
fn equal_heads_both_eliminated_after_opponent_ply() {
    let b = forced_meeting(3, false);
    let sims = b.simulate_move(false);
    assert_eq!(sims[0].0, [SnakeMove { id: 1, mv: Movement::Down }, SnakeMove { id: 2, mv: Movement::Down }]);
    let next = &sims[0].1;
    assert!(next.snakes[0].is_none());
    assert!(next.snakes[1].is_none());
    assert!(next.snakes[2].is_some());
}

#[test]
fn equal_heads_both_present_after_team_ply() {
    let b = forced_meeting(3, true);
    let sims = b.simulate_move(true);
    let next = &sims[0].1;
    assert!(next.snakes[0].is_some());
    assert!(next.snakes[1].is_some());
    assert!(next.snakes[2].is_some());
    assert_eq!(next.snakes[0].as_ref().unwrap().body[0], c(0, 5));
    assert_eq!(next.snakes[1].as_ref().unwrap().body[0], c(0, 5));
}

#[test]
fn unequal_heads_only_shorter_eliminated() {
    let b = forced_meeting(4, false);
    let sims = b.simulate_move(false);
    let next = &sims[0].1;
    assert!(next.snakes[0].is_some());
    assert!(next.snakes[1].is_none());
    assert!(next.snakes[2].is_some());
}

#[test]
fn snake_grows_only_on_food_and_loses_health() {
    let b = board(vec![c(5, 6)], vec![Some(snake(vec![c(5, 5), c(5, 4)], 50)), None, None, None], [0, 1], [2, 3]);
    let sims = b.simulate_move(true);
    assert_eq!(sims.len(), 3);
    assert_eq!(sims[0].0[0], SnakeMove { id: 0, mv: Movement::Up });
    let ate = sims[0].1.snakes[0].as_ref().unwrap();
    assert_eq!(ate.body.len(), 3);
    assert_eq!(ate.body[0], c(5, 6));
    assert_eq!(ate.health, 49);
    assert!(sims[0].1.food.is_empty());
    assert_eq!(sims[1].0[0], SnakeMove { id: 0, mv: Movement::Left });
    let moved = sims[1].1.snakes[0].as_ref().unwrap();
    assert_eq!(moved.body, VecDeque::from(vec![c(4, 5), c(5, 5)]));
    assert_eq!(moved.health, 49);
    assert_eq!(sims[1].1.food, vec![c(5, 6)]);
}

#[test]
fn starved_snake_survives_team_ply_then_eliminated() {
    let s = snake(vec![c(1, 1), c(1, 2), c(0, 2), c(0, 1)], 1);
    let b = board(vec![], vec![Some(s), None, None, None], [0, 1], [2, 3]);
    let after_team = b.simulate_move(true);
    let starving = after_team[0].1.snakes[0].as_ref().unwrap();
    assert_eq!(starving.health, 0);
    let after_opps = after_team[0].1.simulate_move(false);
    assert!(after_opps[0].1.snakes[0].is_none());
}

#[test]
fn clashing_team_moves_are_left_out() {
    let a = snake(vec![c(0, 0), c(0, 1)], 100);
    let b = snake(vec![c(2, 0), c(2, 1)], 100);
    let bd = board(vec![], vec![Some(a), Some(b), None, None], [0, 1], [2, 3]);
    let sims = bd.simulate_move(true);
    // a: Right only; b: Left, Right. Right/Left meet at (1, 0).
    assert_eq!(sims.len(), 1);
    assert_eq!(sims[0].0, [SnakeMove { id: 0, mv: Movement::Right }, SnakeMove { id: 1, mv: Movement::Right }]);
}

#[test]
fn no_joint_move_left_falls_back_to_down() {
    let a = snake(vec![c(0, 0), c(0, 1)], 100);
    let b = snake(vec![c(2, 0), c(2, 1), c(3, 1), c(3, 0), c(4, 0)], 100);
    let bd = board(vec![], vec![Some(a), Some(b), None, None], [0, 1], [2, 3]);
    let sims = bd.simulate_move(true);
    assert_eq!(sims.len(), 1);
    assert_eq!(sims[0].0, [SnakeMove { id: 0, mv: Movement::Down }, SnakeMove { id: 1, mv: Movement::Down }]);
    assert_eq!(sims[0].1.snakes[0].as_ref().unwrap().body[0], c(0, 0));
}

#[test]
fn fast_score_formula() {
    let bd = board(
        vec![],
        vec![Some(snake(vec![c(0, 0), c(0, 1), c(0, 2)], 100)), None, Some(snake(vec![c(9, 9), c(9, 8)], 10)), None],
        [0, 1],
        [2, 3],
    );
    let mut bd = bd;
    assert_eq!(bd.heuristic(true), 18);
    assert_eq!(bd.stored_fast_heuristic, Some(18));
}

#[test]
fn fast_score_sentinels() {
    let mut no_team = board(vec![], vec![None, None, Some(snake(vec![c(1, 1)], 100)), None], [0, 1], [2, 3]);
    assert_eq!(no_team.heuristic(false), i32::MIN);
    let mut no_opps = board(vec![], vec![Some(snake(vec![c(1, 1)], 100)), None, None, None], [0, 1], [2, 3]);
    assert_eq!(no_opps.heuristic(false), i32::MAX);
    let mut empty = board(vec![], vec![None, None, None, None], [0, 1], [2, 3]);
    assert_eq!(empty.heuristic(true), i32::MIN);
}

#[test]
fn territory_split_and_score() {
    let mut bd = board(
        vec![],
        vec![Some(snake(vec![c(0, 0)], 100)), None, Some(snake(vec![c(10, 10)], 100)), None],
        [0, 1],
        [2, 3],
    );
    assert_eq!(bd.flood_fill(), vec![66, 0, 55, 0]);
    assert_eq!(bd.flood_fill(), bd.flood_fill());
    assert_eq!(bd.heuristic(false), 11);
    assert_eq!(bd.heuristic(false), 11);
    assert_eq!(bd.stored_flood_fill_heuristic, Some(11));
}

#[test]
fn territory_danger_term() {
    let long_body: Vec<Coord> = (0..60).map(|_| c(10, 10)).collect();
    let mut bd = board(
        vec![],
        vec![Some(snake(vec![c(0, 0)], 100)), None, Some(snake(long_body, 100)), None],
        [0, 1],
        [2, 3],
    );
    assert_eq!(bd.flood_fill_heuristic(), 31);
    assert_eq!(bd.heuristic(true), -472);
    assert_eq!(bd.heuristic(false), -441);
}

#[test]
fn shorter_snake_wins_ties_in_flood_fill() {
    let bd = board(
        vec![],
        vec![Some(snake(vec![c(0, 0), c(0, 0)], 100)), None, Some(snake(vec![c(2, 0)], 100)), None],
        [0, 1],
        [2, 3],
    );
    // Cell (1, y) is as near to both heads; the shorter snake in slot 2 takes it.
    let areas = bd.flood_fill();
    assert_eq!(areas[0] + areas[2], 121);
    assert_eq!(areas[0], 11);
}

#[test]
fn movement_order_and_names() {
    assert!(Movement::Up < Movement::Down);
    assert!(Movement::Down < Movement::Left);
    assert!(Movement::Left < Movement::Right);
    assert!(Movement::Right < Movement::Stay);
    assert_eq!(Movement::Right.to_order(), 3);
    assert_eq!(Movement::all(), vec![Movement::Up, Movement::Down, Movement::Left, Movement::Right]);
    assert_eq!(Movement::Up.as_str(), "up");
    assert_eq!(Movement::Left.as_str(), "left");
}

#[test]
fn cartesian_pairs_first_outermost() {
    let a = vec![SnakeMove { id: 0, mv: Movement::Up }, SnakeMove { id: 0, mv: Movement::Left }];
    let b = vec![SnakeMove { id: 1, mv: Movement::Down }, SnakeMove { id: 1, mv: Movement::Right }];
    let r = cartesian_move(&a, &b);
    assert_eq!(r, vec![[a[0], b[0]], [a[0], b[1]], [a[1], b[0]], [a[1], b[1]]]);
}

#[test]
fn bounds_and_steps() {
    assert!(simple_out_of_bounds(&c(0, 10), &Movement::Up));
    assert!(!simple_out_of_bounds(&c(0, 9), &Movement::Up));
    assert!(simple_out_of_bounds(&c(-1, 3), &Movement::Stay));
    let s = snake(vec![c(3, 4)], 100);
    assert_eq!(s.next_position(Movement::Left), c(2, 4));
    assert_eq!(s.next_position(Movement::Up), c(3, 5));
    assert!(!s.collision_with_body(Movement::Down));
}

#[test]
fn off_board_head_is_eliminated() {
    let mut bd = board(vec![], vec![Some(snake(vec![c(-1, 3)], 100)), Some(snake(vec![c(4, 4)], 100)), None, None], [0, 1], [2, 3]);
    bd.kill_snakes();
    assert!(bd.snakes[0].is_none());
    assert!(bd.snakes[1].is_some());
}

#[test]
fn arithmetic_of_the_search() {
    assert_eq!(blend(100, 2, 10), 70);
    assert_eq!(blend(-100, 1, -1), -50);
    assert_eq!(trunc_div(-7, 2), -3);
    assert_eq!(trunc_div(7, 2), 3);
    assert_eq!(pick_best(&vec![3, 5, 5, 1]), 1);
    assert!(improves_on(true, (5, 3), (5, 2)));
    assert!(!improves_on(true, (4, 9), (5, 2)));
    assert!(improves_on(false, (4, 1), (5, 2)));
    assert!(improves_on(false, (5, 3), (5, 2)));
}

#[test]
fn board_from_wire_layout() {
    let gi = session("a", "b", 500);
    let wb = wire_board(
        vec![
            wire_snake("x", vec![c(1, 1)], 90),
            wire_snake("a", vec![c(2, 2)], 80),
            wire_snake("y", vec![c(3, 3)], 70),
        ],
        vec![c(5, 5)],
    );
    let sb = SimpleBoard::from(&wb, &gi);
    assert_eq!(sb.team, [1, 3]);
    assert_eq!(sb.opps, [0, 2]);
    assert_eq!(sb.snakes.len(), 4);
    assert!(sb.snakes[3].is_none());
    assert_eq!(sb.snakes[2].as_ref().unwrap().health, 70);
    assert_eq!(sb.food, vec![c(5, 5)]);
    let s = SimpleSnake::from(&wb.snakes[0]);
    assert_eq!(s.body, VecDeque::from(vec![c(1, 1)]));
}

#[test]
fn search_returns_a_team_joint_move() {
    let gi = session("a", "b", 60);
    let wb = wire_board(
        vec![
            wire_snake("a", vec![c(0, 0), c(0, 1)], 100),
            wire_snake("b", vec![c(5, 5), c(5, 4)], 100),
            wire_snake("x", vec![c(9, 9), c(9, 8)], 100),
            wire_snake("y", vec![c(9, 1), c(9, 2)], 100),
        ],
        vec![],
    );
    assert!(accepts(&wb, &gi));
    let r = search(&wb, &gi);
    let options: Vec<[SnakeMove; 2]> = SimpleBoard::from(&wb, &gi).simulate_move(true).into_iter().map(|s| s.0).collect();
    assert!(options.contains(&r));
    assert_eq!(r[0], SnakeMove { id: 0, mv: Movement::Right });
}

#[test]
fn teammates_share_one_search_per_turn() {
    let mut gi = session("a", "b", 60);
    let wb = wire_board(
        vec![
            wire_snake("a", vec![c(0, 0), c(0, 1)], 100),
            wire_snake("b", vec![c(5, 5), c(5, 4)], 100),
            wire_snake("x", vec![c(9, 9), c(9, 8)], 100),
        ],
        vec![],
    );
    let first = get_move(&0, &wb, &wb.snakes[0], &mut gi).unwrap();
    assert_eq!(first, Movement::Right);
    assert_eq!(gi.agent_moves[0], vec![Movement::Right]);
    assert_eq!(gi.agent_moves[1].len(), 1);
    let partner_move = gi.agent_moves[1][0];
    let second = get_move(&0, &wb, &wb.snakes[1], &mut gi).unwrap();
    assert_eq!(second, partner_move);
    assert_eq!(gi.agent_moves[1].len(), 1);
}

#[test]
fn move_request_errors() {
    let mut gi = session("a", "b", 60);
    let wb = wire_board(vec![wire_snake("b", vec![c(5, 5)], 100)], vec![]);
    let stranger = wire_snake("z", vec![c(1, 1)], 100);
    assert_eq!(get_move(&0, &wb, &stranger, &mut gi), Err(MoveError::UnknownAgent));
    let absent = wire_snake("a", vec![c(1, 1)], 100);
    assert_eq!(get_move(&0, &wb, &absent, &mut gi), Err(MoveError::NotOnBoard));
    let off = wire_board(vec![wire_snake("a", vec![c(11, 1)], 100)], vec![]);
    assert_eq!(get_move(&0, &off, &off.snakes[0], &mut gi), Err(MoveError::InvalidBoard));
    assert!(!accepts(&off, &gi));
    assert!(gi.agent_moves[0].is_empty());
}

#[test]
fn session_record_keeps_margin() {
    let gi = GameInfo::new("g".to_string(), 500, "a".to_string());
    assert_eq!(gi.timeout, 475);
    assert_eq!(gi.agent_ids[1], "");
    let short = GameInfo::new("g".to_string(), 10, "a".to_string());
    assert_eq!(short.timeout, 0);
}

#[test]
fn snakes_equal_by_identifier() {
    let a = wire_snake("a", vec![c(1, 1)], 100);
    let a2 = wire_snake("a", vec![c(2, 2)], 50);
    let b = wire_snake("b", vec![c(1, 1)], 100);
    assert!(a == a2);
    assert!(a != b);
}

#[test]
fn picture_of_a_board() {
    let bd = board(vec![c(0, 10)], vec![Some(snake(vec![c(5, 5), c(5, 4)], 100)), None, None, None], [0, 1], [2, 3]);
    let mut expected = String::from("\n|:---------:|");
    for y in (0..11).rev() {
        expected.push_str("\n|");
        for x in 0..11 {
            expected.push(if x == 0 && y == 10 {
                'f'
            } else if x == 5 && y == 5 {
                'h'
            } else if x == 5 && y == 4 {
                's'
            } else {
                ' '
            });
        }
        expected.push('|');
    }
    expected.push_str("\n|:---------:|");
    assert_eq!(bd.render(), expected);
}

#[test]
fn node_bookkeeping_cuts_and_backs_up() {
    let start = NodeState { best: (i32::MIN, 1), alpha: 0, beta: 5, done: false };
    let s1 = take_child(true, start, (3, 2));
    assert_eq!((s1.best, s1.alpha, s1.beta, s1.done), ((3, 2), 3, 5, false));
    let s2 = take_child(true, s1, (3, 2));
    assert_eq!(s2.best, (3, 2));
    let s3 = take_child(true, s1, (7, 2));
    assert_eq!((s3.best, s3.alpha, s3.done), ((7, 2), 7, true));
    let s4 = take_child(true, s3, (9, 4));
    assert_eq!(s4.best, (7, 2));
    let m = take_child(false, NodeState { best: (i32::MAX, 1), alpha: 2, beta: 9, done: false }, (1, 3));
    assert_eq!((m.best, m.beta, m.done), ((1, 3), 1, true));
    assert_eq!(back_up(1, (10, 3), 4), (8, 3));
    assert_eq!(back_up(1, (i32::MAX, 3), 4), (i32::MAX, 3));
}

#[test]
fn minmax_stops_at_depth_limit_and_without_time() {
    let fresh = || board(
        vec![],
        vec![Some(snake(vec![c(0, 0)], 100)), None, Some(snake(vec![c(10, 10)], 100)), None],
        [0, 1],
        [2, 3],
    );
    let mut b = fresh();
    assert_eq!(minmax_simple(&mut b, 100, true, i32::MIN, i32::MAX, 1, 10, 1_000_000), (11, 100));
    let mut b = fresh();
    assert_eq!(minmax_simple(&mut b, 3, false, i32::MIN, i32::MAX, 1, 10, 11), (11, 3));
    let mut b = fresh();
    let r = minmax_simple(&mut b, 90, true, i32::MIN, i32::MAX, 1, 10, 1_000_000);
    assert!(r.1 >= 91 && r.1 <= 100);
}

#[test]
fn scored_search_picks_first_greatest() {
    let gi = session("a", "b", 60);
    let wb = wire_board(
        vec![
            wire_snake("a", vec![c(5, 5), c(5, 4)], 100),
            wire_snake("x", vec![c(9, 9), c(9, 8)], 100),
        ],
        vec![],
    );
    let (chosen, values) = search_scored(&wb, &gi);
    let options: Vec<[SnakeMove; 2]> = SimpleBoard::from(&wb, &gi).simulate_move(true).into_iter().map(|s| s.0).collect();
    assert_eq!(values.len(), options.len());
    let best = *values.iter().max().unwrap();
    let first = values.iter().position(|v| *v == best).unwrap();
    assert_eq!(chosen, options[first]);
}
