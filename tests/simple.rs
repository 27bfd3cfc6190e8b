use battlesnake::simple::{Movement, SimpleBoard, SimpleSnake};
use battlesnake::wire::Coord;
use std::collections::VecDeque;

fn create_snake_at(body: Vec<Coord>, health: i32) -> SimpleSnake {
    let mut body_deque = VecDeque::new();
    for coord in body {
        body_deque.push_back(coord);
    }
    SimpleSnake {
        health,
        body: body_deque,
    }
}

fn basic_board_with_snake(snake: SimpleSnake) -> SimpleBoard {
    SimpleBoard {
        food: vec![],
        snakes: vec![Some(snake), None, None, None],
        team: [0, 1],
        opps: [2, 3],
        stored_fast_heuristic: None,
        stored_flood_fill_heuristic: None,
    }
}

#[test]
fn test_no_moves_out_of_bounds() {
    // Snake is at (0,0) with neck at (0,1), only RIGHT is possible
    let snake = create_snake_at(vec![Coord { x: 0, y: 0 }, Coord { x: 0, y: 1 }], 100);
    let board = basic_board_with_snake(snake.clone());

    let moves = snake.get_safe_moves(&board, true);
    assert_eq!(moves, vec![Movement::Right]);
}

#[test]
fn test_own_tail() {
    // Snake is in a tight U shape; only Right is safe (moving to tail)
    let snake = create_snake_at(
        vec![
            Coord { x: 1, y: 1 }, // head
            Coord { x: 1, y: 2 }, // neck
            Coord { x: 0, y: 2 },
            Coord { x: 0, y: 1 },
            Coord { x: 0, y: 0 },
            Coord { x: 1, y: 0 },
            Coord { x: 2, y: 0 },
            Coord { x: 2, y: 1 },
        ],
        100,
    );

    let board = basic_board_with_snake(snake.clone());
    println!("Board: \n{}\n", board.render());

    let moves = snake.get_safe_moves(&board, true);
    assert_eq!(moves, vec![Movement::Right]);
}

#[test]
fn test_all_directions_safe() {
    // Snake is in center with no obstacles
    let snake = create_snake_at(vec![Coord { x: 5, y: 5 }], 100);
    let board = basic_board_with_snake(snake.clone());

    let mut moves = snake.get_safe_moves(&board, true);
    moves.sort();
    let mut expected = vec![Movement::Up, Movement::Down, Movement::Left, Movement::Right];
    expected.sort();
    assert_eq!(moves, expected);
}

#[test]
fn test_enemy_collision_blocked() {
    // Snake near enemy that blocks the right
    let snake = create_snake_at(vec![Coord { x: 5, y: 5 }, Coord { x: 5, y: 4 }], 100);
    let enemy_snake = create_snake_at(vec![Coord { x: 6, y: 5 }, Coord { x: 6, y: 4 }], 100);

    let board = SimpleBoard {
        food: vec![],
        snakes: vec![Some(snake.clone()), Some(enemy_snake), None, None],
        team: [0, 2],
        opps: [1, 3],
        stored_fast_heuristic: None,
        stored_flood_fill_heuristic: None,
    };

    let mut moves = snake.get_safe_moves(&board, true);
    moves.sort();
    let mut expected = vec![Movement::Up, Movement::Left];
    expected.sort();
    assert_eq!(moves, expected);
}

#[test]
fn test_team_tail() {
    let snake = create_snake_at(
        vec![
            Coord { x: 1, y: 1 }, // head
            Coord { x: 1, y: 2 }, // neck
            Coord { x: 0, y: 2 },
            Coord { x: 0, y: 1 },
        ],
        100,
    );
    let teammate = create_snake_at(
        vec![
            Coord { x: 3, y: 1 }, // head
            Coord { x: 3, y: 2 }, // neck
            Coord { x: 2, y: 2 },
            Coord { x: 2, y: 1 },
        ],
        100,
    );

    let board = SimpleBoard {
        food: vec![],
        snakes: vec![Some(snake.clone()), Some(teammate), None, None],
        team: [0, 1],
        opps: [2, 3],
        stored_fast_heuristic: None,
        stored_flood_fill_heuristic: None,
    };
    println!("Board: \n{}\n", board.render());

    let mut moves = snake.get_safe_moves(&board, true);
    moves.sort();
    assert_eq!(moves, vec![Movement::Down, Movement::Left, Movement::Right]);
}

#[test]
fn test_enemy_tail() {
    let snake = create_snake_at(
        vec![
            Coord { x: 1, y: 1 }, // head
            Coord { x: 1, y: 0 }, // neck
            Coord { x: 0, y: 0 },
        ],
        100,
    );
    let enemy1 = create_snake_at(
        vec![
            Coord { x: 3, y: 1 }, // head
            Coord { x: 3, y: 2 }, // neck
            Coord { x: 2, y: 2 },
            Coord { x: 2, y: 1 },
        ],
        100,
    );
    let enemy2 = create_snake_at(
        vec![
            Coord { x: 0, y: 4 }, // head
            Coord { x: 0, y: 3 }, // neck
            Coord { x: 0, y: 2 },
            Coord { x: 0, y: 1 },
        ],
        100,
    );

    let board = SimpleBoard {
        food: vec![Coord { x: 0, y: 5 }],
        snakes: vec![Some(snake.clone()), Some(enemy1), Some(enemy2), None],
        team: [0, 3],
        opps: [1, 2],
        stored_fast_heuristic: None,
        stored_flood_fill_heuristic: None,
    };
    println!("Board: \n{}\n", board.render());

    let mut moves = snake.get_safe_moves(&board, true);
    moves.sort();
    assert_eq!(moves, vec![Movement::Up, Movement::Right]);
}

#[test]
fn test_team_tail_opps() {
    let snake = create_snake_at(
        vec![
            Coord { x: 1, y: 1 }, // head
            Coord { x: 1, y: 2 }, // neck
            Coord { x: 0, y: 2 },
            Coord { x: 0, y: 1 },
        ],
        100,
    );
    let teammate = create_snake_at(
        vec![
            Coord { x: 3, y: 1 }, // head
            Coord { x: 3, y: 2 }, // neck
            Coord { x: 2, y: 2 },
            Coord { x: 2, y: 1 },
        ],
        100,
    );

    let board = SimpleBoard {
        food: vec![],
        snakes: vec![Some(snake.clone()), Some(teammate), None, None],
        team: [2, 3],
        opps: [0, 1],
        stored_fast_heuristic: None,
        stored_flood_fill_heuristic: None,
    };
    println!("Board: \n{}\n", board.render());

    let mut moves = snake.get_safe_moves(&board, false);
    moves.sort();
    assert_eq!(moves, vec![Movement::Down, Movement::Left, Movement::Right]);
}

#[test]
fn test_enemy_tail_opps() {
    let snake = create_snake_at(
        vec![
            Coord { x: 1, y: 1 }, // head
            Coord { x: 1, y: 0 }, // neck
            Coord { x: 0, y: 0 },
        ],
        100,
    );
    let enemy1 = create_snake_at(
        vec![
            Coord { x: 3, y: 1 }, // head
            Coord { x: 3, y: 2 }, // neck
            Coord { x: 2, y: 2 },
            Coord { x: 2, y: 1 },
        ],
        100,
    );
    let enemy2 = create_snake_at(
        vec![
            Coord { x: 0, y: 4 }, // head
            Coord { x: 0, y: 3 }, // neck
            Coord { x: 0, y: 2 },
            Coord { x: 0, y: 1 },
        ],
        100,
    );

    let board = SimpleBoard {
        food: vec![Coord { x: 0, y: 5 }],
        snakes: vec![Some(snake.clone()), Some(enemy1), Some(enemy2), None],
        team: [1, 2],
        opps: [0, 3],
        stored_fast_heuristic: None,
        stored_flood_fill_heuristic: None,
    };
    println!("Board: \n{}\n", board.render());

    let mut moves = snake.get_safe_moves(&board, false);
    moves.sort();
    assert_eq!(moves, vec![Movement::Up]);
}

#[test]
fn test_head() {
    let enemy = create_snake_at(
        vec![
            Coord { x: 8, y: 8 }, // head
            Coord { x: 9, y: 8 }, // neck
            Coord { x: 10, y: 8 },
        ],
        100,
    );
    let snake = create_snake_at(
        vec![
            Coord { x: 7, y: 8 }, // head
            Coord { x: 6, y: 8 }, // neck
            Coord { x: 5, y: 8 },
            Coord { x: 4, y: 8 },
        ],
        100,
    );

    let board = SimpleBoard {
        food: vec![],
        snakes: vec![Some(snake.clone()), Some(enemy), None, None],
        team: [0, 3],
        opps: [1, 2],
        stored_fast_heuristic: None,
        stored_flood_fill_heuristic: None,
    };
    println!("Board: \n{}\n", board.render());

    let mut moves = snake.get_safe_moves(&board, true);
    moves.sort();
    assert_eq!(moves, vec![Movement::Up, Movement::Down]);
}

#[test]
fn test_head_opps_longer() {
    let enemy = create_snake_at(
        vec![
            Coord { x: 8, y: 8 }, // head
            Coord { x: 9, y: 8 }, // neck
            Coord { x: 10, y: 8 },
        ],
        100,
    );
    let snake = create_snake_at(
        vec![
            Coord { x: 7, y: 8 }, // head
            Coord { x: 6, y: 8 }, // neck
            Coord { x: 5, y: 8 },
            Coord { x: 4, y: 8 },
        ],
        100,
    );

    let board = SimpleBoard {
        food: vec![],
        snakes: vec![Some(snake.clone()), Some(enemy), None, None],
        team: [1, 3],
        opps: [0, 2],
        stored_fast_heuristic: None,
        stored_flood_fill_heuristic: None,
    };
    println!("Board: \n{}\n", board.render());

    let mut moves = snake.get_safe_moves(&board, false);
    moves.sort();
    assert_eq!(moves, vec![Movement::Up, Movement::Down, Movement::Right]);
}

#[test]
fn test_head_opps_shorter() {
    let enemy = create_snake_at(
        vec![
            Coord { x: 8, y: 8 }, // head
            Coord { x: 9, y: 8 }, // neck
            Coord { x: 10, y: 8 },
        ],
        100,
    );
    let snake = create_snake_at(
        vec![
            Coord { x: 7, y: 8 }, // head
            Coord { x: 6, y: 8 }, // neck
            Coord { x: 5, y: 8 },
            Coord { x: 4, y: 8 },
        ],
        100,
    );

    let board = SimpleBoard {
        food: vec![],
        snakes: vec![Some(snake), Some(enemy.clone()), None, None],
        team: [0, 3],
        opps: [1, 2],
        stored_fast_heuristic: None,
        stored_flood_fill_heuristic: None,
    };
    println!("Board: \n{}\n", board.render());

    let mut moves = enemy.get_safe_moves(&board, false);
    moves.sort();
    assert_eq!(moves, vec![Movement::Up, Movement::Down]);
}

#[test]
fn test_snakes_survive() {
    let snake1 = create_snake_at(vec![Coord { x: 1, y: 1 }], 100);
    let snake2 = create_snake_at(vec![Coord { x: 9, y: 1 }], 100);
    let snake3 = create_snake_at(vec![Coord { x: 9, y: 9 }], 100);
    let snake4 = create_snake_at(vec![Coord { x: 1, y: 9 }], 100);

    let board = SimpleBoard {
        food: vec![],
        snakes: vec![Some(snake1), Some(snake2), Some(snake3), Some(snake4)],
        team: [0, 1],
        opps: [2, 3],
        stored_fast_heuristic: None,
        stored_flood_fill_heuristic: None,
    };
    println!("Board: \n{}\n", board.render());

    let sims1 = board.simulate_move(true);
    for (moves, next_board) in &sims1 {
        println!("Moves: {:?}, Board: \n{}\n", moves, next_board.render());
    }
    let board1 = sims1[0].1.clone();
    println!("Board: \n{}\n", board1.render());
    let sims2 = board1.simulate_move(false)[0].1.clone();
    let board2 = sims2.simulate_move(true)[0].1.clone();
    println!("Board: \n{}\n", board2.render());

    // Assert that all snakes are alive
    assert!(board2.snakes.iter().all(|s| s.is_some()));
}

#[test]
fn test_snake_death_health() {
    let snake = create_snake_at(
        vec![
            Coord { x: 1, y: 1 }, // head
            Coord { x: 1, y: 2 }, // neck
            Coord { x: 0, y: 2 },
            Coord { x: 0, y: 1 },
        ],
        1,
    );
    let board = basic_board_with_snake(snake.clone());
    println!("Board: \n{}\n", board.render());

    let simulations = board.simulate_move(true);
    let sim2 = simulations[0].1.simulate_move(false);

    // Assert that all snakes are None (dead)
    assert!(sim2[0].1.snakes.iter().all(|s| s.is_none()));
}

#[test]
fn test_die_to_self() {
    let snake = create_snake_at(
        vec![
            Coord { x: 1, y: 1 }, // head
            Coord { x: 1, y: 2 }, // neck
            Coord { x: 0, y: 2 },
            Coord { x: 0, y: 1 },
            Coord { x: 0, y: 0 },
            Coord { x: 1, y: 0 },
            Coord { x: 2, y: 0 },
            Coord { x: 2, y: 1 },
            Coord { x: 2, y: 2 },
        ],
        100,
    );
    let board = basic_board_with_snake(snake.clone());
    println!("Board: \n{}\n", board.render());

    let simulations = board.simulate_move(true);
    let sim2 = simulations[0].1.simulate_move(false);
    println!("Board: \n{}\n", sim2[0].1.render());

    // Assert that all snakes are None (dead)
    assert!(sim2[0].1.snakes.iter().all(|s| s.is_none()));
}
