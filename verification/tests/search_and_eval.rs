use quoridor_ai::board::{
    BestMoveOutput, GameState, GameStateInput, MoveChoice, Orientation, Player, Position,
    Positions, Wall, WallsRemaining,
};
use quoridor_ai::eval::evaluate;
use quoridor_ai::search::{
    apply_move, best_move_output, fallback_move, generate_moves, is_terminal, minimax,
    search_best_move,
};

fn pos(row: i32, col: i32) -> Position {
    Position { row, col }
}

fn wall(row: i32, col: i32, orientation: Orientation) -> Wall {
    Wall { row, col, orientation }
}

fn state(
    south: Position,
    north: Position,
    walls: Vec<Wall>,
    south_walls: u8,
    north_walls: u8,
) -> GameState {
    GameState {
        positions: Positions { north, south },
        walls,
        walls_remaining: WallsRemaining { north: north_walls, south: south_walls },
    }
}

/// Minimax over the same generated move lists with no pruning at all.
fn plain_minimax(state: &GameState, depth: i32, player: Player) -> (i64, Option<MoveChoice>) {
    if depth == 0 || is_terminal(state) {
        return (evaluate(state), None);
    }
    let moves = generate_moves(state, player, depth);
    let mut best_move = None;
    if player == Player::South {
        let mut best = i64::MIN;
        for mv in moves {
            if let Some(ns) = apply_move(state, player, &mv) {
                let (s, _) = plain_minimax(&ns, depth - 1, player.opponent());
                if s > best {
                    best = s;
                    best_move = Some(mv);
                }
            }
        }
        (best, best_move)
    } else {
        let mut best = i64::MAX;
        for mv in moves {
            if let Some(ns) = apply_move(state, player, &mv) {
                let (s, _) = plain_minimax(&ns, depth - 1, player.opponent());
                if s < best {
                    best = s;
                    best_move = Some(mv);
                }
            }
        }
        (best, best_move)
    }
}

#[test]
fn evaluate_start_position_exact() {
    let st = state(pos(8, 4), pos(0, 4), vec![], 10, 10);
    // Distances cancel; only the two centering terms remain.
    assert_eq!(evaluate(&st), 1200 - 600);
}

#[test]
fn evaluate_midgame_exact() {
    let st = state(pos(1, 4), pos(4, 4), vec![], 0, 0);
    // Path differential 6000, centering 600, advancement 5336 - 1949.
    assert_eq!(evaluate(&st), 6000 + 600 + 5336 - 1949);
}

#[test]
fn evaluate_terminal_dominance_south() {
    let st = state(pos(0, 3), pos(5, 5), vec![], 0, 10);
    assert!(evaluate(&st) > 9000 * 100);
}

#[test]
fn evaluate_terminal_dominance_north() {
    let st = state(pos(3, 3), pos(8, 2), vec![], 10, 0);
    assert!(evaluate(&st) < -9000 * 100);
}

#[test]
fn search_is_deterministic() {
    let st = state(pos(6, 4), pos(2, 3), vec![wall(4, 4, Orientation::Horizontal)], 3, 2);
    let first = search_best_move(&st);
    let second = search_best_move(&st);
    assert_eq!(first.0, second.0);
    assert_eq!(first.1, second.1);
}

#[test]
fn alpha_beta_matches_plain_minimax_shallow() {
    let st = state(pos(5, 4), pos(3, 4), vec![wall(2, 2, Orientation::Vertical)], 2, 1);
    let pruned = minimax(&st, 2, i64::MIN, i64::MAX, Player::South);
    let plain = plain_minimax(&st, 2, Player::South);
    assert_eq!(pruned.0, plain.0);
    assert_eq!(pruned.1, plain.1);
}

#[test]
fn alpha_beta_matches_plain_minimax_no_walls() {
    let st = state(pos(4, 4), pos(4, 2), vec![], 0, 0);
    let pruned = minimax(&st, 3, i64::MIN, i64::MAX, Player::South);
    let plain = plain_minimax(&st, 3, Player::South);
    assert_eq!(pruned.0, plain.0);
    assert_eq!(pruned.1, plain.1);
}

#[test]
fn no_wall_moves_generated_without_supply() {
    let st = state(pos(4, 4), pos(4, 2), vec![], 0, 10);
    let moves = generate_moves(&st, Player::South, 3);
    assert!(!moves.is_empty());
    for mv in &moves {
        assert!(matches!(mv, MoveChoice::Pawn(_)));
    }
}

#[test]
fn generated_moves_pawns_first_then_capped_walls() {
    let st = state(pos(4, 4), pos(2, 4), vec![], 10, 10);
    let moves = generate_moves(&st, Player::South, 3);
    let first_wall = moves.iter().position(|m| matches!(m, MoveChoice::Wall(_)));
    if let Some(k) = first_wall {
        for m in &moves[k..] {
            assert!(matches!(m, MoveChoice::Wall(_)));
        }
        assert!(moves.len() - k <= 12);
    }
    assert!(matches!(moves[0], MoveChoice::Pawn(_)));
}

#[test]
fn generated_moves_shallow_wall_cap() {
    let st = state(pos(4, 4), pos(2, 4), vec![], 3, 3);
    let moves = generate_moves(&st, Player::South, 2);
    let walls = moves.iter().filter(|m| matches!(m, MoveChoice::Wall(_))).count();
    assert!(walls <= 8);
}

#[test]
fn scenario_opening_advances_south() {
    let input = GameStateInput {
        positions: Positions { north: pos(0, 4), south: pos(8, 4) },
        walls: vec![],
        walls_remaining: WallsRemaining { north: 10, south: 10 },
    };
    let out = best_move_output(Some(input));
    match out {
        BestMoveOutput::Move { data } => assert_eq!(data.row, 7),
        BestMoveOutput::Wall { .. } => panic!("expected a token move at the opening"),
    }
}

#[test]
fn scenario_missing_input_yields_default_move() {
    let out = best_move_output(None);
    assert_eq!(out, BestMoveOutput::Move { data: pos(7, 4) });
}

#[test]
fn scenario_winning_move_taken() {
    let input = GameStateInput {
        positions: Positions { north: pos(4, 4), south: pos(1, 4) },
        walls: vec![],
        walls_remaining: WallsRemaining { north: 0, south: 0 },
    };
    let out = best_move_output(Some(input));
    match out {
        BestMoveOutput::Move { data } => assert_eq!(data.row, 0),
        BestMoveOutput::Wall { .. } => panic!("expected the winning token move"),
    }
}

#[test]
fn scenario_winning_move_taken_with_walls_available() {
    let input = GameStateInput {
        positions: Positions { north: pos(4, 4), south: pos(1, 2) },
        walls: vec![],
        walls_remaining: WallsRemaining { north: 10, south: 10 },
    };
    let out = best_move_output(Some(input));
    match out {
        BestMoveOutput::Move { data } => assert_eq!(data.row, 0),
        BestMoveOutput::Wall { .. } => panic!("expected the winning token move"),
    }
}

#[test]
fn scenario_no_wall_output_without_supply() {
    let input = GameStateInput {
        positions: Positions { north: pos(4, 2), south: pos(4, 4) },
        walls: vec![],
        walls_remaining: WallsRemaining { north: 10, south: 0 },
    };
    let out = best_move_output(Some(input));
    assert!(matches!(out, BestMoveOutput::Move { .. }));
}

#[test]
fn fallback_moves_toward_goal() {
    let st = state(pos(5, 5), pos(0, 0), vec![], 0, 0);
    let f = fallback_move(pos(5, 5), &st);
    assert_eq!((f.row, f.col), (4, 5));
}

#[test]
fn fallback_prefers_last_among_equal_rows() {
    // The upward edge from (5, 5) is walled off, leaving two sideways
    // moves of equal row; the later one in row-major order is taken.
    let st = state(pos(5, 5), pos(0, 0), vec![wall(4, 4, Orientation::Horizontal)], 0, 0);
    let f = fallback_move(pos(5, 5), &st);
    assert_eq!((f.row, f.col), (5, 6));
}

#[test]
fn apply_move_leaves_parent_untouched() {
    let st = state(pos(6, 4), pos(2, 4), vec![], 5, 5);
    let next = apply_move(&st, Player::South, &MoveChoice::Pawn(pos(5, 4))).unwrap();
    assert_eq!(st.positions.south.row, 6);
    assert_eq!(next.positions.south.row, 5);
    let placed = apply_move(&st, Player::South, &MoveChoice::Wall(wall(3, 3, Orientation::Horizontal))).unwrap();
    assert_eq!(st.walls.len(), 0);
    assert_eq!(placed.walls.len(), 1);
    assert_eq!(placed.walls_remaining.south, 4);
    assert_eq!(placed.walls_remaining.north, 5);
}

#[test]
fn apply_move_rejects_illegal_wall() {
    let st = state(pos(6, 4), pos(2, 4), vec![wall(3, 3, Orientation::Horizontal)], 5, 5);
    let crossing = apply_move(&st, Player::South, &MoveChoice::Wall(wall(3, 3, Orientation::Vertical)));
    assert!(crossing.is_none());
}
