use quoridor_ai::board::{GameState, Orientation, Position, Positions, Wall, WallsRemaining};
use quoridor_ai::edges::build_blocked_edges;
use quoridor_ai::moves::get_valid_pawn_moves;
use quoridor_ai::paths::{bfs_has_path, shortest_path};
use quoridor_ai::rules::can_place_wall;

fn pos(row: i32, col: i32) -> Position {
    Position { row, col }
}

fn wall(row: i32, col: i32, orientation: Orientation) -> Wall {
    Wall { row, col, orientation }
}

fn rows_cols(moves: &[Position]) -> Vec<(i32, i32)> {
    moves.iter().map(|p| (p.row, p.col)).collect()
}

#[test]
fn pawn_moves_center_open_board() {
    let edges = build_blocked_edges(&vec![]);
    let moves = get_valid_pawn_moves(pos(4, 4), pos(0, 0), &edges);
    assert_eq!(rows_cols(&moves), vec![(3, 4), (4, 3), (4, 5), (5, 4)]);
}

#[test]
fn pawn_moves_corner_open_board() {
    let edges = build_blocked_edges(&vec![]);
    let moves = get_valid_pawn_moves(pos(0, 0), pos(8, 8), &edges);
    assert_eq!(rows_cols(&moves), vec![(0, 1), (1, 0)]);
}

#[test]
fn pawn_moves_always_in_bounds_and_distinct() {
    let walls = vec![
        wall(3, 3, Orientation::Horizontal),
        wall(3, 5, Orientation::Vertical),
        wall(4, 4, Orientation::Vertical),
    ];
    let edges = build_blocked_edges(&walls);
    for row in 0..9 {
        for col in 0..9 {
            let moves = get_valid_pawn_moves(pos(row, col), pos(4, 4), &edges);
            for p in &moves {
                assert!(p.row >= 0 && p.row < 9 && p.col >= 0 && p.col < 9);
            }
            for i in 0..moves.len() {
                for j in (i + 1)..moves.len() {
                    assert!((moves[i].row, moves[i].col) != (moves[j].row, moves[j].col));
                }
            }
        }
    }
}

#[test]
fn straight_jump_over_adjacent_opponent() {
    let edges = build_blocked_edges(&vec![]);
    // Opponent directly north of the mover; the straight jump is free.
    let moves = get_valid_pawn_moves(pos(4, 4), pos(3, 4), &edges);
    assert!(moves.iter().any(|p| (p.row, p.col) == (2, 4)));
    // The two diagonals beside the opponent must not appear.
    assert!(!moves.iter().any(|p| (p.row, p.col) == (3, 3)));
    assert!(!moves.iter().any(|p| (p.row, p.col) == (3, 5)));
}

#[test]
fn diagonal_moves_when_jump_blocked_by_wall() {
    // A horizontal wall just beyond the opponent blocks the straight jump.
    let walls = vec![wall(2, 4, Orientation::Horizontal)];
    let edges = build_blocked_edges(&walls);
    let moves = get_valid_pawn_moves(pos(4, 4), pos(3, 4), &edges);
    assert!(!moves.iter().any(|p| (p.row, p.col) == (2, 4)));
    assert!(moves.iter().any(|p| (p.row, p.col) == (3, 3)));
    assert!(moves.iter().any(|p| (p.row, p.col) == (3, 5)));
}

#[test]
fn diagonal_moves_when_jump_off_board() {
    let edges = build_blocked_edges(&vec![]);
    // Opponent on the edge row: the straight jump would leave the board.
    let moves = get_valid_pawn_moves(pos(1, 4), pos(0, 4), &edges);
    assert!(!moves.iter().any(|p| p.row < 0));
    assert!(moves.iter().any(|p| (p.row, p.col) == (0, 3)));
    assert!(moves.iter().any(|p| (p.row, p.col) == (0, 5)));
}

#[test]
fn wall_rejected_outside_grid() {
    let positions = Positions { north: pos(0, 4), south: pos(8, 4) };
    assert!(!can_place_wall(&wall(8, 0, Orientation::Horizontal), &vec![], positions));
    assert!(!can_place_wall(&wall(0, 8, Orientation::Vertical), &vec![], positions));
    assert!(!can_place_wall(&wall(-1, 3, Orientation::Horizontal), &vec![], positions));
}

#[test]
fn wall_rejected_on_crossing_overlap() {
    let positions = Positions { north: pos(0, 4), south: pos(8, 4) };
    let placed = vec![wall(4, 4, Orientation::Horizontal)];
    assert!(!can_place_wall(&wall(4, 4, Orientation::Vertical), &placed, positions));
    // A parallel wall in the same cell fails on its already blocked edges.
    assert!(!can_place_wall(&wall(4, 4, Orientation::Horizontal), &placed, positions));
}

#[test]
fn wall_rejected_on_shared_edge() {
    let positions = Positions { north: pos(0, 4), south: pos(8, 4) };
    let placed = vec![wall(4, 4, Orientation::Horizontal)];
    // Shifted by one column, it still covers one of the same cell edges.
    assert!(!can_place_wall(&wall(4, 5, Orientation::Horizontal), &placed, positions));
    assert!(can_place_wall(&wall(4, 6, Orientation::Horizontal), &placed, positions));
}

#[test]
fn wall_rejected_when_it_seals_a_player() {
    // Box the south token into the corner cell (8, 0): an edge above and
    // one to its right leave a single gap, and the candidate would close it.
    let placed = vec![
        wall(7, 0, Orientation::Horizontal),
        wall(6, 0, Orientation::Vertical),
    ];
    let positions = Positions { north: pos(0, 4), south: pos(8, 0) };
    assert!(!can_place_wall(&wall(7, 1, Orientation::Vertical), &placed, positions));
    // The same candidate is fine when the south token stands elsewhere.
    let positions_free = Positions { north: pos(0, 4), south: pos(8, 4) };
    assert!(can_place_wall(&wall(7, 1, Orientation::Vertical), &placed, positions_free));
}

#[test]
fn bfs_open_board_and_sealed_corner() {
    let edges = build_blocked_edges(&vec![]);
    assert!(bfs_has_path(pos(8, 4), 0, &edges));
    let sealing = vec![
        wall(7, 0, Orientation::Horizontal),
        wall(6, 0, Orientation::Vertical),
        wall(7, 1, Orientation::Vertical),
    ];
    let sealed = build_blocked_edges(&sealing);
    assert!(!bfs_has_path(pos(8, 0), 0, &sealed));
    assert!(bfs_has_path(pos(8, 4), 0, &sealed));
}

#[test]
fn shortest_path_open_board() {
    let edges = build_blocked_edges(&vec![]);
    assert_eq!(shortest_path(pos(8, 4), 0, &edges, None), 8);
    assert_eq!(shortest_path(pos(0, 4), 0, &edges, None), 0);
    assert_eq!(shortest_path(pos(5, 2), 8, &edges, None), 3);
}

#[test]
fn shortest_path_jump_shortens_route() {
    let edges = build_blocked_edges(&vec![]);
    // With the opponent directly in front, the first step is a jump.
    assert_eq!(shortest_path(pos(8, 4), 0, &edges, Some(pos(7, 4))), 7);
}

#[test]
fn shortest_path_sealed_returns_sentinel() {
    let sealing = vec![
        wall(7, 0, Orientation::Horizontal),
        wall(6, 0, Orientation::Vertical),
        wall(7, 1, Orientation::Vertical),
    ];
    let sealed = build_blocked_edges(&sealing);
    assert_eq!(shortest_path(pos(8, 0), 0, &sealed, None), 99);
}

#[test]
fn wall_detour_lengthens_route() {
    // A fence with one gap forces a detour.
    let walls = vec![
        wall(4, 0, Orientation::Horizontal),
        wall(4, 2, Orientation::Horizontal),
        wall(4, 4, Orientation::Horizontal),
        wall(4, 6, Orientation::Horizontal),
    ];
    let edges = build_blocked_edges(&walls);
    // Eight rows up plus the eight-column detour to the open gap.
    let d = shortest_path(pos(8, 0), 0, &edges, None);
    assert_eq!(d, 16);
}

#[test]
fn state_duplicate_is_deep() {
    let state = GameState {
        positions: Positions { north: pos(0, 4), south: pos(8, 4) },
        walls: vec![wall(4, 4, Orientation::Horizontal)],
        walls_remaining: WallsRemaining { north: 10, south: 10 },
    };
    let mut copy = state.duplicate();
    copy.walls.push(wall(2, 2, Orientation::Vertical));
    assert_eq!(state.walls.len(), 1);
    assert_eq!(copy.walls.len(), 2);
}
