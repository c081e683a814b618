//! The positional evaluation, from the south (maximising) side's view, and
//! the heuristic value of a candidate wall.
//!
//! Scores are fixed-point integers, every weight scaled by 100.  The two
//! row-advancement curves of the evaluation are power curves of the row
//! index; their nine values are tabulated as scaled constants.

use vstd::prelude::*;
use crate::board::{GameState, Position, Positions, Wall, Orientation, Player, spec_after_wall_spend, wall_in_bounds, GOAL_NORTH, GOAL_SOUTH};
use crate::edges::{EdgeSet, build_blocked_edges, walls_rel, walls_block};
use crate::moves::{get_valid_pawn_moves, move_step, is_valid_pawn_move, valid_move_set, lemma_valid_move_congruence};
use crate::paths::{
    shortest_path, goal_distance_of, lemma_goal_distance_intro,
    lemma_goal_distance_congruence, lemma_goal_distance_of,
};
use crate::board::clone_walls;

verus! {

/// The magnitude of an integer.
pub open spec fn iabs(x: int) -> int {
    if x < 0 { -x } else { x }
}

/// The south side's row-advancement bonus for `d` rows of progress:
/// `d` to the power 1.4, times the weight 3.5, in scaled units.
pub open spec fn spec_advance_south(d: int) -> int {
    if d <= 0 { 0 }
    else if d == 1 { 350 }
    else if d == 2 { 924 }
    else if d == 3 { 1629 }
    else if d == 4 { 2438 }
    else if d == 5 { 3331 }
    else if d == 6 { 4300 }
    else if d == 7 { 5336 }
    else { 6433 }
}

/// The north side's row-advancement term for row `r`: `r` to the power
/// 1.35, times the weight 3.0, in scaled units.
pub open spec fn spec_advance_north(r: int) -> int {
    if r <= 0 { 0 }
    else if r == 1 { 300 }
    else if r == 2 { 765 }
    else if r == 3 { 1322 }
    else if r == 4 { 1949 }
    else if r == 5 { 2635 }
    else if r == 6 { 3370 }
    else if r == 7 { 4150 }
    else { 4969 }
}

fn advance_south_scaled(d: i32) -> (r: i64)
    requires
        0 <= d <= 8,
    ensures
        r == spec_advance_south(d as int),
{
    if d == 0 { 0 }
    else if d == 1 { 350 }
    else if d == 2 { 924 }
    else if d == 3 { 1629 }
    else if d == 4 { 2438 }
    else if d == 5 { 3331 }
    else if d == 6 { 4300 }
    else if d == 7 { 5336 }
    else { 6433 }
}

fn advance_north_scaled(r: i32) -> (v: i64)
    requires
        0 <= r <= 8,
    ensures
        v == spec_advance_north(r as int),
{
    if r == 0 { 0 }
    else if r == 1 { 300 }
    else if r == 2 { 765 }
    else if r == 3 { 1322 }
    else if r == 4 { 1949 }
    else if r == 5 { 2635 }
    else if r == 6 { 3370 }
    else if r == 7 { 4150 }
    else { 4969 }
}

/// The full evaluation as a function of the two goal distances, the two
/// mobility counts, and the state: path differential, column centering,
/// row advancement, mobility, proximity aggression, wall supply, and the
/// terminal bonuses, all in scaled units.
pub open spec fn spec_eval_score(ai_dist: int, player_dist: int, ai_moves: int, player_moves: int, st: GameState) -> int {
    let ai_row = st.positions.south.row as int;
    let ai_col = st.positions.south.col as int;
    let player_row = st.positions.north.row as int;
    let player_col = st.positions.north.col as int;
    (player_dist - ai_dist) * 2000
        + (4 - iabs(ai_col - 4)) * 300
        - (4 - iabs(player_col - 4)) * 150
        + spec_advance_south(8 - ai_row)
        - spec_advance_north(player_row)
        + (ai_moves - player_moves) * 200
        + (if iabs(ai_row - player_row) + iabs(ai_col - player_col) < 3 && ai_row < player_row { 600int } else { 0int })
        + (st.walls_remaining.south - st.walls_remaining.north) * 150
        + (if ai_row == GOAL_SOUTH as int { 1000000int } else { 0int })
        - (if player_row == GOAL_NORTH as int { 1000000int } else { 0int })
}

/// Combines the measured distances and mobility counts into the score.
#[verifier::rlimit(100)]
fn combine_scores(ai_dist: i32, player_dist: i32, ai_moves: usize, player_moves: usize, state: &GameState) -> (r: i64)
    requires
        state.wf(),
        0 <= ai_dist <= 99,
        0 <= player_dist <= 99,
        ai_moves <= 8,
        player_moves <= 8,
    ensures
        r as int == spec_eval_score(ai_dist as int, player_dist as int, ai_moves as int, player_moves as int, *state),
        -3000000 < r < 3000000,
{
    let ai_row = state.positions.south.row;
    let ai_col = state.positions.south.col;
    let player_row = state.positions.north.row;
    let player_col = state.positions.north.col;

    let mut score: i64 = (player_dist as i64 - ai_dist as i64) * 2000;

    let ai_center: i64 = if ai_col >= 4 { (ai_col - 4) as i64 } else { (4 - ai_col) as i64 };
    score = score + (4 - ai_center) * 300;
    let player_center: i64 = if player_col >= 4 { (player_col - 4) as i64 } else { (4 - player_col) as i64 };
    score = score - (4 - player_center) * 150;

    score = score + advance_south_scaled(8 - ai_row);
    score = score - advance_north_scaled(player_row);

    score = score + (ai_moves as i64 - player_moves as i64) * 200;

    let row_gap: i64 = if ai_row >= player_row { (ai_row - player_row) as i64 } else { (player_row - ai_row) as i64 };
    let col_gap: i64 = if ai_col >= player_col { (ai_col - player_col) as i64 } else { (player_col - ai_col) as i64 };
    if row_gap + col_gap < 3 && ai_row < player_row {
        score = score + 600;
    }

    score = score + (state.walls_remaining.south as i64 - state.walls_remaining.north as i64) * 150;

    if ai_row == GOAL_SOUTH {
        score = score + 1000000;
    }
    if player_row == GOAL_NORTH {
        score = score - 1000000;
    }
    score
}

/// The evaluation of a whole state, as a value: the formula applied to
/// the two true jump-aware goal distances (south's to row 0, north's to
/// row 8) and the two mobility counts.
pub open spec fn spec_state_eval(st: GameState) -> int {
    spec_eval_score(
        goal_distance_of(move_step(st.positions.north, walls_rel(st.walls@)), st.positions.south, GOAL_SOUTH as int),
        goal_distance_of(move_step(st.positions.south, walls_rel(st.walls@)), st.positions.north, GOAL_NORTH as int),
        valid_move_set(st.positions.south, st.positions.north, walls_rel(st.walls@)).len() as int,
        valid_move_set(st.positions.north, st.positions.south, walls_rel(st.walls@)).len() as int,
        st,
    )
}

/// The evaluation of the state reached by moving `player`'s token to `p`.
pub open spec fn spec_eval_after_pawn(st: GameState, p: Position, player: Player) -> int {
    spec_state_eval(GameState {
        positions: match player {
            Player::North => Positions { north: p, ..st.positions },
            Player::South => Positions { south: p, ..st.positions },
        },
        ..st
    })
}

/// The evaluation of the state reached by `player` placing the wall `w`
/// and spending one segment.
pub open spec fn spec_eval_after_wall(st: GameState, w: Wall, player: Player) -> int {
    let ws = st.walls@.push(w);
    spec_eval_score(
        goal_distance_of(move_step(st.positions.north, walls_rel(ws)), st.positions.south, GOAL_SOUTH as int),
        goal_distance_of(move_step(st.positions.south, walls_rel(ws)), st.positions.north, GOAL_NORTH as int),
        valid_move_set(st.positions.south, st.positions.north, walls_rel(ws)).len() as int,
        valid_move_set(st.positions.north, st.positions.south, walls_rel(ws)).len() as int,
        GameState { walls_remaining: spec_after_wall_spend(st.walls_remaining, player), ..st },
    )
}

/// States with equal positions, wall views and supplies evaluate equally.
pub proof fn lemma_state_eval_parts(a: GameState, b: GameState)
    requires
        a.positions == b.positions,
        a.walls@ == b.walls@,
        a.walls_remaining == b.walls_remaining,
    ensures
        spec_state_eval(a) == spec_state_eval(b),
{
}

/// A state whose fields are those of `base` after placing `w` evaluates to
/// `spec_eval_after_wall`.
pub proof fn lemma_state_eval_after_wall(next: GameState, base: GameState, w: Wall, player: Player)
    requires
        next.positions == base.positions,
        next.walls@ == base.walls@.push(w),
        next.walls_remaining == spec_after_wall_spend(base.walls_remaining, player),
    ensures
        spec_state_eval(next) == spec_eval_after_wall(base, w, player),
{
}

/// Scores the state for the south side: exactly `spec_state_eval`.  South
/// on its goal row dominates every positional term, and north on its goal
/// row dominates them the other way.
#[verifier::rlimit(100)]
pub fn evaluate(state: &GameState) -> (r: i64)
    requires
        state.wf(),
    ensures
        r as int == spec_state_eval(*state),
        -3000000 < r < 3000000,
        state.positions.south.row == GOAL_SOUTH && state.positions.north.row != GOAL_NORTH
            ==> r > 900000,
        state.positions.north.row == GOAL_NORTH && state.positions.south.row != GOAL_SOUTH
            ==> r < -900000,
{
    let edges = build_blocked_edges(&state.walls);
    let ai_dist = shortest_path(state.positions.south, GOAL_SOUTH, &edges, Some(state.positions.north));
    let player_dist = shortest_path(state.positions.north, GOAL_NORTH, &edges, Some(state.positions.south));
    let ai_moves = get_valid_pawn_moves(state.positions.south, state.positions.north, &edges);
    let player_moves = get_valid_pawn_moves(state.positions.north, state.positions.south, &edges);
    let r = combine_scores(ai_dist, player_dist, ai_moves.len(), player_moves.len(), state);
    proof {
        let ar = state.positions.south.row as int;
        let pr = state.positions.north.row as int;
        assert(0 <= spec_advance_south(8 - ar) <= 6433);
        assert(0 <= spec_advance_north(pr) <= 4969);
        assert(0 <= state.walls_remaining.south < 256 && 0 <= state.walls_remaining.north < 256);

        let south = state.positions.south;
        let north = state.positions.north;
        let wrel = walls_rel(state.walls@);
        assert forall|x: Position, y: Position| x.in_bounds() && y.in_bounds()
            implies (#[trigger] edges.rel()(x, y)) == wrel(x, y) by {
            assert(edges.rel()(x, y) == edges.spec_blocked(x, y));
            assert(wrel(x, y) == walls_block(state.walls@, x, y));
        }
        let e_south = move_step(north, edges.rel());
        let s_south = move_step(north, wrel);
        let e_north = move_step(south, edges.rel());
        let s_north = move_step(south, wrel);
        assert forall|a: Position, b: Position| a.in_bounds() && b.in_bounds()
            implies (#[trigger] e_south(a, b)) == s_south(a, b) by {
            lemma_valid_move_congruence(a, north, edges.rel(), wrel, b);
            assert(e_south(a, b) == is_valid_pawn_move(a, north, edges.rel(), b));
            assert(s_south(a, b) == is_valid_pawn_move(a, north, wrel, b));
        }
        assert forall|a: Position, b: Position| a.in_bounds() && b.in_bounds()
            implies (#[trigger] e_north(a, b)) == s_north(a, b) by {
            lemma_valid_move_congruence(a, south, edges.rel(), wrel, b);
            assert(e_north(a, b) == is_valid_pawn_move(a, south, edges.rel(), b));
            assert(s_north(a, b) == is_valid_pawn_move(a, south, wrel, b));
        }
        lemma_goal_distance_intro(e_south, south, GOAL_SOUTH as int, ai_dist as int);
        lemma_goal_distance_congruence(e_south, s_south, south, GOAL_SOUTH as int, ai_dist as int);
        lemma_goal_distance_intro(e_north, north, GOAL_NORTH as int, player_dist as int);
        lemma_goal_distance_congruence(e_north, s_north, north, GOAL_NORTH as int, player_dist as int);
        assert forall|p: Position|
            valid_move_set(south, north, edges.rel()).contains(p)
            == valid_move_set(south, north, wrel).contains(p) by {
            lemma_valid_move_congruence(south, north, edges.rel(), wrel, p);
        }
        assert(valid_move_set(south, north, edges.rel()) =~= valid_move_set(south, north, wrel));
        assert forall|p: Position|
            valid_move_set(north, south, edges.rel()).contains(p)
            == valid_move_set(north, south, wrel).contains(p) by {
            lemma_valid_move_congruence(north, south, edges.rel(), wrel, p);
        }
        assert(valid_move_set(north, south, edges.rel()) =~= valid_move_set(north, south, wrel));
        lemma_goal_distance_of(s_south, south, GOAL_SOUTH as int, ai_dist as int);
        lemma_goal_distance_of(s_north, north, GOAL_NORTH as int, player_dist as int);
    }
    r
}

/// The heuristic score of a wall against its four distance terms: the
/// lengthening of the opponent's route, the lengthening of one's own, the
/// orientation bonus, and the two placement-distance shapings.
pub open spec fn spec_wall_score(opp_before: int, opp_after: int, self_before: int, self_after: int, w: Wall, self_pos: Position, opp_pos: Position) -> int {
    let blocking_gain = opp_after - opp_before;
    let self_penalty = self_after - self_before;
    let dist_to_opp = iabs(w.row - opp_pos.row) + iabs(w.col - opp_pos.col);
    let dist_to_self = iabs(w.row - self_pos.row) + iabs(w.col - self_pos.col);
    let orientation_bonus: int = match w.orientation {
        Orientation::Horizontal => if w.row > opp_pos.row { 4 } else { 2 },
        Orientation::Vertical => if iabs(w.col - opp_pos.col) <= 1 { 5 } else { 3 },
    };
    blocking_gain * 25 - self_penalty * 18 + orientation_bonus - dist_to_self * 2
        + (if 4 - dist_to_opp > 0 { 4 - dist_to_opp } else { 0 }) * 4
}

/// Combines the four measured distances into the wall score.
fn wall_score(opp_before: i32, opp_after: i32, self_before: i32, self_after: i32, w: &Wall, self_pos: Position, opp_pos: Position) -> (r: i64)
    requires
        0 <= opp_before <= 99,
        0 <= opp_after <= 99,
        0 <= self_before <= 99,
        0 <= self_after <= 99,
        wall_in_bounds(*w),
        self_pos.in_bounds(),
        opp_pos.in_bounds(),
    ensures
        r as int == spec_wall_score(opp_before as int, opp_after as int, self_before as int, self_after as int, *w, self_pos, opp_pos),
{
    let blocking_gain: i64 = opp_after as i64 - opp_before as i64;
    let self_penalty: i64 = self_after as i64 - self_before as i64;
    let row_gap_opp: i64 = if w.row >= opp_pos.row { (w.row - opp_pos.row) as i64 } else { (opp_pos.row - w.row) as i64 };
    let col_gap_opp: i64 = if w.col >= opp_pos.col { (w.col - opp_pos.col) as i64 } else { (opp_pos.col - w.col) as i64 };
    let dist_to_opp: i64 = row_gap_opp + col_gap_opp;
    let row_gap_self: i64 = if w.row >= self_pos.row { (w.row - self_pos.row) as i64 } else { (self_pos.row - w.row) as i64 };
    let col_gap_self: i64 = if w.col >= self_pos.col { (w.col - self_pos.col) as i64 } else { (self_pos.col - w.col) as i64 };
    let dist_to_self: i64 = row_gap_self + col_gap_self;
    let orientation_bonus: i64 = match w.orientation {
        Orientation::Horizontal => if w.row > opp_pos.row { 4 } else { 2 },
        Orientation::Vertical => if col_gap_opp <= 1 { 5 } else { 3 },
    };
    let closeness: i64 = if 4 - dist_to_opp > 0 { 4 - dist_to_opp } else { 0 };
    blocking_gain * 25 - self_penalty * 18 + orientation_bonus - dist_to_self * 2 + closeness * 4
}

/// The heuristic value of a wall, as a value: the wall-score formula
/// applied to the four true goal distances, before and after the
/// placement, of the placing side and its opponent.
pub open spec fn spec_wall_value(st: GameState, w: Wall, player: Player) -> int {
    let me = st.spec_for_player(player);
    let other = st.spec_for_player(player.spec_opponent());
    let other_goal = GameState::spec_goal_row(player.spec_opponent()) as int;
    let my_goal = GameState::spec_goal_row(player) as int;
    spec_wall_score(
        goal_distance_of(move_step(me, walls_rel(st.walls@)), other, other_goal),
        goal_distance_of(move_step(me, walls_rel(st.walls@.push(w))), other, other_goal),
        goal_distance_of(move_step(other, walls_rel(st.walls@)), me, my_goal),
        goal_distance_of(move_step(other, walls_rel(st.walls@.push(w))), me, my_goal),
        w, me, other,
    )
}

/// The heuristic value of placing `wall` for `player` in `state`, whose
/// blocked edges are `edges`: exactly `spec_wall_value`.
#[verifier::rlimit(100)]
pub fn wall_value(state: &GameState, wall: &Wall, player: Player, edges: &EdgeSet) -> (r: i64)
    requires
        state.wf(),
        wall_in_bounds(*wall),
        edges.wf(),
        forall|a: Position, b: Position| a.in_bounds() && b.in_bounds()
            ==> ((#[trigger] edges.spec_blocked(a, b)) <==> walls_block(state.walls@, a, b)),
    ensures
        r as int == spec_wall_value(*state, *wall, player),
{
    let mut next_walls = clone_walls(&state.walls);
    next_walls.push(*wall);
    let next_edges = build_blocked_edges(&next_walls);

    let player_pos = state.for_player(player);
    let opp_pos = state.for_player(player.opponent());
    let opp_goal = GameState::goal_row(player.opponent());
    let self_goal = GameState::goal_row(player);

    let opp_before = shortest_path(opp_pos, opp_goal, edges, Some(player_pos));
    let opp_after = shortest_path(opp_pos, opp_goal, &next_edges, Some(player_pos));
    let self_before = shortest_path(player_pos, self_goal, edges, Some(opp_pos));
    let self_after = shortest_path(player_pos, self_goal, &next_edges, Some(opp_pos));

    let r = wall_score(opp_before, opp_after, self_before, self_after, wall, player_pos, opp_pos);
    proof {
        let old_rel = walls_rel(state.walls@);
        let new_rel = walls_rel(state.walls@.push(*wall));
        assert(next_walls@ == state.walls@.push(*wall));
        assert forall|x: Position, y: Position| x.in_bounds() && y.in_bounds()
            implies (#[trigger] edges.rel()(x, y)) == old_rel(x, y) by {
            assert(edges.rel()(x, y) == edges.spec_blocked(x, y));
            assert(old_rel(x, y) == walls_block(state.walls@, x, y));
        }
        assert forall|x: Position, y: Position| x.in_bounds() && y.in_bounds()
            implies (#[trigger] next_edges.rel()(x, y)) == new_rel(x, y) by {
            assert(next_edges.rel()(x, y) == next_edges.spec_blocked(x, y));
            assert(new_rel(x, y) == walls_block(next_walls@, x, y));
        }
        let eo_before = move_step(player_pos, edges.rel());
        let so_before = move_step(player_pos, old_rel);
        let eo_after = move_step(player_pos, next_edges.rel());
        let so_after = move_step(player_pos, new_rel);
        let es_before = move_step(opp_pos, edges.rel());
        let ss_before = move_step(opp_pos, old_rel);
        let es_after = move_step(opp_pos, next_edges.rel());
        let ss_after = move_step(opp_pos, new_rel);
        assert forall|a: Position, b: Position| a.in_bounds() && b.in_bounds()
            implies (#[trigger] eo_before(a, b)) == so_before(a, b) by {
            lemma_valid_move_congruence(a, player_pos, edges.rel(), old_rel, b);
            assert(eo_before(a, b) == is_valid_pawn_move(a, player_pos, edges.rel(), b));
            assert(so_before(a, b) == is_valid_pawn_move(a, player_pos, old_rel, b));
        }
        assert forall|a: Position, b: Position| a.in_bounds() && b.in_bounds()
            implies (#[trigger] eo_after(a, b)) == so_after(a, b) by {
            lemma_valid_move_congruence(a, player_pos, next_edges.rel(), new_rel, b);
            assert(eo_after(a, b) == is_valid_pawn_move(a, player_pos, next_edges.rel(), b));
            assert(so_after(a, b) == is_valid_pawn_move(a, player_pos, new_rel, b));
        }
        assert forall|a: Position, b: Position| a.in_bounds() && b.in_bounds()
            implies (#[trigger] es_before(a, b)) == ss_before(a, b) by {
            lemma_valid_move_congruence(a, opp_pos, edges.rel(), old_rel, b);
            assert(es_before(a, b) == is_valid_pawn_move(a, opp_pos, edges.rel(), b));
            assert(ss_before(a, b) == is_valid_pawn_move(a, opp_pos, old_rel, b));
        }
        assert forall|a: Position, b: Position| a.in_bounds() && b.in_bounds()
            implies (#[trigger] es_after(a, b)) == ss_after(a, b) by {
            lemma_valid_move_congruence(a, opp_pos, next_edges.rel(), new_rel, b);
            assert(es_after(a, b) == is_valid_pawn_move(a, opp_pos, next_edges.rel(), b));
            assert(ss_after(a, b) == is_valid_pawn_move(a, opp_pos, new_rel, b));
        }
        lemma_goal_distance_intro(eo_before, opp_pos, opp_goal as int, opp_before as int);
        lemma_goal_distance_congruence(eo_before, so_before, opp_pos, opp_goal as int, opp_before as int);
        lemma_goal_distance_intro(eo_after, opp_pos, opp_goal as int, opp_after as int);
        lemma_goal_distance_congruence(eo_after, so_after, opp_pos, opp_goal as int, opp_after as int);
        lemma_goal_distance_intro(es_before, player_pos, self_goal as int, self_before as int);
        lemma_goal_distance_congruence(es_before, ss_before, player_pos, self_goal as int, self_before as int);
        lemma_goal_distance_intro(es_after, player_pos, self_goal as int, self_after as int);
        lemma_goal_distance_congruence(es_after, ss_after, player_pos, self_goal as int, self_after as int);
        lemma_goal_distance_of(so_before, opp_pos, opp_goal as int, opp_before as int);
        lemma_goal_distance_of(so_after, opp_pos, opp_goal as int, opp_after as int);
        lemma_goal_distance_of(ss_before, player_pos, self_goal as int, self_before as int);
        lemma_goal_distance_of(ss_after, player_pos, self_goal as int, self_after as int);
    }
    r
}

} // verus!
