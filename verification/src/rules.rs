//! Wall legality: a candidate wall must sit on the wall grid, must not
//! cross another wall or cover an already blocked edge, and must leave both
//! players a plain route to their goal rows.

use vstd::prelude::*;
use crate::board::{Positions, Wall, wall_in_bounds, GOAL_NORTH, GOAL_SOUTH};
use crate::edges::{
    EdgeSet, build_blocked_edges, add_wall_edges, wall_edge_a, wall_edge_b, walls_block,
    walls_rel, lemma_walls_block_push,
};
use crate::paths::{plain_step, reaches_row, bfs_has_path, lemma_reaches_row_congruence};
use crate::board::Position;

verus! {

/// True when some wall of the list sits on the candidate's wall-grid cell
/// with the perpendicular orientation.
pub open spec fn crossing_overlap(cand: Wall, ws: Seq<Wall>) -> bool {
    exists|i: int| 0 <= i < ws.len() && (#[trigger] ws[i]).row == cand.row
        && ws[i].col == cand.col && ws[i].orientation != cand.orientation
}

/// When a candidate wall may be placed: on the wall grid, no crossing wall
/// on its cell, neither of its edges already blocked, and both players
/// still plainly connected to their goal rows afterwards.
pub open spec fn spec_can_place(cand: Wall, ws: Seq<Wall>, positions: Positions) -> bool {
    &&& wall_in_bounds(cand)
    &&& !crossing_overlap(cand, ws)
    &&& !walls_block(ws, wall_edge_a(cand).0, wall_edge_a(cand).1)
    &&& !walls_block(ws, wall_edge_b(cand).0, wall_edge_b(cand).1)
    &&& reaches_row(plain_step(walls_rel(ws.push(cand))), positions.north, GOAL_NORTH as int)
    &&& reaches_row(plain_step(walls_rel(ws.push(cand))), positions.south, GOAL_SOUTH as int)
}

/// A wall that may be placed never strands a player: after adding it to
/// the list, both sides still plainly reach their goal rows.
pub proof fn lemma_placeable_wall_keeps_paths(cand: Wall, ws: Seq<Wall>, positions: Positions)
    requires
        spec_can_place(cand, ws, positions),
    ensures
        reaches_row(plain_step(walls_rel(ws.push(cand))), positions.north, GOAL_NORTH as int),
        reaches_row(plain_step(walls_rel(ws.push(cand))), positions.south, GOAL_SOUTH as int),
{
}

/// Decides `spec_can_place` for a candidate wall against the placed walls
/// and the two token positions.
#[verifier::loop_isolation(false)]
pub fn can_place_wall(candidate: &Wall, walls: &Vec<Wall>, positions: Positions) -> (r: bool)
    requires
        forall|i: int| 0 <= i < walls@.len() ==> wall_in_bounds(#[trigger] walls@[i]),
        positions.north.in_bounds(),
        positions.south.in_bounds(),
    ensures
        r == spec_can_place(*candidate, walls@, positions),
{
    if candidate.row < 0 || candidate.col < 0 || candidate.row >= 8 || candidate.col >= 8 {
        return false;
    }
    let mut i: usize = 0;
    while i < walls.len()
        invariant
            i <= walls@.len(),
            forall|k: int| 0 <= k < i ==> !((#[trigger] walls@[k]).row == candidate.row
                && walls@[k].col == candidate.col && walls@[k].orientation != candidate.orientation),
        decreases walls@.len() - i,
    {
        let w = walls[i];
        if w.row == candidate.row && w.col == candidate.col && w.orientation != candidate.orientation {
            return false;
        }
        i = i + 1;
    }
    let mut es = build_blocked_edges(walls);
    let top_left = Position { row: candidate.row, col: candidate.col };
    let top_right = Position { row: candidate.row, col: candidate.col + 1 };
    let bottom_left = Position { row: candidate.row + 1, col: candidate.col };
    let bottom_right = Position { row: candidate.row + 1, col: candidate.col + 1 };
    let (a0, a1, b0, b1) = match candidate.orientation {
        crate::board::Orientation::Horizontal => (top_left, bottom_left, top_right, bottom_right),
        crate::board::Orientation::Vertical => (top_left, top_right, bottom_left, bottom_right),
    };
    proof {
        assert((a0, a1) == wall_edge_a(*candidate));
        assert((b0, b1) == wall_edge_b(*candidate));
    }
    if es.contains_edge(a0, a1) {
        return false;
    }
    if es.contains_edge(b0, b1) {
        return false;
    }
    let ghost pushed = walls@.push(*candidate);
    add_wall_edges(&mut es, candidate);
    proof {
        assert forall|x: Position, y: Position| x.in_bounds() && y.in_bounds()
            implies (#[trigger] es.rel()(x, y)) == walls_rel(pushed)(x, y) by {
            lemma_walls_block_push(walls@, *candidate, x, y);
            assert(es.rel()(x, y) == es.spec_blocked(x, y));
            assert(walls_rel(pushed)(x, y) == walls_block(pushed, x, y));
        }
        lemma_reaches_row_congruence(es.rel(), walls_rel(pushed), positions.north, GOAL_NORTH as int);
        lemma_reaches_row_congruence(es.rel(), walls_rel(pushed), positions.south, GOAL_SOUTH as int);
    }
    let rn = bfs_has_path(positions.north, GOAL_NORTH, &es);
    let rs = bfs_has_path(positions.south, GOAL_SOUTH, &es);
    rn && rs
}

} // verus!
