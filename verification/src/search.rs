//! The decision engine: move generation over token moves and ranked wall
//! candidates, minimax with alpha-beta pruning, and the orchestrator that
//! turns an input record into the chosen action.

use vstd::prelude::*;
use crate::board::{
    BestMoveOutput, GameState, GameStateInput, MoveChoice, Orientation, Player, Position,
    Positions, Wall, spec_after_wall_spend, wall_in_bounds, GOAL_NORTH, GOAL_SOUTH,
};
use crate::edges::{build_blocked_edges, walls_rel};
use crate::eval::{
    evaluate, wall_value, spec_state_eval, spec_wall_value, spec_eval_after_pawn,
    spec_eval_after_wall, lemma_state_eval_parts, lemma_state_eval_after_wall,
};
use crate::moves::{
    get_valid_pawn_moves, is_valid_pawn_move, lemma_valid_move_congruence,
    lemma_valid_move_in_bounds, pos_lt,
};
use crate::rules::{can_place_wall, spec_can_place};

verus! {

/// The heuristic score below which a candidate wall is discarded, in the
/// wall scorer's own units.
pub const WALL_SCORE_CUTOFF: i64 = -200;
/// Wall candidates kept per node when more than two plies remain.
pub const WALL_CAP_DEEP: usize = 12;
/// Wall candidates kept per node otherwise.
pub const WALL_CAP_SHALLOW: usize = 8;
/// The wall supply above which the search looks three plies ahead instead
/// of two.
pub const DEPTH_WALL_THRESHOLD: u8 = 4;

/// True when either side stands on its goal row, ending the game.
pub open spec fn spec_is_terminal(st: GameState) -> bool {
    st.positions.south.row == GOAL_SOUTH || st.positions.north.row == GOAL_NORTH
}

/// Whether either side has reached its goal row.
pub fn is_terminal(state: &GameState) -> (r: bool)
    ensures
        r == spec_is_terminal(*state),
{
    state.positions.south.row == GOAL_SOUTH || state.positions.north.row == GOAL_NORTH
}

/// True when the move is legal for `player` in `st`: a token move the move
/// rules admit, or a wall placement the wall rules admit while the player
/// still holds a wall segment.
pub open spec fn legal_choice(mv: MoveChoice, st: GameState, player: Player) -> bool {
    match mv {
        MoveChoice::Pawn(p) => is_valid_pawn_move(
            st.spec_for_player(player),
            st.spec_for_player(player.spec_opponent()),
            walls_rel(st.walls@),
            p,
        ),
        MoveChoice::Wall(w) => spec_can_place(w, st.walls@, st.positions)
            && st.spec_walls_left(player) > 0,
    }
}

/// True when the side to move has any move the generator would emit: a
/// legal token move, or a wall in hand with a placement that is legal and
/// scores above the cutoff.
pub open spec fn has_candidate_move(st: GameState, player: Player) -> bool {
    ||| exists|p: Position| is_valid_pawn_move(
            st.spec_for_player(player),
            st.spec_for_player(player.spec_opponent()),
            walls_rel(st.walls@),
            p,
        )
    ||| (st.spec_walls_left(player) > 0 && exists|w: Wall|
            spec_can_place(w, st.walls@, st.positions)
            && spec_wall_value(st, w, player) > WALL_SCORE_CUTOFF as int)
}

/// How many wall placements a move list holds.
pub open spec fn wall_count(s: Seq<MoveChoice>) -> int
    decreases s.len(),
{
    if s.len() == 0 {
        0
    } else {
        wall_count(s.drop_last()) + (if s.last() is Wall { 1int } else { 0int })
    }
}

proof fn lemma_wall_count_push(s: Seq<MoveChoice>, x: MoveChoice)
    ensures
        wall_count(s.push(x)) == wall_count(s) + (if x is Wall { 1int } else { 0int }),
{
    assert(s.push(x).drop_last() =~= s);
    assert(s.push(x).last() == x);
}

/// The enumeration index of an orientation: horizontal walls are tried
/// first.
pub open spec fn or_idx(o: Orientation) -> int {
    match o {
        Orientation::Horizontal => 0,
        Orientation::Vertical => 1,
    }
}

/// True when the candidate enumeration visits `w` strictly before the
/// position `(oi, row, col)` of its orientation-major, row-major scan.
pub open spec fn enum_before(w: Wall, oi: int, row: int, col: int) -> bool {
    ||| or_idx(w.orientation) < oi
    ||| (or_idx(w.orientation) == oi
        && (w.row < row || (w.row == row && w.col < col)))
}

/// True when some candidate entry carries the wall `w`.
pub open spec fn cand_listed(cands: Seq<(i64, Wall)>, w: Wall) -> bool {
    exists|u: int| 0 <= u < cands.len() && (#[trigger] cands[u]).1 == w
}

/// True when the move list holds the wall `w`.
pub open spec fn moves_has_wall(s: Seq<MoveChoice>, w: Wall) -> bool {
    exists|i: int| 0 <= i < s.len() && #[trigger] s[i] == MoveChoice::Wall(w)
}

proof fn lemma_swap_contains(s: Seq<(i64, Wall)>, i: int, j: int, x: (i64, Wall))
    requires
        0 <= i < s.len(),
        0 <= j < s.len(),
    ensures
        s.update(i, s[j]).update(j, s[i]).contains(x) <==> s.contains(x),
{
    let t = s.update(i, s[j]).update(j, s[i]);
    if s.contains(x) {
        let k = choose|k: int| 0 <= k < s.len() && s[k] == x;
        if k == i {
            assert(t[j] == x);
        } else if k == j {
            assert(t[i] == x);
        } else {
            assert(t[k] == x);
        }
    }
    if t.contains(x) {
        let k = choose|k: int| 0 <= k < t.len() && t[k] == x;
        if k == i {
            assert(s[j] == x);
        } else if k == j {
            assert(s[i] == x);
        } else {
            assert(s[k] == x);
        }
    }
}

/// Sorts the candidate walls by score, highest first, keeping candidates
/// of equal score in their given order.
fn sort_candidates_desc(v: &mut Vec<(i64, Wall)>)
    ensures
        final(v)@.len() == old(v)@.len(),
        forall|x: (i64, Wall)| #[trigger] final(v)@.contains(x) <==> old(v)@.contains(x),
        forall|i: int, j: int| 0 <= i < j < final(v)@.len() ==> final(v)@[i].0 >= final(v)@[j].0,
{
    let ghost orig = v@;
    let mut i: usize = 1;
    while i < v.len()
        invariant
            1 <= i || v@.len() <= 1,
            i <= v@.len() || v@.len() == 0,
            v@.len() == orig.len(),
            forall|x: (i64, Wall)| #[trigger] v@.contains(x) <==> orig.contains(x),
            forall|a: int, b: int| 0 <= a < b < i ==> v@[a].0 >= v@[b].0,
        decreases v@.len() - i,
    {
        let mut j: usize = i;
        while j > 0 && v[j - 1].0 < v[j].0
            invariant
                0 <= j <= i < v@.len(),
                v@.len() == orig.len(),
                forall|x: (i64, Wall)| #[trigger] v@.contains(x) <==> orig.contains(x),
                forall|a: int, b: int| 0 <= a < b <= i && b != j ==> v@[a].0 >= v@[b].0,
                forall|b: int| j < b <= i ==> v@[j as int].0 >= v@[b].0,
            decreases j,
        {
            let ghost before = v@;
            let x = v[j - 1];
            let y = v[j];
            v[j - 1] = y;
            v[j] = x;
            proof {
                assert(v@ == before.update(j - 1, before[j as int]).update(j as int, before[j - 1]));
                assert forall|z: (i64, Wall)| #[trigger] v@.contains(z) <==> orig.contains(z) by {
                    lemma_swap_contains(before, j - 1, j as int, z);
                }
            }
            j = j - 1;
        }
        i = i + 1;
    }
}

/// Every move the search explores for `player` at the given remaining
/// depth: every legal token move first, in row-major order, then legal
/// wall placements scoring above the cutoff, highest first, capped by the
/// depth-dependent breadth limit and only while the player still holds a
/// wall; below the cap no qualifying wall is left out, and any left out
/// above it scores no higher than every kept one.
#[verifier::rlimit(100)]
pub fn generate_moves(state: &GameState, player: Player, depth: i32) -> (moves: Vec<MoveChoice>)
    requires
        state.wf(),
    ensures
        forall|i: int| 0 <= i < moves@.len() ==> legal_choice(#[trigger] moves@[i], *state, player),
        forall|p: Position| is_valid_pawn_move(
            state.spec_for_player(player),
            state.spec_for_player(player.spec_opponent()),
            walls_rel(state.walls@),
            p,
        ) ==> #[trigger] moves@.contains(MoveChoice::Pawn(p)),
        forall|i: int, j: int| 0 <= i < j < moves@.len() && (#[trigger] moves@[i]) is Wall
            ==> (#[trigger] moves@[j]) is Wall,
        forall|i: int, j: int| 0 <= i < j < moves@.len()
            && (#[trigger] moves@[i]) is Pawn && (#[trigger] moves@[j]) is Pawn
            ==> pos_lt(moves@[i]->Pawn_0, moves@[j]->Pawn_0),
        wall_count(moves@) <= (if depth > 2 { 12int } else { 8int }),
        forall|i: int| 0 <= i < moves@.len() && (#[trigger] moves@[i]) is Wall
            ==> spec_wall_value(*state, moves@[i]->Wall_0, player) > WALL_SCORE_CUTOFF as int,
        forall|i: int, j: int| 0 <= i < j < moves@.len()
            && (#[trigger] moves@[i]) is Wall && (#[trigger] moves@[j]) is Wall
            ==> spec_wall_value(*state, moves@[i]->Wall_0, player)
                >= spec_wall_value(*state, moves@[j]->Wall_0, player),
        forall|w: Wall| spec_can_place(w, state.walls@, state.positions)
            && spec_wall_value(*state, w, player) > WALL_SCORE_CUTOFF as int
            && !(#[trigger] moves_has_wall(moves@, w))
            ==> (forall|j: int| 0 <= j < moves@.len() && (#[trigger] moves@[j]) is Wall
                ==> spec_wall_value(*state, w, player)
                    <= spec_wall_value(*state, moves@[j]->Wall_0, player)),
        state.spec_walls_left(player) > 0
            && wall_count(moves@) < (if depth > 2 { 12int } else { 8int })
            ==> (forall|w: Wall| spec_can_place(w, state.walls@, state.positions)
                && spec_wall_value(*state, w, player) > WALL_SCORE_CUTOFF as int
                ==> #[trigger] moves_has_wall(moves@, w)),
{
    let mut moves: Vec<MoveChoice> = Vec::new();
    let es = build_blocked_edges(&state.walls);
    let self_pos = state.for_player(player);
    let opp_pos = state.for_player(player.opponent());

    let pawn_moves = get_valid_pawn_moves(self_pos, opp_pos, &es);
    let mut k: usize = 0;
    while k < pawn_moves.len()
        invariant
            state.wf(),
            k <= pawn_moves@.len(),
            forall|i: int| 0 <= i < pawn_moves@.len()
                ==> (#[trigger] pawn_moves@.contains(pawn_moves@[i])),
            forall|p: Position| #[trigger] pawn_moves@.contains(p)
                <==> is_valid_pawn_move(self_pos, opp_pos, es.rel(), p),
            self_pos == state.spec_for_player(player),
            opp_pos == state.spec_for_player(player.spec_opponent()),
            es.wf(),
            forall|a: Position, b: Position| a.in_bounds() && b.in_bounds()
                ==> (#[trigger] es.rel()(a, b)) == walls_rel(state.walls@)(a, b),
            forall|i: int| 0 <= i < moves@.len() ==> legal_choice(#[trigger] moves@[i], *state, player),
            moves@.len() == k,
            forall|j: int| 0 <= j < k ==> #[trigger] moves@[j] == MoveChoice::Pawn(pawn_moves@[j]),
            wall_count(moves@) == 0,
        decreases pawn_moves@.len() - k,
    {
        let p = pawn_moves[k];
        proof {
            assert(pawn_moves@.contains(pawn_moves@[k as int]));
            lemma_valid_move_congruence(self_pos, opp_pos, es.rel(), walls_rel(state.walls@), p);
            lemma_wall_count_push(moves@, MoveChoice::Pawn(p));
        }
        moves.push(MoveChoice::Pawn(p));
        k = k + 1;
    }
    let ghost np = pawn_moves@.len();
    proof {
        assert forall|p: Position| is_valid_pawn_move(
            state.spec_for_player(player),
            state.spec_for_player(player.spec_opponent()),
            walls_rel(state.walls@),
            p,
        ) implies #[trigger] moves@.contains(MoveChoice::Pawn(p)) by {
            lemma_valid_move_congruence(self_pos, opp_pos, es.rel(), walls_rel(state.walls@), p);
            assert(pawn_moves@.contains(p));
            let i = choose|i: int| 0 <= i < pawn_moves@.len() && pawn_moves@[i] == p;
            assert(moves@[i] == MoveChoice::Pawn(p));
        }
    }

    if state.walls_left(player) > 0 {
        let mut cands: Vec<(i64, Wall)> = Vec::new();
        let mut oi: usize = 0;
        while oi < 2
            invariant
                state.wf(),
                es.wf(),
                oi <= 2,
                forall|i: int| 0 <= i < cands@.len()
                    ==> spec_can_place((#[trigger] cands@[i]).1, state.walls@, state.positions),
                forall|i: int| 0 <= i < cands@.len()
                    ==> (#[trigger] cands@[i]).0 as int == spec_wall_value(*state, cands@[i].1, player)
                        && cands@[i].0 > WALL_SCORE_CUTOFF,
                forall|w: Wall| wall_in_bounds(w) && enum_before(w, oi as int, 0, 0)
                    && #[trigger] spec_can_place(w, state.walls@, state.positions)
                    && spec_wall_value(*state, w, player) > WALL_SCORE_CUTOFF as int
                    ==> cand_listed(cands@, w),
                forall|a: Position, b: Position| a.in_bounds() && b.in_bounds()
                    ==> ((#[trigger] es.spec_blocked(a, b)) <==> crate::edges::walls_block(state.walls@, a, b)),
            decreases 2 - oi,
        {
            let orientation = if oi == 0 { Orientation::Horizontal } else { Orientation::Vertical };
            let mut row: i32 = 0;
            while row < 8
                invariant
                    state.wf(),
                    es.wf(),
                    0 <= row <= 8,
                    forall|i: int| 0 <= i < cands@.len()
                        ==> spec_can_place((#[trigger] cands@[i]).1, state.walls@, state.positions),
                    forall|i: int| 0 <= i < cands@.len()
                        ==> (#[trigger] cands@[i]).0 as int == spec_wall_value(*state, cands@[i].1, player)
                            && cands@[i].0 > WALL_SCORE_CUTOFF,
                    oi < 2,
                    or_idx(orientation) == oi as int,
                    forall|w: Wall| wall_in_bounds(w) && enum_before(w, oi as int, row as int, 0)
                        && #[trigger] spec_can_place(w, state.walls@, state.positions)
                        && spec_wall_value(*state, w, player) > WALL_SCORE_CUTOFF as int
                        ==> cand_listed(cands@, w),
                    forall|a: Position, b: Position| a.in_bounds() && b.in_bounds()
                        ==> ((#[trigger] es.spec_blocked(a, b)) <==> crate::edges::walls_block(state.walls@, a, b)),
                decreases 8 - row,
            {
                let mut col: i32 = 0;
                while col < 8
                    invariant
                        state.wf(),
                        es.wf(),
                        0 <= row < 8,
                        0 <= col <= 8,
                        forall|i: int| 0 <= i < cands@.len()
                            ==> spec_can_place((#[trigger] cands@[i]).1, state.walls@, state.positions),
                        forall|i: int| 0 <= i < cands@.len()
                            ==> (#[trigger] cands@[i]).0 as int == spec_wall_value(*state, cands@[i].1, player)
                                && cands@[i].0 > WALL_SCORE_CUTOFF,
                        oi < 2,
                        or_idx(orientation) == oi as int,
                        forall|w: Wall| wall_in_bounds(w) && enum_before(w, oi as int, row as int, col as int)
                            && #[trigger] spec_can_place(w, state.walls@, state.positions)
                            && spec_wall_value(*state, w, player) > WALL_SCORE_CUTOFF as int
                            ==> cand_listed(cands@, w),
                        forall|a: Position, b: Position| a.in_bounds() && b.in_bounds()
                            ==> ((#[trigger] es.spec_blocked(a, b)) <==> crate::edges::walls_block(state.walls@, a, b)),
                    decreases 8 - col,
                {
                    let wall = Wall { row, col, orientation };
                    let ghost cpre = cands@;
                    let placeable = can_place_wall(&wall, &state.walls, state.positions);
                    if placeable {
                        let value = wall_value(state, &wall, player, &es);
                        if value > WALL_SCORE_CUTOFF {
                            cands.push((value, wall));
                        }
                    }
                    proof {
                        assert forall|w: Wall| wall_in_bounds(w)
                            && enum_before(w, oi as int, row as int, col as int + 1)
                            && #[trigger] spec_can_place(w, state.walls@, state.positions)
                            && spec_wall_value(*state, w, player) > WALL_SCORE_CUTOFF as int
                            implies cand_listed(cands@, w) by {
                            if enum_before(w, oi as int, row as int, col as int) {
                                let u = choose|u: int| 0 <= u < cpre.len() && (#[trigger] cpre[u]).1 == w;
                                assert(cands@[u].1 == w);
                            } else {
                                assert(or_idx(w.orientation) == oi as int
                                    && w.row == row && w.col == col);
                                assert(w.orientation == orientation);
                                assert(w == wall);
                                assert(cands@[cpre.len() as int].1 == wall);
                            }
                        }
                    }
                    col = col + 1;
                }
                proof {
                    assert forall|w: Wall| wall_in_bounds(w)
                        && enum_before(w, oi as int, row as int + 1, 0)
                        && #[trigger] spec_can_place(w, state.walls@, state.positions)
                        && spec_wall_value(*state, w, player) > WALL_SCORE_CUTOFF as int
                        implies cand_listed(cands@, w) by {
                        assert(enum_before(w, oi as int, row as int, 8));
                    }
                }
                row = row + 1;
            }
            proof {
                assert forall|w: Wall| wall_in_bounds(w)
                    && enum_before(w, oi as int + 1, 0, 0)
                    && #[trigger] spec_can_place(w, state.walls@, state.positions)
                    && spec_wall_value(*state, w, player) > WALL_SCORE_CUTOFF as int
                    implies cand_listed(cands@, w) by {
                    assert(enum_before(w, oi as int, 8, 0));
                }
            }
            oi = oi + 1;
        }
        proof {
            assert forall|w: Wall| #[trigger] spec_can_place(w, state.walls@, state.positions)
                && spec_wall_value(*state, w, player) > WALL_SCORE_CUTOFF as int
                implies cand_listed(cands@, w) by {
                assert(wall_in_bounds(w));
                assert(enum_before(w, 2, 0, 0));
            }
        }
        let ghost pre_sort = cands@;
        sort_candidates_desc(&mut cands);
        proof {
            assert forall|i: int| 0 <= i < cands@.len()
                implies spec_can_place((#[trigger] cands@[i]).1, state.walls@, state.positions)
                    && cands@[i].0 as int == spec_wall_value(*state, cands@[i].1, player)
                    && cands@[i].0 > WALL_SCORE_CUTOFF by {
                assert(cands@.contains(cands@[i]));
                assert(pre_sort.contains(cands@[i]));
                let j = choose|j: int| 0 <= j < pre_sort.len() && pre_sort[j] == cands@[i];
                assert(spec_can_place(pre_sort[j].1, state.walls@, state.positions));
                assert(pre_sort[j].0 as int == spec_wall_value(*state, pre_sort[j].1, player));
            }
            assert forall|w: Wall| #[trigger] spec_can_place(w, state.walls@, state.positions)
                && spec_wall_value(*state, w, player) > WALL_SCORE_CUTOFF as int
                implies cand_listed(cands@, w) by {
                assert(cand_listed(pre_sort, w));
                let u = choose|u: int| 0 <= u < pre_sort.len() && (#[trigger] pre_sort[u]).1 == w;
                assert(pre_sort.contains(pre_sort[u]));
                assert(cands@.contains(pre_sort[u]));
                let u2 = choose|u2: int| 0 <= u2 < cands@.len() && cands@[u2] == pre_sort[u];
                assert(cands@[u2].1 == w);
            }
        }
        let cap: usize = if depth > 2 { WALL_CAP_DEEP } else { WALL_CAP_SHALLOW };
        let mut t: usize = 0;
        while t < cands.len() && t < cap
            invariant
                t <= cands@.len(),
                t <= cap,
                forall|i: int| 0 <= i < cands@.len()
                    ==> spec_can_place((#[trigger] cands@[i]).1, state.walls@, state.positions),
                forall|i: int| 0 <= i < cands@.len()
                    ==> (#[trigger] cands@[i]).0 as int == spec_wall_value(*state, cands@[i].1, player)
                        && cands@[i].0 > WALL_SCORE_CUTOFF,
                forall|i: int, j: int| 0 <= i < j < cands@.len()
                    ==> (#[trigger] cands@[i]).0 >= (#[trigger] cands@[j]).0,
                forall|w: Wall| #[trigger] spec_can_place(w, state.walls@, state.positions)
                    && spec_wall_value(*state, w, player) > WALL_SCORE_CUTOFF as int
                    ==> cand_listed(cands@, w),
                state.spec_walls_left(player) > 0,
                moves@.len() == np + t,
                forall|j: int| 0 <= j < np ==> #[trigger] moves@[j] == MoveChoice::Pawn(pawn_moves@[j]),
                forall|u: int| 0 <= u < t ==> #[trigger] moves@[np + u] == MoveChoice::Wall(cands@[u].1),
                wall_count(moves@) == t,
                forall|i: int| 0 <= i < moves@.len() ==> legal_choice(#[trigger] moves@[i], *state, player),
                forall|p: Position| is_valid_pawn_move(
                    state.spec_for_player(player),
                    state.spec_for_player(player.spec_opponent()),
                    walls_rel(state.walls@),
                    p,
                ) ==> #[trigger] moves@.contains(MoveChoice::Pawn(p)),
            decreases cands@.len() - t,
        {
            let ghost before = moves@;
            proof {
                lemma_wall_count_push(moves@, MoveChoice::Wall(cands@[t as int].1));
            }
            moves.push(MoveChoice::Wall(cands[t].1));
            proof {
                assert forall|p: Position| before.contains(MoveChoice::Pawn(p))
                    implies #[trigger] moves@.contains(MoveChoice::Pawn(p)) by {
                    let i = choose|i: int| 0 <= i < before.len() && before[i] == MoveChoice::Pawn(p);
                    assert(moves@[i] == MoveChoice::Pawn(p));
                }
            }
            t = t + 1;
        }
        proof {
            assert forall|i: int, j: int| 0 <= i < j < moves@.len() && (#[trigger] moves@[i]) is Wall
                implies (#[trigger] moves@[j]) is Wall by {
                if i < np {
                    assert(moves@[i] == MoveChoice::Pawn(pawn_moves@[i]));
                }
                assert(moves@[np + (j - np)] == MoveChoice::Wall(cands@[j - np].1));
            }
            assert forall|i: int, j: int| 0 <= i < j < moves@.len()
                && (#[trigger] moves@[i]) is Pawn && (#[trigger] moves@[j]) is Pawn
                implies pos_lt(moves@[i]->Pawn_0, moves@[j]->Pawn_0) by {
                assert(j < np) by {
                    if j >= np {
                        assert(moves@[np + (j - np)] == MoveChoice::Wall(cands@[j - np].1));
                    }
                }
                assert(moves@[i] == MoveChoice::Pawn(pawn_moves@[i]));
                assert(moves@[j] == MoveChoice::Pawn(pawn_moves@[j]));
            }
            assert forall|i: int| 0 <= i < moves@.len() && (#[trigger] moves@[i]) is Wall
                implies spec_wall_value(*state, moves@[i]->Wall_0, player) > WALL_SCORE_CUTOFF as int by {
                assert(np <= i) by {
                    if i < np {
                        assert(moves@[i] == MoveChoice::Pawn(pawn_moves@[i]));
                    }
                }
                assert(moves@[np + (i - np)] == MoveChoice::Wall(cands@[i - np].1));
            }
            assert forall|i: int, j: int| 0 <= i < j < moves@.len()
                && (#[trigger] moves@[i]) is Wall && (#[trigger] moves@[j]) is Wall
                implies spec_wall_value(*state, moves@[i]->Wall_0, player)
                    >= spec_wall_value(*state, moves@[j]->Wall_0, player) by {
                assert(np <= i) by {
                    if i < np {
                        assert(moves@[i] == MoveChoice::Pawn(pawn_moves@[i]));
                    }
                }
                assert(moves@[np + (i - np)] == MoveChoice::Wall(cands@[i - np].1));
                assert(moves@[np + (j - np)] == MoveChoice::Wall(cands@[j - np].1));
                assert(cands@[i - np].0 >= cands@[j - np].0);
            }
            if wall_count(moves@) < cap as int {
                assert forall|w: Wall| spec_can_place(w, state.walls@, state.positions)
                    && spec_wall_value(*state, w, player) > WALL_SCORE_CUTOFF as int
                    implies #[trigger] moves_has_wall(moves@, w) by {
                    assert(cand_listed(cands@, w));
                    let u = choose|u: int| 0 <= u < cands@.len() && (#[trigger] cands@[u]).1 == w;
                    assert(t as int == cands@.len());
                    assert(moves@[np + u] == MoveChoice::Wall(cands@[u].1));
                }
            }
            assert forall|w: Wall| spec_can_place(w, state.walls@, state.positions)
                && spec_wall_value(*state, w, player) > WALL_SCORE_CUTOFF as int
                && !(#[trigger] moves_has_wall(moves@, w))
                implies (forall|j: int| 0 <= j < moves@.len() && (#[trigger] moves@[j]) is Wall
                    ==> spec_wall_value(*state, w, player)
                        <= spec_wall_value(*state, moves@[j]->Wall_0, player)) by {
                assert(cand_listed(cands@, w));
                let u = choose|u: int| 0 <= u < cands@.len() && (#[trigger] cands@[u]).1 == w;
                assert(t <= u) by {
                    if u < t {
                        assert(moves@[np + u] == MoveChoice::Wall(cands@[u].1));
                        assert(moves_has_wall(moves@, w));
                    }
                }
                assert forall|j: int| 0 <= j < moves@.len() && (#[trigger] moves@[j]) is Wall
                    implies spec_wall_value(*state, w, player)
                        <= spec_wall_value(*state, moves@[j]->Wall_0, player) by {
                    assert(np <= j) by {
                        if j < np {
                            assert(moves@[j] == MoveChoice::Pawn(pawn_moves@[j]));
                        }
                    }
                    assert(moves@[np + (j - np)] == MoveChoice::Wall(cands@[j - np].1));
                    assert(cands@[j - np].0 >= cands@[u].0);
                    assert(cands@[u].0 as int == spec_wall_value(*state, w, player));
                    assert(cands@[j - np].0 as int
                        == spec_wall_value(*state, cands@[j - np].1, player));
                }
            }
        }
    } else {
        proof {
            assert forall|i: int| 0 <= i < moves@.len() implies (#[trigger] moves@[i]) is Pawn by {
                assert(moves@[i] == MoveChoice::Pawn(pawn_moves@[i]));
            }
        }
    }
    moves
}

/// Applies a move for `player` to a copy of the state: a token move simply
/// relocates the token; a wall move re-checks legality, appends the wall,
/// and spends a segment, or yields nothing when the placement is illegal.
pub fn apply_move(state: &GameState, player: Player, mv: &MoveChoice) -> (r: Option<GameState>)
    requires
        state.wf(),
        mv matches MoveChoice::Pawn(p) ==> p.in_bounds(),
    ensures
        match *mv {
            MoveChoice::Pawn(p) => r matches Some(ns)
                && ns.positions == (match player {
                    Player::North => Positions { north: p, ..state.positions },
                    Player::South => Positions { south: p, ..state.positions },
                })
                && ns.walls@ == state.walls@
                && ns.walls_remaining == state.walls_remaining
                && ns.wf(),
            MoveChoice::Wall(w) => if spec_can_place(w, state.walls@, state.positions) {
                r matches Some(ns)
                    && ns.positions == state.positions
                    && ns.walls@ == state.walls@.push(w)
                    && ns.walls_remaining == spec_after_wall_spend(state.walls_remaining, player)
                    && ns.wf()
            } else {
                r is None
            },
        },
{
    let mut next_state = state.duplicate();
    match mv {
        MoveChoice::Pawn(pos) => {
            next_state.update_position(player, *pos);
            Some(next_state)
        },
        MoveChoice::Wall(wall) => {
            if !can_place_wall(wall, &state.walls, state.positions) {
                return None;
            }
            next_state.walls.push(*wall);
            next_state.decrement_wall(player);
            Some(next_state)
        },
    }
}

/// Minimax over the generated moves, the south side maximising, with
/// alpha-beta pruning.  Any move returned is legal for the side to move,
/// and a returned wall scores above the cutoff; a leaf (zero depth or a
/// finished game) returns exactly the static evaluation and no move; at
/// one remaining ply the returned score is exactly the returned move's
/// successor evaluation; and at one or two plies a move is returned
/// whenever the generator has any to offer.
pub fn minimax(state: &GameState, depth: i32, alpha: i64, beta: i64, player: Player) -> (r: (i64, Option<MoveChoice>))
    requires
        state.wf(),
        depth >= 0,
    ensures
        r.1 matches Some(mv) ==> legal_choice(mv, *state, player),
        r.1 matches Some(MoveChoice::Wall(w))
            ==> spec_wall_value(*state, w, player) > WALL_SCORE_CUTOFF as int,
        depth == 0 || spec_is_terminal(*state)
            ==> r.1 is None && r.0 as int == spec_state_eval(*state) && -3000000 < r.0 < 3000000,
        depth == 1 && player == Player::North ==> r.0 > i64::MIN,
        depth == 1 && player == Player::South ==> r.0 < i64::MAX,
        1 <= depth <= 2 && !spec_is_terminal(*state) && has_candidate_move(*state, player)
            ==> r.1 is Some,
        depth == 1 && !spec_is_terminal(*state) ==> match r.1 {
            Option::Some(MoveChoice::Pawn(p)) => r.0 as int == spec_eval_after_pawn(*state, p, player),
            Option::Some(MoveChoice::Wall(w)) => r.0 as int == spec_eval_after_wall(*state, w, player),
            Option::None => (player == Player::South ==> r.0 == i64::MIN)
                && (player == Player::North ==> r.0 == i64::MAX),
        },
    decreases depth,
{
    if depth == 0 || is_terminal(state) {
        return (evaluate(state), None);
    }

    let moves = generate_moves(state, player, depth);
    proof {
        if has_candidate_move(*state, player) {
            if exists|p: Position| is_valid_pawn_move(
                state.spec_for_player(player),
                state.spec_for_player(player.spec_opponent()),
                walls_rel(state.walls@),
                p,
            ) {
                let p = choose|p: Position| is_valid_pawn_move(
                    state.spec_for_player(player),
                    state.spec_for_player(player.spec_opponent()),
                    walls_rel(state.walls@),
                    p,
                );
                assert(moves@.contains(MoveChoice::Pawn(p)));
            } else {
                let w = choose|w: Wall| spec_can_place(w, state.walls@, state.positions)
                    && spec_wall_value(*state, w, player) > WALL_SCORE_CUTOFF as int;
                if wall_count(moves@) < (if depth > 2 { 12int } else { 8int }) {
                    assert(moves_has_wall(moves@, w));
                    let i = choose|i: int| 0 <= i < moves@.len()
                        && moves@[i] == MoveChoice::Wall(w);
                } else {
                    assert(moves@.len() > 0) by {
                        if moves@.len() == 0 {
                            assert(wall_count(moves@) == 0);
                        }
                    }
                }
            }
            assert(moves@.len() > 0);
        }
    }
    let mut best_move: Option<MoveChoice> = None;
    if player == Player::South {
        let mut best_score: i64 = i64::MIN;
        let mut alpha = alpha;
        let mut idx: usize = 0;
        while idx < moves.len()
            invariant
                state.wf(),
                depth >= 1,
                idx <= moves@.len(),
                forall|i: int| 0 <= i < moves@.len()
                    ==> legal_choice(#[trigger] moves@[i], *state, Player::South),
                forall|i: int| 0 <= i < moves@.len() && (#[trigger] moves@[i]) is Wall
                    ==> spec_wall_value(*state, moves@[i]->Wall_0, Player::South)
                        > WALL_SCORE_CUTOFF as int,
                best_move matches Some(mv) ==> legal_choice(mv, *state, Player::South),
                best_move matches Some(MoveChoice::Wall(w))
                    ==> spec_wall_value(*state, w, Player::South) > WALL_SCORE_CUTOFF as int,
                best_move is None ==> best_score == i64::MIN,
                depth == 1 ==> best_score < i64::MAX,
                1 <= depth <= 2 && moves@.len() > 0 && idx > 0 ==> best_move is Some,
                depth == 1 ==> match best_move {
                    Option::Some(MoveChoice::Pawn(p)) => best_score as int == spec_eval_after_pawn(*state, p, Player::South),
                    Option::Some(MoveChoice::Wall(w)) => best_score as int == spec_eval_after_wall(*state, w, Player::South),
                    Option::None => best_score == i64::MIN,
                },
            ensures
                best_move matches Some(mv) ==> legal_choice(mv, *state, Player::South),
                best_move matches Some(MoveChoice::Wall(w))
                    ==> spec_wall_value(*state, w, Player::South) > WALL_SCORE_CUTOFF as int,
                best_move is None ==> best_score == i64::MIN,
                depth == 1 ==> best_score < i64::MAX,
                1 <= depth <= 2 && moves@.len() > 0 ==> best_move is Some,
                depth == 1 ==> match best_move {
                    Option::Some(MoveChoice::Pawn(p)) => best_score as int == spec_eval_after_pawn(*state, p, Player::South),
                    Option::Some(MoveChoice::Wall(w)) => best_score as int == spec_eval_after_wall(*state, w, Player::South),
                    Option::None => best_score == i64::MIN,
                },
            decreases moves@.len() - idx,
        {
            let mv = moves[idx];
            proof {
                assert(legal_choice(moves@[idx as int], *state, Player::South));
                if moves@[idx as int] is Wall {
                    assert(spec_wall_value(*state, moves@[idx as int]->Wall_0, Player::South)
                        > WALL_SCORE_CUTOFF as int);
                }
                match mv {
                    MoveChoice::Pawn(p) => lemma_valid_move_in_bounds(
                        state.spec_for_player(Player::South),
                        state.spec_for_player(Player::North),
                        walls_rel(state.walls@),
                        p,
                    ),
                    MoveChoice::Wall(_) => {},
                }
            }
            if let Some(next_state) = apply_move(state, Player::South, &mv) {
                let sub = minimax(&next_state, depth - 1, alpha, beta, Player::North);
                let score = sub.0;
                proof {
                    if depth == 1 {
                        match mv {
                            MoveChoice::Pawn(p) => {
                                lemma_state_eval_parts(
                                    next_state,
                                    GameState {
                                        positions: Positions { south: p, ..state.positions },
                                        ..*state
                                    },
                                );
                                assert(score as int == spec_eval_after_pawn(*state, p, Player::South));
                            },
                            MoveChoice::Wall(w) => {
                                lemma_state_eval_after_wall(next_state, *state, w, Player::South);
                                assert(score as int == spec_eval_after_wall(*state, w, Player::South));
                            },
                        }
                    }
                }
                if score > best_score {
                    best_score = score;
                    best_move = Some(mv);
                }
                if best_score > alpha {
                    alpha = best_score;
                }
                if beta <= alpha {
                    proof {
                        if 1 <= depth && depth <= 2 {
                            assert(best_move is Some);
                        }
                    }
                    break;
                }
            }
            idx = idx + 1;
        }
        (best_score, best_move)
    } else {
        let mut best_score: i64 = i64::MAX;
        let mut beta = beta;
        let mut idx: usize = 0;
        while idx < moves.len()
            invariant
                state.wf(),
                depth >= 1,
                idx <= moves@.len(),
                forall|i: int| 0 <= i < moves@.len()
                    ==> legal_choice(#[trigger] moves@[i], *state, Player::North),
                forall|i: int| 0 <= i < moves@.len() && (#[trigger] moves@[i]) is Wall
                    ==> spec_wall_value(*state, moves@[i]->Wall_0, Player::North)
                        > WALL_SCORE_CUTOFF as int,
                best_move matches Some(mv) ==> legal_choice(mv, *state, Player::North),
                best_move matches Some(MoveChoice::Wall(w))
                    ==> spec_wall_value(*state, w, Player::North) > WALL_SCORE_CUTOFF as int,
                best_move is None ==> best_score == i64::MAX,
                depth == 1 ==> best_score > i64::MIN,
                1 <= depth <= 2 && moves@.len() > 0 && idx > 0 ==> best_move is Some,
                depth == 1 ==> match best_move {
                    Option::Some(MoveChoice::Pawn(p)) => best_score as int == spec_eval_after_pawn(*state, p, Player::North),
                    Option::Some(MoveChoice::Wall(w)) => best_score as int == spec_eval_after_wall(*state, w, Player::North),
                    Option::None => best_score == i64::MAX,
                },
            ensures
                best_move matches Some(mv) ==> legal_choice(mv, *state, Player::North),
                best_move matches Some(MoveChoice::Wall(w))
                    ==> spec_wall_value(*state, w, Player::North) > WALL_SCORE_CUTOFF as int,
                best_move is None ==> best_score == i64::MAX,
                depth == 1 ==> best_score > i64::MIN,
                1 <= depth <= 2 && moves@.len() > 0 ==> best_move is Some,
                depth == 1 ==> match best_move {
                    Option::Some(MoveChoice::Pawn(p)) => best_score as int == spec_eval_after_pawn(*state, p, Player::North),
                    Option::Some(MoveChoice::Wall(w)) => best_score as int == spec_eval_after_wall(*state, w, Player::North),
                    Option::None => best_score == i64::MAX,
                },
            decreases moves@.len() - idx,
        {
            let mv = moves[idx];
            proof {
                assert(legal_choice(moves@[idx as int], *state, Player::North));
                if moves@[idx as int] is Wall {
                    assert(spec_wall_value(*state, moves@[idx as int]->Wall_0, Player::North)
                        > WALL_SCORE_CUTOFF as int);
                }
                match mv {
                    MoveChoice::Pawn(p) => lemma_valid_move_in_bounds(
                        state.spec_for_player(Player::North),
                        state.spec_for_player(Player::South),
                        walls_rel(state.walls@),
                        p,
                    ),
                    MoveChoice::Wall(_) => {},
                }
            }
            if let Some(next_state) = apply_move(state, Player::North, &mv) {
                let sub = minimax(&next_state, depth - 1, alpha, beta, Player::South);
                let score = sub.0;
                proof {
                    if depth == 1 {
                        match mv {
                            MoveChoice::Pawn(p) => {
                                lemma_state_eval_parts(
                                    next_state,
                                    GameState {
                                        positions: Positions { north: p, ..state.positions },
                                        ..*state
                                    },
                                );
                                assert(score as int == spec_eval_after_pawn(*state, p, Player::North));
                            },
                            MoveChoice::Wall(w) => {
                                lemma_state_eval_after_wall(next_state, *state, w, Player::North);
                                assert(score as int == spec_eval_after_wall(*state, w, Player::North));
                            },
                        }
                    }
                }
                if score < best_score {
                    best_score = score;
                    best_move = Some(mv);
                }
                if best_score < beta {
                    beta = best_score;
                }
                if beta <= alpha {
                    proof {
                        if 1 <= depth && depth <= 2 {
                            assert(best_move is Some);
                        }
                    }
                    break;
                }
            }
            idx = idx + 1;
        }
        (best_score, best_move)
    }
}

/// Runs the search for the south side, three plies deep when its wall
/// supply exceeds the threshold and two otherwise.  A finished game is
/// answered with its evaluation and no move; in the two-ply regime a move
/// is returned whenever the generator has any to offer.
pub fn search_best_move(state: &GameState) -> (r: (Option<MoveChoice>, i64))
    requires
        state.wf(),
    ensures
        r.0 matches Some(mv) ==> legal_choice(mv, *state, Player::South),
        r.0 matches Some(MoveChoice::Wall(w))
            ==> spec_wall_value(*state, w, Player::South) > WALL_SCORE_CUTOFF as int,
        spec_is_terminal(*state)
            ==> r.0 is None && r.1 as int == spec_state_eval(*state),
        !spec_is_terminal(*state) && state.walls_remaining.south <= DEPTH_WALL_THRESHOLD
            && has_candidate_move(*state, Player::South) ==> r.0 is Some,
{
    let depth: i32 = if state.walls_remaining.south > DEPTH_WALL_THRESHOLD { 3 } else { 2 };
    let sub = minimax(state, depth, i64::MIN, i64::MAX, Player::South);
    (sub.1, sub.0)
}

/// The safe default when the search returns no move: among the south
/// side's own token moves, the one closest to its goal row (preferring the
/// last such in row-major order), or the current position when it has no
/// move at all.
pub fn fallback_move(current: Position, state: &GameState) -> (r: Position)
    requires
        state.wf(),
        current.in_bounds(),
    ensures
        r == current || is_valid_pawn_move(current, state.positions.north, walls_rel(state.walls@), r),
        forall|p: Position| is_valid_pawn_move(current, state.positions.north, walls_rel(state.walls@), p)
            ==> r != current && r.row <= p.row,
        forall|p: Position| is_valid_pawn_move(current, state.positions.north, walls_rel(state.walls@), p)
            && p.row == r.row ==> p.col <= r.col,
{
    let es = build_blocked_edges(&state.walls);
    proof {
        assert forall|p: Position|
            is_valid_pawn_move(current, state.positions.north, es.rel(), p)
            == is_valid_pawn_move(current, state.positions.north, walls_rel(state.walls@), p) by {
            lemma_valid_move_congruence(current, state.positions.north, es.rel(), walls_rel(state.walls@), p);
        }
    }
    let pawn_moves = get_valid_pawn_moves(current, state.positions.north, &es);
    if pawn_moves.len() == 0 {
        proof {
            assert forall|p: Position|
                !is_valid_pawn_move(current, state.positions.north, walls_rel(state.walls@), p) by {
                if pawn_moves@.contains(p) {
                    let i = choose|i: int| 0 <= i < pawn_moves@.len() && pawn_moves@[i] == p;
                }
            }
        }
        return current;
    }
    let mut best = pawn_moves[0];
    let mut k: usize = 1;
    while k < pawn_moves.len()
        invariant
            1 <= k <= pawn_moves@.len(),
            pawn_moves@.len() >= 1,
            pawn_moves@.contains(best),
            crate::moves::sorted_distinct(pawn_moves@),
            forall|i: int| 0 <= i < k ==> best.row <= (#[trigger] pawn_moves@[i]).row,
            forall|i: int| 0 <= i < k ==> ((#[trigger] pawn_moves@[i]).row == best.row
                ==> pawn_moves@[i].col <= best.col),
        decreases pawn_moves@.len() - k,
    {
        let m = pawn_moves[k];
        if m.row <= best.row {
            proof {
                assert forall|i: int| 0 <= i < k && (#[trigger] pawn_moves@[i]).row == m.row
                    implies pawn_moves@[i].col <= m.col by {
                    assert(crate::moves::pos_lt(pawn_moves@[i], pawn_moves@[k as int]));
                }
            }
            best = m;
        }
        k = k + 1;
    }
    proof {
        assert(is_valid_pawn_move(current, state.positions.north, es.rel(), best));
        lemma_valid_move_in_bounds(current, state.positions.north, es.rel(), best);
        assert(best != current) by {
            assert(is_valid_pawn_move(current, state.positions.north, es.rel(), best));
        }
        assert forall|p: Position|
            is_valid_pawn_move(current, state.positions.north, walls_rel(state.walls@), p)
            implies best.row <= p.row by {
            assert(pawn_moves@.contains(p));
            let i = choose|i: int| 0 <= i < pawn_moves@.len() && pawn_moves@[i] == p;
        }
        assert forall|p: Position|
            is_valid_pawn_move(current, state.positions.north, walls_rel(state.walls@), p)
            && p.row == best.row implies p.col <= best.col by {
            assert(pawn_moves@.contains(p));
            let i = choose|i: int| 0 <= i < pawn_moves@.len() && pawn_moves@[i] == p;
        }
    }
    best
}

/// Turns a parsed input record, or the absence of one, into the engine's
/// decision.  A missing record yields the fixed default move; a state whose
/// south side holds no wall never yields a wall; any wall returned is a
/// legal placement; and any token move returned is a legal move, falling
/// back to standing still only when the south side has no legal move at
/// all.
pub fn best_move_output(parsed: Option<GameStateInput>) -> (r: BestMoveOutput)
    requires
        parsed matches Some(inp) ==> inp.wf(),
    ensures
        parsed is None ==> r == (BestMoveOutput::Move { data: Position { row: 7, col: 4 } }),
        parsed matches Some(inp) ==> match r {
            BestMoveOutput::Wall { data: w } => spec_can_place(w, inp.walls@, inp.positions)
                && inp.walls_remaining.south > 0
                && spec_wall_value(
                    GameState {
                        positions: inp.positions,
                        walls: inp.walls,
                        walls_remaining: inp.walls_remaining,
                    },
                    w,
                    Player::South,
                ) > WALL_SCORE_CUTOFF as int,
            BestMoveOutput::Move { data: p } => is_valid_pawn_move(inp.positions.south, inp.positions.north, walls_rel(inp.walls@), p)
                || (p == inp.positions.south
                    && (forall|q: Position| !is_valid_pawn_move(inp.positions.south, inp.positions.north, walls_rel(inp.walls@), q))),
        },
        parsed matches Some(inp) && inp.walls_remaining.south == 0 ==> r is Move,
        parsed matches Some(inp)
            ==> ((inp.positions.south.row == GOAL_SOUTH || inp.positions.north.row == GOAL_NORTH)
            ==> (r matches BestMoveOutput::Move { data: p }
                && (p == inp.positions.south
                    || is_valid_pawn_move(inp.positions.south, inp.positions.north, walls_rel(inp.walls@), p))
                && (forall|q: Position|
                    is_valid_pawn_move(inp.positions.south, inp.positions.north, walls_rel(inp.walls@), q)
                    ==> p.row <= q.row)
                && (forall|q: Position|
                    is_valid_pawn_move(inp.positions.south, inp.positions.north, walls_rel(inp.walls@), q)
                    && q.row == p.row ==> q.col <= p.col))),
{
    match parsed {
        Option::None => BestMoveOutput::Move { data: Position { row: 7, col: 4 } },
        Option::Some(inp) => {
            let state = inp.into_state();
            let sub = search_best_move(&state);
            match sub.0 {
                Option::Some(MoveChoice::Pawn(p)) => BestMoveOutput::Move { data: p },
                Option::Some(MoveChoice::Wall(w)) => BestMoveOutput::Wall { data: w },
                Option::None => BestMoveOutput::Move {
                    data: fallback_move(state.positions.south, &state),
                },
            }
        },
    }
}

} // verus!
