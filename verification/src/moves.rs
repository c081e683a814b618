//! Legal token moves: plain steps, straight jumps over the opponent, and
//! the diagonal moves allowed when the straight jump is blocked.

use vstd::prelude::*;
use crate::board::Position;
use crate::edges::EdgeSet;
use crate::paths::lemma_push_contains;

verus! {

/// The cell one step of `(dr, dc)` away from `p`, for small offsets.
pub open spec fn shifted(p: Position, dr: int, dc: int) -> Position {
    Position { row: (p.row + dr) as i32, col: (p.col + dc) as i32 }
}

/// True for the four axis-aligned unit offsets.
pub open spec fn is_delta(dr: int, dc: int) -> bool {
    ||| (dr == -1 && dc == 0)
    ||| (dr == 1 && dc == 0)
    ||| (dr == 0 && dc == -1)
    ||| (dr == 0 && dc == 1)
}

/// True when `p` is one of the two cells beside `adj` perpendicular to the
/// direction `(dr, dc)`.
pub open spec fn diag_of(adj: Position, dr: int, dc: int, p: Position) -> bool {
    if dc == 0 {
        p == shifted(adj, 0, -1) || p == shifted(adj, 0, 1)
    } else {
        p == shifted(adj, -1, 0) || p == shifted(adj, 1, 0)
    }
}

/// True when moving in direction `(dr, dc)` from `cur` can land on `p`:
/// the adjacent cell must be on the board and not walled off; an empty
/// adjacent cell is entered directly; the opponent's cell is leapt over
/// straight when the cell beyond is free, else sidestepped diagonally past
/// any unblocked perpendicular neighbour of the opponent.
pub open spec fn dir_move_ok(cur: Position, opp: Position, blocked: spec_fn(Position, Position) -> bool, dr: int, dc: int, p: Position) -> bool {
    let adj = shifted(cur, dr, dc);
    &&& adj.in_bounds()
    &&& !blocked(cur, adj)
    &&& if adj == opp {
        let jump = shifted(adj, dr, dc);
        if jump.in_bounds() && !blocked(adj, jump) {
            p == jump
        } else {
            &&& p.in_bounds()
            &&& !blocked(adj, p)
            &&& diag_of(adj, dr, dc, p)
        }
    } else {
        p == adj
    }
}

/// True when `p` is a legal token move for a token at `cur` facing an
/// opponent at `opp` under the given blocking relation.
pub open spec fn is_valid_pawn_move(cur: Position, opp: Position, blocked: spec_fn(Position, Position) -> bool, p: Position) -> bool {
    ||| dir_move_ok(cur, opp, blocked, -1, 0, p)
    ||| dir_move_ok(cur, opp, blocked, 1, 0, p)
    ||| dir_move_ok(cur, opp, blocked, 0, -1, p)
    ||| dir_move_ok(cur, opp, blocked, 0, 1, p)
}

/// The set of all legal token moves from `cur`.
pub open spec fn valid_move_set(cur: Position, opp: Position, blocked: spec_fn(Position, Position) -> bool) -> Set<Position> {
    Set::new(|p: Position| is_valid_pawn_move(cur, opp, blocked, p))
}

/// The pawn-move step relation against a fixed opponent, as a function
/// value for path specifications.
pub open spec fn move_step(opp: Position, blocked: spec_fn(Position, Position) -> bool) -> spec_fn(Position, Position) -> bool {
    |a: Position, b: Position| is_valid_pawn_move(a, opp, blocked, b)
}

/// A legal move always lands on the board.
pub proof fn lemma_valid_move_in_bounds(cur: Position, opp: Position, blocked: spec_fn(Position, Position) -> bool, p: Position)
    requires
        is_valid_pawn_move(cur, opp, blocked, p),
    ensures
        p.in_bounds(),
{
}

/// With the opponent directly adjacent in direction `(dr, dc)` and the
/// straight jump beyond it free and unblocked, the straight jump is a
/// legal move and neither perpendicular diagonal beside the opponent is.
pub proof fn lemma_jump_straight(cur: Position, opp: Position, blocked: spec_fn(Position, Position) -> bool, dr: int, dc: int)
    requires
        cur.in_bounds(),
        is_delta(dr, dc),
        opp == shifted(cur, dr, dc),
        opp.in_bounds(),
        !blocked(cur, opp),
        shifted(opp, dr, dc).in_bounds(),
        !blocked(opp, shifted(opp, dr, dc)),
    ensures
        is_valid_pawn_move(cur, opp, blocked, shifted(opp, dr, dc)),
        forall|p: Position| diag_of(opp, dr, dc, p) ==> !is_valid_pawn_move(cur, opp, blocked, p),
{
    assert(dir_move_ok(cur, opp, blocked, dr, dc, shifted(opp, dr, dc)));
    assert forall|p: Position| diag_of(opp, dr, dc, p)
        implies !is_valid_pawn_move(cur, opp, blocked, p) by {
        assert(!dir_move_ok(cur, opp, blocked, -1, 0, p));
        assert(!dir_move_ok(cur, opp, blocked, 1, 0, p));
        assert(!dir_move_ok(cur, opp, blocked, 0, -1, p));
        assert(!dir_move_ok(cur, opp, blocked, 0, 1, p));
    }
}

/// With the opponent directly adjacent in direction `(dr, dc)` and the
/// straight jump beyond it off the board or blocked, exactly the
/// perpendicular diagonals beside the opponent that are on the board and
/// unblocked from it are legal moves, and the straight jump is not.
pub proof fn lemma_jump_diagonal(cur: Position, opp: Position, blocked: spec_fn(Position, Position) -> bool, dr: int, dc: int)
    requires
        cur.in_bounds(),
        is_delta(dr, dc),
        opp == shifted(cur, dr, dc),
        opp.in_bounds(),
        !blocked(cur, opp),
        !(shifted(opp, dr, dc).in_bounds() && !blocked(opp, shifted(opp, dr, dc))),
    ensures
        !is_valid_pawn_move(cur, opp, blocked, shifted(opp, dr, dc)),
        forall|p: Position| diag_of(opp, dr, dc, p) && p.in_bounds() && !blocked(opp, p)
            ==> is_valid_pawn_move(cur, opp, blocked, p),
        forall|p: Position| diag_of(opp, dr, dc, p) && !(p.in_bounds() && !blocked(opp, p))
            ==> !is_valid_pawn_move(cur, opp, blocked, p),
{
    let jump = shifted(opp, dr, dc);
    assert(!is_valid_pawn_move(cur, opp, blocked, jump)) by {
        assert(!dir_move_ok(cur, opp, blocked, -1, 0, jump));
        assert(!dir_move_ok(cur, opp, blocked, 1, 0, jump));
        assert(!dir_move_ok(cur, opp, blocked, 0, -1, jump));
        assert(!dir_move_ok(cur, opp, blocked, 0, 1, jump));
    }
    assert forall|p: Position| diag_of(opp, dr, dc, p) && p.in_bounds() && !blocked(opp, p)
        implies is_valid_pawn_move(cur, opp, blocked, p) by {
        assert(dir_move_ok(cur, opp, blocked, dr, dc, p));
    }
    assert forall|p: Position| diag_of(opp, dr, dc, p) && !(p.in_bounds() && !blocked(opp, p))
        implies !is_valid_pawn_move(cur, opp, blocked, p) by {
        assert(!dir_move_ok(cur, opp, blocked, -1, 0, p));
        assert(!dir_move_ok(cur, opp, blocked, 1, 0, p));
        assert(!dir_move_ok(cur, opp, blocked, 0, -1, p));
        assert(!dir_move_ok(cur, opp, blocked, 0, 1, p));
    }
}

/// Move legality only reads the blocking relation on cells of the board,
/// so relations that agree there admit the same moves.
pub proof fn lemma_valid_move_congruence(cur: Position, opp: Position, b1: spec_fn(Position, Position) -> bool, b2: spec_fn(Position, Position) -> bool, p: Position)
    requires
        cur.in_bounds(),
        forall|a: Position, b: Position| a.in_bounds() && b.in_bounds()
            ==> (#[trigger] b1(a, b)) == b2(a, b),
    ensures
        is_valid_pawn_move(cur, opp, b1, p) == is_valid_pawn_move(cur, opp, b2, p),
{
    assert(dir_move_ok(cur, opp, b1, -1, 0, p) == dir_move_ok(cur, opp, b2, -1, 0, p));
    assert(dir_move_ok(cur, opp, b1, 1, 0, p) == dir_move_ok(cur, opp, b2, 1, 0, p));
    assert(dir_move_ok(cur, opp, b1, 0, -1, p) == dir_move_ok(cur, opp, b2, 0, -1, p));
    assert(dir_move_ok(cur, opp, b1, 0, 1, p) == dir_move_ok(cur, opp, b2, 0, 1, p));
}

/// Strict row-major order on cells.
pub open spec fn pos_lt(a: Position, b: Position) -> bool {
    a.row < b.row || (a.row == b.row && a.col < b.col)
}

/// True when the sequence is strictly increasing in row-major order, and
/// hence free of duplicates.
pub open spec fn sorted_distinct(s: Seq<Position>) -> bool {
    forall|i: int, j: int| 0 <= i < j < s.len() ==> pos_lt(s[i], s[j])
}

/// Strict row-major order as an executable comparison.
fn pos_before(a: Position, b: Position) -> (r: bool)
    ensures
        r == pos_lt(a, b),
{
    a.row < b.row || (a.row == b.row && a.col < b.col)
}

/// Inserts a cell into a strictly sorted list, keeping it sorted and
/// ignoring a cell already present.
fn insert_sorted(v: &mut Vec<Position>, x: Position)
    requires
        sorted_distinct(old(v)@),
        old(v)@.len() < 100,
    ensures
        sorted_distinct(final(v)@),
        forall|p: Position| final(v)@.contains(p) <==> (old(v)@.contains(p) || p == x),
        final(v)@.len() <= old(v)@.len() + 1,
{
    let mut j: usize = 0;
    while j < v.len() && pos_before(v[j], x)
        invariant
            j <= v@.len(),
            v@.len() < 100,
            sorted_distinct(v@),
            forall|k: int| 0 <= k < j ==> pos_lt(#[trigger] v@[k], x),
        decreases v@.len() - j,
    {
        j = j + 1;
    }
    if j < v.len() && v[j].row == x.row && v[j].col == x.col {
        proof {
            assert(v@[j as int] == x);
            assert(v@.contains(x));
        }
        return;
    }
    let ghost oldv = v@;
    v.insert(j, x);
    proof {
        assert(v@ == oldv.insert(j as int, x));
        assert forall|p: Position| v@.contains(p) implies (oldv.contains(p) || p == x) by {
            let i = choose|i: int| 0 <= i < v@.len() && v@[i] == p;
            if i < j {
                assert(oldv[i] == p);
            } else if i > j {
                assert(oldv[i - 1] == p);
            }
        }
        assert forall|p: Position| oldv.contains(p) implies v@.contains(p) by {
            let i = choose|i: int| 0 <= i < oldv.len() && oldv[i] == p;
            if i < j {
                assert(v@[i] == p);
            } else {
                assert(v@[i + 1] == p);
            }
        }
        assert(v@[j as int] == x);
        assert(v@.contains(x));
        assert forall|a: int, b: int| 0 <= a < b < v@.len() implies pos_lt(v@[a], v@[b]) by {
            if j < oldv.len() {
                assert(!pos_lt(oldv[j as int], x));
                assert(!(oldv[j as int] == x));
                assert(pos_lt(x, oldv[j as int]));
            }
            if a < j && b == j {
                assert(v@[a] == oldv[a]);
            } else if a < j && b > j {
                assert(v@[a] == oldv[a] && v@[b] == oldv[b - 1]);
            } else if a == j && b > j {
                assert(v@[b] == oldv[b - 1]);
                if b - 1 > j {
                    assert(pos_lt(oldv[j as int], oldv[b - 1]));
                }
            } else if a > j {
                assert(v@[a] == oldv[a - 1] && v@[b] == oldv[b - 1]);
            }
        }
    }
}

/// Adds to `moves` every landing cell of the direction `(dr, dc)`.
fn push_dir_moves(moves: &mut Vec<Position>, cur: Position, opp: Position, edges: &EdgeSet, dr: i32, dc: i32)
    requires
        cur.in_bounds(),
        edges.wf(),
        is_delta(dr as int, dc as int),
    ensures
        forall|p: Position| #[trigger] final(moves)@.contains(p)
            <==> (old(moves)@.contains(p) || dir_move_ok(cur, opp, edges.rel(), dr as int, dc as int, p)),
        final(moves)@.len() <= old(moves)@.len() + 2,
{
    let adj = Position { row: cur.row + dr, col: cur.col + dc };
    proof {
        assert(adj == shifted(cur, dr as int, dc as int));
    }
    if !(adj.row >= 0 && adj.row < 9 && adj.col >= 0 && adj.col < 9) {
        return;
    }
    if edges.contains_edge(cur, adj) {
        return;
    }
    if adj.row == opp.row && adj.col == opp.col {
        proof {
            assert(adj == opp);
        }
        let jump = Position { row: adj.row + dr, col: adj.col + dc };
        proof {
            assert(jump == shifted(adj, dr as int, dc as int));
        }
        if jump.row >= 0 && jump.row < 9 && jump.col >= 0 && jump.col < 9 {
            if !edges.contains_edge(adj, jump) {
                let ghost oldm = moves@;
                moves.push(jump);
                proof {
                    assert forall|p: Position| #[trigger] moves@.contains(p)
                        <==> (oldm.contains(p) || dir_move_ok(cur, opp, edges.rel(), dr as int, dc as int, p)) by {
                        lemma_push_contains(oldm, jump, p);
                    }
                }
                return;
            }
        }
        let d1: Position;
        let d2: Position;
        if dc == 0 {
            d1 = Position { row: adj.row, col: adj.col - 1 };
            d2 = Position { row: adj.row, col: adj.col + 1 };
        } else {
            d1 = Position { row: adj.row - 1, col: adj.col };
            d2 = Position { row: adj.row + 1, col: adj.col };
        }
        proof {
            if dc == 0 {
                assert(d1 == shifted(adj, 0, -1) && d2 == shifted(adj, 0, 1));
            } else {
                assert(d1 == shifted(adj, -1, 0) && d2 == shifted(adj, 1, 0));
            }
        }
        let ghost m0 = moves@;
        if d1.row >= 0 && d1.row < 9 && d1.col >= 0 && d1.col < 9 {
            if !edges.contains_edge(adj, d1) {
                moves.push(d1);
            }
        }
        let ghost m1 = moves@;
        if d2.row >= 0 && d2.row < 9 && d2.col >= 0 && d2.col < 9 {
            if !edges.contains_edge(adj, d2) {
                moves.push(d2);
            }
        }
        proof {
            assert forall|p: Position| #[trigger] moves@.contains(p)
                <==> (m0.contains(p) || dir_move_ok(cur, opp, edges.rel(), dr as int, dc as int, p)) by {
                lemma_push_contains(m0, d1, p);
                lemma_push_contains(m1, d2, p);
            }
        }
    } else {
        let ghost oldm = moves@;
        moves.push(adj);
        proof {
            assert forall|p: Position| #[trigger] moves@.contains(p)
                <==> (oldm.contains(p) || dir_move_ok(cur, opp, edges.rel(), dr as int, dc as int, p)) by {
                lemma_push_contains(oldm, adj, p);
            }
        }
    }
}

/// Every legal token move for a token at `current` facing an opponent at
/// `opponent`, each exactly once, in row-major order.
pub fn get_valid_pawn_moves(current: Position, opponent: Position, edges: &EdgeSet) -> (r: Vec<Position>)
    requires
        current.in_bounds(),
        edges.wf(),
    ensures
        forall|p: Position| #[trigger] r@.contains(p)
            <==> is_valid_pawn_move(current, opponent, edges.rel(), p),
        sorted_distinct(r@),
        forall|i: int| 0 <= i < r@.len() ==> (#[trigger] r@[i]).in_bounds(),
        r@.len() <= 8,
        r@.len() == valid_move_set(current, opponent, edges.rel()).len(),
{
    let mut cand: Vec<Position> = Vec::new();
    push_dir_moves(&mut cand, current, opponent, edges, -1, 0);
    push_dir_moves(&mut cand, current, opponent, edges, 1, 0);
    push_dir_moves(&mut cand, current, opponent, edges, 0, -1);
    push_dir_moves(&mut cand, current, opponent, edges, 0, 1);
    proof {
        assert(forall|p: Position| #[trigger] cand@.contains(p)
            <==> is_valid_pawn_move(current, opponent, edges.rel(), p));
    }
    let mut r: Vec<Position> = Vec::new();
    let mut i: usize = 0;
    while i < cand.len()
        invariant
            i <= cand@.len(),
            cand@.len() <= 8,
            sorted_distinct(r@),
            r@.len() <= i,
            forall|p: Position| #[trigger] r@.contains(p) <==> cand@.subrange(0, i as int).contains(p),
        decreases cand@.len() - i,
    {
        let ghost oldr = r@;
        insert_sorted(&mut r, cand[i]);
        proof {
            assert(cand@.subrange(0, i as int + 1) =~= cand@.subrange(0, i as int).push(cand@[i as int]));
            assert forall|p: Position| #[trigger] r@.contains(p)
                <==> cand@.subrange(0, i as int + 1).contains(p) by {
                lemma_push_contains(cand@.subrange(0, i as int), cand@[i as int], p);
            }
        }
        i = i + 1;
    }
    proof {
        assert(cand@.subrange(0, cand@.len() as int) =~= cand@);
        assert forall|k: int| 0 <= k < r@.len() implies (#[trigger] r@[k]).in_bounds() by {
            assert(r@.contains(r@[k]));
            lemma_valid_move_in_bounds(current, opponent, edges.rel(), r@[k]);
        }
        assert forall|a: int, b: int| 0 <= a < r@.len() && 0 <= b < r@.len() && a != b
            implies r@[a] != r@[b] by {
            if a < b {
                assert(pos_lt(r@[a], r@[b]));
            } else {
                assert(pos_lt(r@[b], r@[a]));
            }
        }
        assert(r@.no_duplicates());
        r@.unique_seq_to_set();
        assert(r@.to_set() =~= valid_move_set(current, opponent, edges.rel()));
    }
    r
}

} // verus!
