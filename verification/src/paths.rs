//! Reachability on the board graph.
//!
//! A path is a sequence of cells on the board in which every consecutive
//! pair is related by a step relation.  Plain reachability (4-directional
//! adjacency minus blocked edges) witnesses wall legality; move-accurate
//! reachability (the pawn-move relation, jumps included) measures distance.

use vstd::prelude::*;
use crate::board::Position;
use crate::edges::{EdgeSet, cell_idx, cell_index};
use crate::moves::{is_valid_pawn_move, move_step, get_valid_pawn_moves};

verus! {

/// True when `a` and `b` are distinct cells sharing a side.
pub open spec fn adjacent(a: Position, b: Position) -> bool {
    ||| (b.row == a.row + 1 && b.col == a.col)
    ||| (b.row == a.row - 1 && b.col == a.col)
    ||| (b.row == a.row && b.col == a.col + 1)
    ||| (b.row == a.row && b.col == a.col - 1)
}

/// The plain step relation: one cell to a side-adjacent cell across an
/// unblocked edge.
pub open spec fn plain_step(blocked: spec_fn(Position, Position) -> bool) -> spec_fn(Position, Position) -> bool {
    |a: Position, b: Position| adjacent(a, b) && !blocked(a, b)
}

/// True when `s` is a walk on the board under the step relation.
pub open spec fn is_step_path(step: spec_fn(Position, Position) -> bool, s: Seq<Position>) -> bool {
    &&& s.len() >= 1
    &&& forall|i: int| 0 <= i < s.len() ==> (#[trigger] s[i]).in_bounds()
    &&& forall|i: int| 0 <= i < s.len() - 1 ==> #[trigger] step(s[i], s[i + 1])
}

/// True when some walk leads from `start` to cell `c`.
pub open spec fn reaches_cell(step: spec_fn(Position, Position) -> bool, start: Position, c: Position) -> bool {
    exists|s: Seq<Position>| is_step_path(step, s) && s[0] == start && s[s.len() - 1] == c
}

/// True when some walk leads from `start` to a cell of row `goal_row`.
pub open spec fn reaches_row(step: spec_fn(Position, Position) -> bool, start: Position, goal_row: int) -> bool {
    exists|s: Seq<Position>| is_step_path(step, s) && s[0] == start && s[s.len() - 1].row == goal_row
}

/// True when a walk of exactly `d` steps leads from `start` to a cell of
/// row `goal_row`.
pub open spec fn reaches_row_in(step: spec_fn(Position, Position) -> bool, start: Position, goal_row: int, d: int) -> bool {
    exists|s: Seq<Position>| is_step_path(step, s) && s[0] == start && s[s.len() - 1].row == goal_row
        && s.len() == d + 1
}

/// True when a walk of exactly `d` steps leads from `start` to cell `c`.
pub open spec fn reaches_cell_in(step: spec_fn(Position, Position) -> bool, start: Position, c: Position, d: int) -> bool {
    exists|s: Seq<Position>| is_step_path(step, s) && s[0] == start && s[s.len() - 1] == c
        && s.len() == d + 1
}

/// A cell on the board reaches itself by the empty walk.
pub proof fn lemma_reaches_self(step: spec_fn(Position, Position) -> bool, p: Position)
    requires
        p.in_bounds(),
    ensures
        reaches_cell_in(step, p, p, 0),
{
    let s = seq![p];
    assert(is_step_path(step, s));
    assert(s[0] == p && s[s.len() - 1] == p && s.len() == 1);
}

/// A walk extends by one step to a cell on the board.
pub proof fn lemma_reaches_extend(step: spec_fn(Position, Position) -> bool, start: Position, c: Position, d: int, n: Position)
    requires
        reaches_cell_in(step, start, c, d),
        step(c, n),
        n.in_bounds(),
    ensures
        reaches_cell_in(step, start, n, d + 1),
{
    let s = choose|s: Seq<Position>| is_step_path(step, s) && s[0] == start && s[s.len() - 1] == c
        && s.len() == d + 1;
    let t = s.push(n);
    assert forall|i: int| 0 <= i < t.len() - 1 implies #[trigger] step(t[i], t[i + 1]) by {
        if i < s.len() - 1 {
            assert(t[i] == s[i] && t[i + 1] == s[i + 1]);
        } else {
            assert(t[i] == s[s.len() - 1] && t[i + 1] == n);
        }
    }
    assert forall|i: int| 0 <= i < t.len() implies (#[trigger] t[i]).in_bounds() by {
        if i < s.len() {
            assert(t[i] == s[i]);
        }
    }
    assert(is_step_path(step, t));
    assert(t[0] == start && t[t.len() - 1] == n && t.len() == d + 2);
}

/// Every cell of a walk that starts inside a set closed under the step
/// relation stays inside it; in particular the walk's last cell does.
pub proof fn lemma_closed_path(step: spec_fn(Position, Position) -> bool, vis: Set<Position>, s: Seq<Position>)
    requires
        is_step_path(step, s),
        vis.contains(s[0]),
        forall|c: Position, n: Position|
            vis.contains(c) && n.in_bounds() && #[trigger] step(c, n) ==> vis.contains(n),
    ensures
        vis.contains(s[s.len() - 1]),
    decreases s.len(),
{
    if s.len() == 1 {
    } else {
        let t = s.subrange(1, s.len() as int);
        assert(step(s[0int], s[0int + 1]));
        assert(s[1].in_bounds());
        assert(vis.contains(s[1]));
        assert forall|i: int| 0 <= i < t.len() - 1 implies #[trigger] step(t[i], t[i + 1]) by {
            assert(t[i] == s[i + 1] && t[i + 1] == s[i + 2]);
            assert(step(s[i + 1], s[i + 2]));
        }
        assert forall|i: int| 0 <= i < t.len() implies (#[trigger] t[i]).in_bounds() by {
            assert(t[i] == s[i + 1]);
        }
        assert(is_step_path(step, t));
        assert(t[0] == s[1]);
        lemma_closed_path(step, vis, t);
        assert(t[t.len() - 1] == s[s.len() - 1]);
    }
}

/// Pushing onto a sequence adds exactly the pushed cell to its members.
pub proof fn lemma_push_contains(s: Seq<Position>, x: Position, y: Position)
    ensures
        s.push(x).contains(y) <==> (s.contains(y) || y == x),
{
    if s.push(x).contains(y) {
        let i = choose|i: int| 0 <= i < s.push(x).len() && s.push(x)[i] == y;
        if i < s.len() {
            assert(s[i] == y);
        }
    }
    if s.contains(y) {
        let i = choose|i: int| 0 <= i < s.len() && s[i] == y;
        assert(s.push(x)[i] == y);
    }
    if y == x {
        assert(s.push(x)[s.len() as int] == y);
    }
}

/// A family of distinct cells on the board has at most 81 members.
pub proof fn lemma_distinct_cells_bound(s: Seq<Position>)
    requires
        s.no_duplicates(),
        forall|i: int| 0 <= i < s.len() ==> (#[trigger] s[i]).in_bounds(),
    ensures
        s.len() <= 81,
{
    let f = |p: Position| crate::edges::cell_idx(p);
    let m = s.map_values(f);
    assert forall|i: int, j: int| 0 <= i < m.len() && 0 <= j < m.len() && i != j
        implies m[i] != m[j] by {
        assert(m[i] == f(s[i]) && m[j] == f(s[j]));
        assert(s[i] != s[j]);
        assert(crate::edges::cell_idx(s[i]) == crate::edges::cell_idx(s[j]) ==> s[i] == s[j]);
    }
    assert(m.no_duplicates());
    m.unique_seq_to_set();
    vstd::set_lib::lemma_int_range(0, 81);
    assert forall|x: int| m.to_set().contains(x)
        implies vstd::set_lib::set_int_range(0, 81).contains(x) by {
        let i = choose|i: int| 0 <= i < m.len() && m[i] == x;
        assert(m[i] == f(s[i]));
        assert(0 <= crate::edges::cell_idx(s[i]) < 81);
    }
    assert(m.to_set().subset_of(vstd::set_lib::set_int_range(0, 81)));
    vstd::set_lib::lemma_len_subset(m.to_set(), vstd::set_lib::set_int_range(0, 81));
}

/// A cell on the board reaches itself.
pub proof fn lemma_reaches_self_cell(step: spec_fn(Position, Position) -> bool, p: Position)
    requires
        p.in_bounds(),
    ensures
        reaches_cell(step, p, p),
{
    let s = seq![p];
    assert(is_step_path(step, s));
    assert(s[0] == p && s[s.len() - 1] == p);
}

/// Reachability extends by one step to a cell on the board.
pub proof fn lemma_reaches_extend_cell(step: spec_fn(Position, Position) -> bool, start: Position, c: Position, n: Position)
    requires
        reaches_cell(step, start, c),
        step(c, n),
        n.in_bounds(),
    ensures
        reaches_cell(step, start, n),
{
    let s = choose|s: Seq<Position>| is_step_path(step, s) && s[0] == start && s[s.len() - 1] == c;
    let t = s.push(n);
    assert forall|i: int| 0 <= i < t.len() - 1 implies #[trigger] step(t[i], t[i + 1]) by {
        if i < s.len() - 1 {
            assert(t[i] == s[i] && t[i + 1] == s[i + 1]);
        } else {
            assert(t[i] == s[s.len() - 1] && t[i + 1] == n);
        }
    }
    assert forall|i: int| 0 <= i < t.len() implies (#[trigger] t[i]).in_bounds() by {
        if i < s.len() {
            assert(t[i] == s[i]);
        }
    }
    assert(is_step_path(step, t));
    assert(t[0] == start && t[t.len() - 1] == n);
}

/// A reached cell witnesses reachability of its row.
pub proof fn lemma_reaches_cell_row(step: spec_fn(Position, Position) -> bool, start: Position, c: Position)
    requires
        reaches_cell(step, start, c),
    ensures
        reaches_row(step, start, c.row as int),
{
    let s = choose|s: Seq<Position>| is_step_path(step, s) && s[0] == start && s[s.len() - 1] == c;
    assert(is_step_path(step, s) && s[0] == start && s[s.len() - 1].row == c.row as int);
}

/// A cell reached in `d` steps witnesses its row reached in `d` steps.
pub proof fn lemma_reaches_cell_in_row(step: spec_fn(Position, Position) -> bool, start: Position, c: Position, d: int)
    requires
        reaches_cell_in(step, start, c, d),
    ensures
        reaches_row_in(step, start, c.row as int, d),
        reaches_row(step, start, c.row as int),
{
    let s = choose|s: Seq<Position>| is_step_path(step, s) && s[0] == start && s[s.len() - 1] == c
        && s.len() == d + 1;
    assert(is_step_path(step, s) && s[0] == start && s[s.len() - 1].row == c.row as int);
}

/// Two blocking relations that agree on cells of the board induce the same
/// plain reachability.
pub proof fn lemma_reaches_row_congruence(b1: spec_fn(Position, Position) -> bool, b2: spec_fn(Position, Position) -> bool, start: Position, goal_row: int)
    requires
        forall|a: Position, b: Position| a.in_bounds() && b.in_bounds()
            ==> (#[trigger] b1(a, b)) == b2(a, b),
    ensures
        reaches_row(plain_step(b1), start, goal_row) == reaches_row(plain_step(b2), start, goal_row),
{
    if reaches_row(plain_step(b1), start, goal_row) {
        let s = choose|s: Seq<Position>| is_step_path(plain_step(b1), s) && s[0] == start
            && s[s.len() - 1].row == goal_row;
        assert forall|i: int| 0 <= i < s.len() - 1 implies #[trigger] plain_step(b2)(s[i], s[i + 1]) by {
            assert(plain_step(b1)(s[i], s[i + 1]));
        }
        assert(is_step_path(plain_step(b2), s));
    }
    if reaches_row(plain_step(b2), start, goal_row) {
        let s = choose|s: Seq<Position>| is_step_path(plain_step(b2), s) && s[0] == start
            && s[s.len() - 1].row == goal_row;
        assert forall|i: int| 0 <= i < s.len() - 1 implies #[trigger] plain_step(b1)(s[i], s[i + 1]) by {
            assert(plain_step(b2)(s[i], s[i + 1]));
        }
        assert(is_step_path(plain_step(b1), s));
    }
}

/// The shared shape of a breadth-first traversal: the queue lists exactly
/// the discovered cells, without duplicates, each on the board and reached
/// from the start.
pub open spec fn bfs_inv(q: Seq<Position>, vis: Seq<bool>, start: Position, step: spec_fn(Position, Position) -> bool) -> bool {
    &&& vis.len() == 81
    &&& q.no_duplicates()
    &&& q.len() <= 81
    &&& forall|i: int| 0 <= i < q.len() ==> (#[trigger] q[i]).in_bounds()
    &&& forall|i: int| 0 <= i < q.len() ==> vis[cell_idx(#[trigger] q[i])]
    &&& forall|c: Position| #![trigger cell_idx(c)] c.in_bounds() && vis[cell_idx(c)] ==> q.contains(c)
    &&& forall|i: int| 0 <= i < q.len() ==> reaches_cell(step, start, #[trigger] q[i])
}

/// The side neighbours of `pos` that lie on the board, in the order up,
/// down, left, right.
pub open spec fn adjacent_seq(pos: Position) -> Seq<Position> {
    let up = Position { row: (pos.row - 1) as i32, col: pos.col };
    let down = Position { row: (pos.row + 1) as i32, col: pos.col };
    let left = Position { row: pos.row, col: (pos.col - 1) as i32 };
    let right = Position { row: pos.row, col: (pos.col + 1) as i32 };
    let s0 = Seq::<Position>::empty();
    let s1 = if pos.row - 1 >= 0 { s0.push(up) } else { s0 };
    let s2 = if pos.row + 1 < 9 { s1.push(down) } else { s1 };
    let s3 = if pos.col - 1 >= 0 { s2.push(left) } else { s2 };
    if pos.col + 1 < 9 { s3.push(right) } else { s3 }
}

/// The cells sharing a side with `pos` that lie on the board, exactly
/// `adjacent_seq`: up, down, left, right, skipping whichever leave the
/// board.
pub fn get_adjacent_positions(pos: Position) -> (r: Vec<Position>)
    requires
        pos.in_bounds(),
    ensures
        forall|p: Position| #[trigger] r@.contains(p) <==> (adjacent(pos, p) && p.in_bounds()),
        r@ == adjacent_seq(pos),
        2 <= r@.len() <= 4,
{
    let mut r: Vec<Position> = Vec::new();
    let ghost m0 = r@;
    let n1 = Position { row: pos.row - 1, col: pos.col };
    if n1.row >= 0 {
        r.push(n1);
    }
    let ghost m1 = r@;
    let n2 = Position { row: pos.row + 1, col: pos.col };
    if n2.row < 9 {
        r.push(n2);
    }
    let ghost m2 = r@;
    let n3 = Position { row: pos.row, col: pos.col - 1 };
    if n3.col >= 0 {
        r.push(n3);
    }
    let ghost m3 = r@;
    let n4 = Position { row: pos.row, col: pos.col + 1 };
    if n4.col < 9 {
        r.push(n4);
    }
    proof {
        assert forall|p: Position| #[trigger] r@.contains(p) <==> (adjacent(pos, p) && p.in_bounds()) by {
            lemma_push_contains(m0, n1, p);
            lemma_push_contains(m1, n2, p);
            lemma_push_contains(m2, n3, p);
            lemma_push_contains(m3, n4, p);
        }
        assert(r@ =~= adjacent_seq(pos));
    }
    r
}

/// Discovers `nb` if it is a fresh cell of the board whose edge from
/// `node` is open; otherwise changes nothing.
fn bfs_try_visit(queue: &mut Vec<Position>, visited: &mut Vec<bool>, node: Position, nb: Position, edges: &EdgeSet, Ghost(start): Ghost<Position>, Ghost(step): Ghost<spec_fn(Position, Position) -> bool>)
    requires
        edges.wf(),
        node.in_bounds(),
        bfs_inv(old(queue)@, old(visited)@, start, step),
        reaches_cell(step, start, node),
        nb.in_bounds() && !edges.spec_blocked(node, nb) ==> step(node, nb),
    ensures
        bfs_inv(final(queue)@, final(visited)@, start, step),
        old(queue)@.is_prefix_of(final(queue)@),
        forall|t: int| 0 <= t < 81 && old(visited)@[t] ==> final(visited)@[t],
        nb.in_bounds() && !edges.spec_blocked(node, nb) ==> final(visited)@[cell_idx(nb)],
{
    proof {
        assert(old(queue)@.is_prefix_of(old(queue)@));
    }
    if !(nb.row >= 0 && nb.row < 9 && nb.col >= 0 && nb.col < 9) {
        return;
    }
    if edges.contains_edge(node, nb) {
        return;
    }
    let idx = cell_index(nb);
    if visited[idx] {
        return;
    }
    let ghost q0 = queue@;
    let ghost v0 = visited@;
    visited[idx] = true;
    queue.push(nb);
    proof {
        lemma_reaches_extend_cell(step, start, node, nb);
        assert forall|i: int| 0 <= i < q0.len() implies q0[i] != nb by {
            assert(v0[cell_idx(q0[i])]);
        }
        assert(queue@.no_duplicates());
        assert forall|c: Position| #![trigger cell_idx(c)] c.in_bounds() && visited@[cell_idx(c)]
            implies queue@.contains(c) by {
            if v0[cell_idx(c)] {
                let i = choose|i: int| 0 <= i < q0.len() && q0[i] == c;
                assert(queue@[i] == c);
            } else {
                assert(cell_idx(c) == cell_idx(nb));
                assert(c == nb);
                assert(queue@[q0.len() as int] == nb);
            }
        }
        lemma_distinct_cells_bound(queue@);
        assert(q0.is_prefix_of(queue@));
    }
}

/// Whether any route of side-adjacent moves across open edges leads from
/// `start` to a cell of row `goal_row`: plain connectivity, with no jump
/// rules, as wall legality requires.
#[verifier::loop_isolation(false)]
pub fn bfs_has_path(start: Position, goal_row: i32, edges: &EdgeSet) -> (r: bool)
    requires
        start.in_bounds(),
        edges.wf(),
    ensures
        r == reaches_row(plain_step(edges.rel()), start, goal_row as int),
{
    let ghost step = plain_step(edges.rel());
    let mut visited: Vec<bool> = vec![false; 81];
    let mut queue: Vec<Position> = Vec::new();
    let si = cell_index(start);
    visited[si] = true;
    queue.push(start);
    proof {
        lemma_reaches_self_cell(step, start);
        assert forall|c: Position| #![trigger cell_idx(c)] c.in_bounds() && visited@[cell_idx(c)]
            implies queue@.contains(c) by {
            assert(c == start);
            assert(queue@[0] == start);
        }
        assert(bfs_inv(queue@, visited@, start, step));
    }
    let mut head: usize = 0;
    while head < queue.len()
        invariant
            bfs_inv(queue@, visited@, start, step),
            head <= queue@.len(),
            visited@[cell_idx(start)],
            forall|i: int| 0 <= i < head ==> (#[trigger] queue@[i]).row != goal_row,
            forall|i: int, n: Position| #![trigger queue@[i], cell_idx(n)]
                0 <= i < head && n.in_bounds() && step(queue@[i], n) ==> visited@[cell_idx(n)],
        decreases 81 - head,
    {
        let node = queue[head];
        if node.row == goal_row {
            proof {
                lemma_reaches_cell_row(step, start, node);
            }
            return true;
        }
        let ghost q0 = queue@;
        let ghost v0 = visited@;
        proof {
            assert(reaches_cell(step, start, node));
        }
        let nbrs = get_adjacent_positions(node);
        let mut k: usize = 0;
        while k < nbrs.len()
            invariant
                bfs_inv(queue@, visited@, start, step),
                k <= nbrs@.len(),
                q0.is_prefix_of(queue@),
                forall|t: int| 0 <= t < 81 && v0[t] ==> visited@[t],
                forall|j: int| #![trigger nbrs@[j]] 0 <= j < k
                    ==> (nbrs@[j].in_bounds() && !edges.spec_blocked(node, nbrs@[j])
                        ==> visited@[cell_idx(nbrs@[j])]),
            decreases nbrs@.len() - k,
        {
            let ghost qk = queue@;
            let ghost vk = visited@;
            proof {
                assert(nbrs@.contains(nbrs@[k as int]));
                assert(adjacent(node, nbrs@[k as int]) || !nbrs@[k as int].in_bounds());
            }
            bfs_try_visit(&mut queue, &mut visited, node, nbrs[k], edges, Ghost(start), Ghost(step));
            proof {
                assert(q0.is_prefix_of(queue@)) by {
                    assert(qk.is_prefix_of(queue@));
                }
            }
            k = k + 1;
        }
        proof {
            assert forall|n: Position| n.in_bounds() && step(node, n)
                implies visited@[cell_idx(n)] by {
                assert(adjacent(node, n) && !edges.spec_blocked(node, n));
                assert(nbrs@.contains(n));
                let j = choose|j: int| 0 <= j < nbrs@.len() && nbrs@[j] == n;
                assert(nbrs@[j].in_bounds() && !edges.spec_blocked(node, nbrs@[j]));
            }
            assert forall|i: int, n: Position| #![trigger queue@[i], cell_idx(n)]
                0 <= i < head + 1 && n.in_bounds() && step(queue@[i], n)
                implies visited@[cell_idx(n)] by {
                if i < head {
                    assert(queue@[i] == q0[i]);
                    assert(v0[cell_idx(n)]);
                } else {
                    assert(queue@[i] == q0[head as int]);
                    assert(queue@[i] == node);
                }
            }
            assert forall|i: int| 0 <= i < head + 1 implies (#[trigger] queue@[i]).row != goal_row by {
                if i < head {
                    assert(queue@[i] == q0[i]);
                } else {
                    assert(queue@[i] == q0[head as int]);
                }
            }
        }
        head = head + 1;
    }
    proof {
        if reaches_row(step, start, goal_row as int) {
            let s = choose|s: Seq<Position>| is_step_path(step, s) && s[0] == start
                && s[s.len() - 1].row == goal_row as int;
            let vis_set = Set::new(|c: Position| c.in_bounds() && visited@[cell_idx(c)]);
            assert(vis_set.contains(start));
            assert forall|c: Position, n: Position|
                vis_set.contains(c) && n.in_bounds() && #[trigger] step(c, n)
                implies vis_set.contains(n) by {
                assert(cell_idx(c) == cell_idx(c));
                assert(queue@.contains(c));
                let i = choose|i: int| 0 <= i < queue@.len() && queue@[i] == c;
                assert(queue@[i] == c && 0 <= i < head);
                assert(visited@[cell_idx(n)]);
            }
            lemma_closed_path(step, vis_set, s);
            let last = s[s.len() - 1];
            assert(vis_set.contains(last));
            assert(cell_idx(last) == cell_idx(last));
            assert(queue@.contains(last));
            let j = choose|j: int| 0 <= j < queue@.len() && queue@[j] == last;
            assert(queue@[j].row != goal_row);
            assert(false);
        }
    }
    false
}

/// The opponent cell a distance query uses when none is given: off the
/// board, so the jump rules never engage.
pub open spec fn opp_of(opponent: Option<Position>) -> Position {
    match opponent {
        Option::Some(p) => p,
        Option::None => Position { row: -1i32, col: -1i32 },
    }
}

/// What it means for `r` to be the goal distance under a step relation:
/// at most the sentinel 99; below it exactly when the goal row is
/// reachable, and then the length of a shortest walk there.
pub open spec fn is_goal_distance(step: spec_fn(Position, Position) -> bool, start: Position, goal_row: int, r: int) -> bool {
    &&& 0 <= r <= 99
    &&& (r < 99 ==> reaches_row_in(step, start, goal_row, r))
    &&& (r < 99) == reaches_row(step, start, goal_row)
    &&& forall|d: int| reaches_row_in(step, start, goal_row, d) ==> r <= d
}

/// The four distance facts together form `is_goal_distance`.
pub proof fn lemma_goal_distance_intro(step: spec_fn(Position, Position) -> bool, start: Position, goal_row: int, r: int)
    requires
        0 <= r <= 99,
        r < 99 ==> reaches_row_in(step, start, goal_row, r),
        (r < 99) == reaches_row(step, start, goal_row),
        forall|d: int| reaches_row_in(step, start, goal_row, d) ==> r <= d,
    ensures
        is_goal_distance(step, start, goal_row, r),
{
}

/// The goal distance under a step relation, as a value: the unique
/// distance satisfying `is_goal_distance`, or the sentinel where none does.
pub open spec fn goal_distance_of(step: spec_fn(Position, Position) -> bool, start: Position, goal_row: int) -> int {
    let d = choose|d: int| is_goal_distance(step, start, goal_row, d);
    if is_goal_distance(step, start, goal_row, d) {
        d
    } else {
        99
    }
}

/// A witness for `is_goal_distance` fixes the value of `goal_distance_of`.
pub proof fn lemma_goal_distance_of(step: spec_fn(Position, Position) -> bool, start: Position, goal_row: int, r: int)
    requires
        is_goal_distance(step, start, goal_row, r),
    ensures
        goal_distance_of(step, start, goal_row) == r,
{
    let d = choose|d: int| is_goal_distance(step, start, goal_row, d);
    assert(is_goal_distance(step, start, goal_row, d));
    lemma_goal_distance_unique(step, start, goal_row, d, r);
}

/// The goal distance is unique.
pub proof fn lemma_goal_distance_unique(step: spec_fn(Position, Position) -> bool, start: Position, goal_row: int, r1: int, r2: int)
    requires
        is_goal_distance(step, start, goal_row, r1),
        is_goal_distance(step, start, goal_row, r2),
    ensures
        r1 == r2,
{
    if reaches_row(step, start, goal_row) {
        assert(reaches_row_in(step, start, goal_row, r1));
        assert(reaches_row_in(step, start, goal_row, r2));
    }
}

/// Step relations that agree on cells of the board give every walk to the
/// same places at the same lengths, hence the same goal distances.
pub proof fn lemma_goal_distance_congruence(s1: spec_fn(Position, Position) -> bool, s2: spec_fn(Position, Position) -> bool, start: Position, goal_row: int, r: int)
    requires
        forall|a: Position, b: Position| a.in_bounds() && b.in_bounds()
            ==> (#[trigger] s1(a, b)) == s2(a, b),
        is_goal_distance(s1, start, goal_row, r),
    ensures
        is_goal_distance(s2, start, goal_row, r),
{
    assert forall|s: Seq<Position>| is_step_path(s1, s) implies is_step_path(s2, s) by {
        assert forall|i: int| 0 <= i < s.len() - 1 implies #[trigger] s2(s[i], s[i + 1]) by {
            assert(s1(s[i], s[i + 1]));
        }
    }
    assert forall|s: Seq<Position>| is_step_path(s2, s) implies is_step_path(s1, s) by {
        assert forall|i: int| 0 <= i < s.len() - 1 implies #[trigger] s1(s[i], s[i + 1]) by {
            assert(s2(s[i], s[i + 1]));
        }
    }
    assert forall|d: int| reaches_row_in(s2, start, goal_row, d)
        implies reaches_row_in(s1, start, goal_row, d) by {
        let s = choose|s: Seq<Position>| is_step_path(s2, s) && s[0] == start
            && s[s.len() - 1].row == goal_row && s.len() == d + 1;
        assert(is_step_path(s1, s));
    }
    assert forall|d: int| reaches_row_in(s1, start, goal_row, d)
        implies reaches_row_in(s2, start, goal_row, d) by {
        let s = choose|s: Seq<Position>| is_step_path(s1, s) && s[0] == start
            && s[s.len() - 1].row == goal_row && s.len() == d + 1;
        assert(is_step_path(s2, s));
    }
    if reaches_row(s1, start, goal_row) {
        let s = choose|s: Seq<Position>| is_step_path(s1, s) && s[0] == start
            && s[s.len() - 1].row == goal_row;
        assert(is_step_path(s2, s));
        assert(reaches_row(s2, start, goal_row));
    }
    if reaches_row(s2, start, goal_row) {
        let s = choose|s: Seq<Position>| is_step_path(s2, s) && s[0] == start
            && s[s.len() - 1].row == goal_row;
        assert(is_step_path(s1, s));
        assert(reaches_row(s1, start, goal_row));
    }
}

/// The shape of the distance traversal: discovered cells are distinct, on
/// the board, and carry the length of some walk that reaches them.
pub open spec fn dist_inv(q: Seq<(Position, i32)>, vis: Seq<bool>, start: Position, step: spec_fn(Position, Position) -> bool) -> bool {
    &&& vis.len() == 81
    &&& q.len() <= 81
    &&& q.len() >= 1 && q[0].0 == start && q[0].1 == 0
    &&& forall|i: int, j: int| 0 <= i < j < q.len() ==> (#[trigger] q[i]).0 != (#[trigger] q[j]).0
    &&& forall|i: int| 0 <= i < q.len() ==> (#[trigger] q[i]).0.in_bounds()
    &&& forall|i: int| 0 <= i < q.len() ==> vis[cell_idx((#[trigger] q[i]).0)]
    &&& forall|c: Position| #![trigger cell_idx(c)] c.in_bounds() && vis[cell_idx(c)]
        ==> exists|i: int| 0 <= i < q.len() && (#[trigger] q[i]).0 == c
    &&& forall|i: int| 0 <= i < q.len() ==> 0 <= (#[trigger] q[i]).1 <= i
    &&& forall|i: int| 0 <= i < q.len() && (#[trigger] q[i]).1 == 0 ==> q[i].0 == start
    &&& forall|i: int| 0 <= i < q.len()
        ==> reaches_cell_in(step, start, (#[trigger] q[i]).0, q[i].1 as int)
    &&& forall|i: int, j: int| 0 <= i < j < q.len() ==> (#[trigger] q[i]).1 <= (#[trigger] q[j]).1
}

/// True when the traversal has discovered cell `c` at a walk length of at
/// most `b`.
pub open spec fn has_entry_within(q: Seq<(Position, i32)>, c: Position, b: int) -> bool {
    exists|j: int| 0 <= j < q.len() && (#[trigger] q[j]).0 == c && q[j].1 <= b
}

proof fn lemma_entry_prefix(q1: Seq<(Position, i32)>, q2: Seq<(Position, i32)>, c: Position, b: int)
    requires
        q1.is_prefix_of(q2),
        has_entry_within(q1, c, b),
    ensures
        has_entry_within(q2, c, b),
{
    let j = choose|j: int| 0 <= j < q1.len() && (#[trigger] q1[j]).0 == c && q1[j].1 <= b;
    assert(q2[j] == q1[j]);
}

/// Along any walk from the start, while the traversal has processed every
/// discovered cell of smaller length than the pivot entry, each walk cell
/// has been discovered at no more than its index.
proof fn lemma_path_entries(step: spec_fn(Position, Position) -> bool, q: Seq<(Position, i32)>, head: int, s: Seq<Position>, k: int)
    requires
        is_step_path(step, s),
        0 <= k < s.len(),
        0 <= head < q.len(),
        q[0].0 == s[0],
        q[0].1 == 0,
        k <= q[head].1,
        forall|i: int, j: int| 0 <= i < j < q.len() ==> (#[trigger] q[i]).1 <= (#[trigger] q[j]).1,
        forall|i: int, n: Position| 0 <= i < head && n.in_bounds() && #[trigger] step((q[i]).0, n)
            ==> has_entry_within(q, n, (q[i]).1 + 1),
    ensures
        has_entry_within(q, s[k], k),
    decreases k,
{
    if k == 0 {
        assert(q[0].0 == s[0] && q[0].1 <= 0);
    } else {
        lemma_path_entries(step, q, head, s, k - 1);
        let j = choose|j: int| 0 <= j < q.len() && (#[trigger] q[j]).0 == s[k - 1] && q[j].1 <= k - 1;
        assert(j < head) by {
            if j >= head {
                assert(q[head].1 <= q[j].1);
            }
        }
        assert(step(s[k - 1], s[(k - 1) + 1]));
        assert(s[k].in_bounds());
        assert(has_entry_within(q, s[k], q[j].1 + 1));
        let j2 = choose|j2: int| 0 <= j2 < q.len() && (#[trigger] q[j2]).0 == s[k] && q[j2].1 <= q[j].1 + 1;
        assert(q[j2].1 <= k);
    }
}

/// A discovered-cell list with distinct cells of the board has at most 81
/// entries.
proof fn lemma_dist_queue_bound(q: Seq<(Position, i32)>)
    requires
        forall|i: int, j: int| 0 <= i < j < q.len() ==> (#[trigger] q[i]).0 != (#[trigger] q[j]).0,
        forall|i: int| 0 <= i < q.len() ==> (#[trigger] q[i]).0.in_bounds(),
    ensures
        q.len() <= 81,
{
    let f = |e: (Position, i32)| e.0;
    let m = q.map_values(f);
    assert forall|i: int, j: int| 0 <= i < m.len() && 0 <= j < m.len() && i != j
        implies m[i] != m[j] by {
        assert(m[i] == f(q[i]) && m[j] == f(q[j]));
    }
    assert(m.no_duplicates());
    assert forall|i: int| 0 <= i < m.len() implies (#[trigger] m[i]).in_bounds() by {
        assert(m[i] == f(q[i]));
    }
    lemma_distinct_cells_bound(m);
}

/// When the traversal pops a goal-row entry, every walk to the goal row is
/// at least as long as that entry's walk.
proof fn lemma_min_at_goal(step: spec_fn(Position, Position) -> bool, q: Seq<(Position, i32)>, head: int, start: Position, goal_row: int)
    requires
        0 <= head < q.len(),
        q[0].0 == start,
        q[0].1 == 0,
        forall|i: int, j: int| 0 <= i < j < q.len() ==> (#[trigger] q[i]).1 <= (#[trigger] q[j]).1,
        forall|i: int, n: Position| 0 <= i < head && n.in_bounds() && #[trigger] step((q[i]).0, n)
            ==> has_entry_within(q, n, (q[i]).1 + 1),
        forall|i: int| 0 <= i < head ==> (#[trigger] q[i]).0.row != goal_row,
    ensures
        forall|d: int| reaches_row_in(step, start, goal_row, d) ==> q[head].1 <= d,
{
    assert forall|d: int| reaches_row_in(step, start, goal_row, d)
        implies q[head].1 <= d by {
        if d < q[head].1 {
            let s = choose|s: Seq<Position>| is_step_path(step, s) && s[0] == start
                && s[s.len() - 1].row == goal_row && s.len() == d + 1;
            lemma_path_entries(step, q, head, s, d);
            let j = choose|j: int| 0 <= j < q.len()
                && (#[trigger] q[j]).0 == s[d] && q[j].1 <= d;
            assert(0 <= j < head) by {
                if j >= head {
                    assert(q[head].1 <= q[j].1);
                }
            }
            assert(q[j].0.row != goal_row);
            assert(false);
        }
    }
}

/// When the traversal has processed every discovered cell and none lay on
/// the goal row, no walk from the start reaches the goal row at all.
proof fn lemma_unreached_at_exit(step: spec_fn(Position, Position) -> bool, q: Seq<(Position, i32)>, vis: Seq<bool>, start: Position, goal_row: int)
    requires
        vis.len() == 81,
        start.in_bounds(),
        vis[cell_idx(start)],
        forall|c: Position| #![trigger cell_idx(c)] c.in_bounds() && vis[cell_idx(c)]
            ==> exists|i: int| 0 <= i < q.len() && (#[trigger] q[i]).0 == c,
        forall|i: int, n: Position| #![trigger q[i], cell_idx(n)]
            0 <= i < q.len() && n.in_bounds() && step((q[i]).0, n) ==> vis[cell_idx(n)],
        forall|i: int| 0 <= i < q.len() ==> (#[trigger] q[i]).0.row != goal_row,
    ensures
        !reaches_row(step, start, goal_row),
        forall|d: int| !reaches_row_in(step, start, goal_row, d),
{
    if reaches_row(step, start, goal_row) {
        let s = choose|s: Seq<Position>| is_step_path(step, s) && s[0] == start
            && s[s.len() - 1].row == goal_row;
        let vis_set = Set::new(|c: Position| c.in_bounds() && vis[cell_idx(c)]);
        assert(vis_set.contains(start));
        assert forall|c: Position, n: Position|
            vis_set.contains(c) && n.in_bounds() && #[trigger] step(c, n)
            implies vis_set.contains(n) by {
            assert(cell_idx(c) == cell_idx(c));
            let i = choose|i: int| 0 <= i < q.len() && (#[trigger] q[i]).0 == c;
            assert(vis[cell_idx(n)]);
        }
        lemma_closed_path(step, vis_set, s);
        let last = s[s.len() - 1];
        assert(vis_set.contains(last));
        assert(cell_idx(last) == cell_idx(last));
        let j = choose|j: int| 0 <= j < q.len() && (#[trigger] q[j]).0 == last;
        assert(q[j].0.row != goal_row);
        assert(false);
    }
    assert forall|d: int| !reaches_row_in(step, start, goal_row, d) by {
        if reaches_row_in(step, start, goal_row, d) {
            let s = choose|s: Seq<Position>| is_step_path(step, s) && s[0] == start
                && s[s.len() - 1].row == goal_row && s.len() == d + 1;
            assert(is_step_path(step, s) && s[0] == start && s[s.len() - 1].row == goal_row);
            assert(reaches_row(step, start, goal_row));
        }
    }
}

/// The minimum number of token moves from `start` to any cell of row
/// `goal_row`, counting jump and diagonal moves past `opponent`; 99 when no
/// such route exists: below the sentinel, the result is the length of a
/// route and no route is shorter.
#[verifier::loop_isolation(false)]
#[verifier::rlimit(100)]
#[verifier::spinoff_prover]
pub fn shortest_path(start: Position, goal_row: i32, edges: &EdgeSet, opponent: Option<Position>) -> (r: i32)
    requires
        start.in_bounds(),
        edges.wf(),
    ensures
        0 <= r <= 99,
        (r == 0) <==> (start.row == goal_row),
        r < 99 ==> reaches_row_in(move_step(opp_of(opponent), edges.rel()), start, goal_row as int, r as int),
        (r < 99) == reaches_row(move_step(opp_of(opponent), edges.rel()), start, goal_row as int),
        forall|d: int| reaches_row_in(move_step(opp_of(opponent), edges.rel()), start, goal_row as int, d)
            ==> r as int <= d,
{
    let opp = match opponent {
        Option::Some(p) => p,
        Option::None => Position { row: -1, col: -1 },
    };
    let ghost step = move_step(opp, edges.rel());
    let mut visited: Vec<bool> = vec![false; 81];
    let mut queue: Vec<(Position, i32)> = Vec::new();
    let si = cell_index(start);
    visited[si] = true;
    queue.push((start, 0));
    proof {
        lemma_reaches_self(step, start);
        assert forall|c: Position| #![trigger cell_idx(c)] c.in_bounds() && visited@[cell_idx(c)]
            implies exists|i: int| 0 <= i < queue@.len() && (#[trigger] queue@[i]).0 == c by {
            assert(c == start);
            assert(queue@[0].0 == start);
        }
        assert(dist_inv(queue@, visited@, start, step));
    }
    let mut head: usize = 0;
    #[verifier::loop_isolation(true)]
    while head < queue.len()
        invariant
            edges.wf(),
            start.in_bounds(),
            opp == opp_of(opponent),
            step == move_step(opp, edges.rel()),
            dist_inv(queue@, visited@, start, step),
            head <= queue@.len(),
            start.row == goal_row ==> head == 0,
            forall|i: int| 0 <= i < head ==> (#[trigger] queue@[i]).0.row != goal_row,
            forall|i: int, n: Position| #![trigger queue@[i], cell_idx(n)]
                0 <= i < head && n.in_bounds() && step((queue@[i]).0, n) ==> visited@[cell_idx(n)],
            head < queue@.len()
                ==> queue@[queue@.len() - 1].1 <= queue@[head as int].1 + 1,
            forall|i: int, n: Position| 0 <= i < head && n.in_bounds() && #[trigger] step((queue@[i]).0, n)
                ==> has_entry_within(queue@, n, (queue@[i]).1 + 1),
        decreases 81 - head,
    {
        let (node, dist) = queue[head];
        if node.row == goal_row {
            proof {
                lemma_reaches_cell_in_row(step, start, node, dist as int);
                lemma_min_at_goal(step, queue@, head as int, start, goal_row as int);
            }
            return dist;
        }
        let ghost q0 = queue@;
        let ghost v0 = visited@;
        proof {
            assert(reaches_cell_in(step, start, node, dist as int));
            assert(0 <= dist <= head);
        }
        let nexts = get_valid_pawn_moves(node, opp, edges);
        let mut k: usize = 0;
        while k < nexts.len()
            invariant
                dist_inv(queue@, visited@, start, step),
                k <= nexts@.len(),
                q0.is_prefix_of(queue@),
                queue@.len() >= q0.len(),
                queue@[head as int] == q0[head as int],
                queue@[queue@.len() - 1].1 <= dist + 1,
                forall|t: int| 0 <= t < 81 && v0[t] ==> visited@[t],
                forall|j: int| #![trigger nexts@[j]] 0 <= j < k ==> visited@[cell_idx(nexts@[j])],
                forall|j: int| #![trigger nexts@[j]] 0 <= j < k
                    ==> has_entry_within(queue@, nexts@[j], dist as int + 1),
                forall|i: int, n: Position| 0 <= i < head && n.in_bounds() && #[trigger] step((queue@[i]).0, n)
                    ==> has_entry_within(queue@, n, (queue@[i]).1 + 1),
            decreases nexts@.len() - k,
        {
            let m = nexts[k];
            let ghost qk = queue@;
            let ghost vk = visited@;
            proof {
                assert(nexts@.contains(nexts@[k as int]));
                assert(is_valid_pawn_move(node, opp, edges.rel(), m));
                assert(step(node, m));
            }
            let mi = cell_index(m);
            if !visited[mi] {
                visited[mi] = true;
                queue.push((m, dist + 1));
                proof {
                    lemma_reaches_extend(step, start, node, dist as int, m);
                    assert forall|i: int, j: int| 0 <= i < j < queue@.len()
                        implies (#[trigger] queue@[i]).0 != (#[trigger] queue@[j]).0 by {
                        if j == qk.len() {
                            assert(vk[cell_idx(qk[i].0)]);
                        }
                    }
                    assert forall|c: Position| #![trigger cell_idx(c)] c.in_bounds() && visited@[cell_idx(c)]
                        implies exists|i: int| 0 <= i < queue@.len() && (#[trigger] queue@[i]).0 == c by {
                        if vk[cell_idx(c)] {
                            let i = choose|i: int| 0 <= i < qk.len() && (#[trigger] qk[i]).0 == c;
                            assert(queue@[i].0 == c);
                        } else {
                            assert(cell_idx(c) == cell_idx(m));
                            assert(c == m);
                            assert(queue@[qk.len() as int].0 == m);
                        }
                    }
                    lemma_dist_queue_bound(queue@);
                    assert(qk.is_prefix_of(queue@));
                    assert forall|i: int, j: int| 0 <= i < j < queue@.len()
                        implies (#[trigger] queue@[i]).1 <= (#[trigger] queue@[j]).1 by {
                        if j == qk.len() && i < qk.len() - 1 {
                            assert(qk[i].1 <= qk[qk.len() - 1].1);
                        }
                    }
                    assert(dist_inv(queue@, visited@, start, step));
                }
            }
            proof {
                assert(qk.is_prefix_of(queue@));
                assert forall|j: int| #![trigger nexts@[j]] 0 <= j < k + 1
                    implies has_entry_within(queue@, nexts@[j], dist as int + 1) by {
                    if j < k {
                        lemma_entry_prefix(qk, queue@, nexts@[j], dist as int + 1);
                    } else {
                        if vk[cell_idx(m)] {
                            let jn = choose|jn: int| 0 <= jn < qk.len() && (#[trigger] qk[jn]).0 == m;
                            assert(qk[jn].1 <= dist + 1) by {
                                if jn < qk.len() - 1 {
                                    assert(qk[jn].1 <= qk[qk.len() - 1].1);
                                }
                            }
                            lemma_entry_prefix(qk, queue@, m, dist as int + 1);
                        } else {
                            assert(queue@[qk.len() as int] == (m, (dist + 1) as i32));
                        }
                    }
                }
                assert forall|i: int, n: Position|
                    0 <= i < head && n.in_bounds() && #[trigger] step((queue@[i]).0, n)
                    implies has_entry_within(queue@, n, (queue@[i]).1 + 1) by {
                    assert(queue@[i] == qk[i]);
                    assert(has_entry_within(qk, n, (qk[i]).1 + 1));
                    lemma_entry_prefix(qk, queue@, n, (qk[i]).1 + 1);
                }
            }
            k = k + 1;
        }
        proof {
            assert forall|n: Position| n.in_bounds() && step(node, n)
                implies visited@[cell_idx(n)] by {
                assert(is_valid_pawn_move(node, opp, edges.rel(), n));
                assert(nexts@.contains(n));
                let j = choose|j: int| 0 <= j < nexts@.len() && nexts@[j] == n;
            }
            assert forall|i: int, n: Position| #![trigger queue@[i], cell_idx(n)]
                0 <= i < head + 1 && n.in_bounds() && step((queue@[i]).0, n)
                implies visited@[cell_idx(n)] by {
                if i < head {
                    assert(queue@[i] == q0[i]);
                    assert(v0[cell_idx(n)]);
                } else {
                    assert(queue@[i] == q0[head as int]);
                    assert(queue@[i].0 == node);
                }
            }
            assert forall|i: int| 0 <= i < head + 1 implies (#[trigger] queue@[i]).0.row != goal_row by {
                if i < head {
                    assert(queue@[i] == q0[i]);
                } else {
                    assert(queue@[i] == q0[head as int]);
                }
            }
            assert forall|i: int, n: Position|
                0 <= i < head + 1 && n.in_bounds() && #[trigger] step((queue@[i]).0, n)
                implies has_entry_within(queue@, n, (queue@[i]).1 + 1) by {
                if i == head {
                    assert(queue@[i] == q0[head as int]);
                    assert(queue@[i].0 == node && queue@[i].1 == dist);
                    assert(is_valid_pawn_move(node, opp, edges.rel(), n));
                    assert(nexts@.contains(n));
                    let j = choose|j: int| 0 <= j < nexts@.len() && nexts@[j] == n;
                    assert(has_entry_within(queue@, nexts@[j], dist as int + 1));
                }
            }
        }
        head = head + 1;
    }
    proof {
        assert(cell_idx(start) == cell_idx(start));
        lemma_unreached_at_exit(step, queue@, visited@, start, goal_row as int);
    }
    99
}

} // verus!
