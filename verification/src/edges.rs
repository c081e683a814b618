//! The blocked-edge set: which cell-to-cell edges are severed by walls.
//!
//! An edge is an unordered pair of adjacent cells.  The set is held as a flat
//! boolean table indexed by a canonical encoding of the pair, and is rebuilt
//! from the wall list whenever needed.

use vstd::prelude::*;
use crate::board::{Position, Wall, Orientation, wall_in_bounds};

verus! {

/// The index of a cell in row-major order, in `[0, 81)` for cells on the board.
pub open spec fn cell_idx(p: Position) -> int {
    p.row * 9 + p.col
}

/// A canonical index for the unordered pair `{a, b}`, in `[0, 6561)` for
/// cells on the board.
pub open spec fn pair_idx(a: Position, b: Position) -> int {
    if cell_idx(a) <= cell_idx(b) {
        cell_idx(a) * 81 + cell_idx(b)
    } else {
        cell_idx(b) * 81 + cell_idx(a)
    }
}

/// True when `{a, b}` and `{c, d}` are the same unordered pair.
pub open spec fn same_edge(a: Position, b: Position, c: Position, d: Position) -> bool {
    (a == c && b == d) || (a == d && b == c)
}

/// Two cells on the board with equal pair indices form the same unordered pair.
pub proof fn lemma_pair_idx_injective(a: Position, b: Position, c: Position, d: Position)
    requires
        a.in_bounds(),
        b.in_bounds(),
        c.in_bounds(),
        d.in_bounds(),
        pair_idx(a, b) == pair_idx(c, d),
    ensures
        same_edge(a, b, c, d),
{
    assert(0 <= cell_idx(a) < 81);
    assert(0 <= cell_idx(b) < 81);
    assert(0 <= cell_idx(c) < 81);
    assert(0 <= cell_idx(d) < 81);
    // The low and high cell indices of a pair are recoverable from the pair
    // index, and a cell is recoverable from its cell index.
    assert(cell_idx(a) == cell_idx(c) ==> a == c);
    assert(cell_idx(a) == cell_idx(d) ==> a == d);
    assert(cell_idx(b) == cell_idx(c) ==> b == c);
    assert(cell_idx(b) == cell_idx(d) ==> b == d);
}

/// The set of blocked edges, as a flat table over canonical pair indices.
pub struct EdgeSet {
    pub table: Vec<bool>,
}

impl EdgeSet {
    /// The table covers every pair of cells on the board.
    pub open spec fn wf(self) -> bool {
        self.table@.len() == 6561
    }

    /// True when the edge `{a, b}` is blocked.
    pub open spec fn spec_blocked(self, a: Position, b: Position) -> bool {
        self.table@[pair_idx(a, b)]
    }

    /// The blocking relation as a function value, for use in path
    /// specifications.
    pub open spec fn rel(self) -> spec_fn(Position, Position) -> bool {
        |a: Position, b: Position| self.spec_blocked(a, b)
    }

    /// An edge set with nothing blocked.
    pub fn empty() -> (r: EdgeSet)
        ensures
            r.wf(),
            forall|a: Position, b: Position| a.in_bounds() && b.in_bounds()
                ==> !(#[trigger] r.spec_blocked(a, b)),
    {
        let table: Vec<bool> = vec![false; 6561];
        let r = EdgeSet { table };
        proof {
            assert forall|a: Position, b: Position| a.in_bounds() && b.in_bounds()
                implies !(#[trigger] r.spec_blocked(a, b)) by {
                assert(0 <= pair_idx(a, b) < 6561);
            }
        }
        r
    }

    /// True when the edge `{a, b}` is blocked.
    pub fn contains_edge(&self, a: Position, b: Position) -> (r: bool)
        requires
            self.wf(),
            a.in_bounds(),
            b.in_bounds(),
        ensures
            r == self.spec_blocked(a, b),
    {
        let ia = cell_index(a);
        let ib = cell_index(b);
        let key: usize = if ia <= ib { ia * 81 + ib } else { ib * 81 + ia };
        self.table[key]
    }

    /// Blocks the edge `{a, b}`; every other edge keeps its state.
    pub fn block(&mut self, a: Position, b: Position)
        requires
            old(self).wf(),
            a.in_bounds(),
            b.in_bounds(),
        ensures
            final(self).wf(),
            forall|x: Position, y: Position| x.in_bounds() && y.in_bounds()
                ==> (#[trigger] final(self).spec_blocked(x, y)
                    <==> (old(self).spec_blocked(x, y) || pair_idx(x, y) == pair_idx(a, b))),
    {
        let ia = cell_index(a);
        let ib = cell_index(b);
        let key: usize = if ia <= ib { ia * 81 + ib } else { ib * 81 + ia };
        self.table[key] = true;
        proof {
            assert forall|x: Position, y: Position| x.in_bounds() && y.in_bounds()
                implies (#[trigger] self.spec_blocked(x, y)
                    <==> (old(self).spec_blocked(x, y) || pair_idx(x, y) == pair_idx(a, b))) by {
                assert(0 <= pair_idx(x, y) < 6561);
            }
        }
    }
}

/// The row-major index of a cell on the board.
pub fn cell_index(p: Position) -> (r: usize)
    requires
        p.in_bounds(),
    ensures
        r == cell_idx(p),
        r < 81,
{
    (p.row * 9 + p.col) as usize
}

/// A position built from coordinates known to be small, at the
/// specification level.
pub open spec fn pos_at(r: int, c: int) -> Position {
    Position { row: r as i32, col: c as i32 }
}

/// The first of the two edges a wall severs.  A horizontal wall severs the
/// vertical edge below its top-left corner; a vertical wall severs the
/// horizontal edge to the right of its top-left corner.
pub open spec fn wall_edge_a(w: Wall) -> (Position, Position) {
    match w.orientation {
        Orientation::Horizontal => (pos_at(w.row as int, w.col as int), pos_at(w.row + 1, w.col as int)),
        Orientation::Vertical => (pos_at(w.row as int, w.col as int), pos_at(w.row as int, w.col + 1)),
    }
}

/// The second of the two edges a wall severs.
pub open spec fn wall_edge_b(w: Wall) -> (Position, Position) {
    match w.orientation {
        Orientation::Horizontal => (pos_at(w.row as int, w.col + 1), pos_at(w.row + 1, w.col + 1)),
        Orientation::Vertical => (pos_at(w.row + 1, w.col as int), pos_at(w.row + 1, w.col + 1)),
    }
}

/// True when the wall severs the unordered edge `{a, b}`.
pub open spec fn wall_blocks(w: Wall, a: Position, b: Position) -> bool {
    ||| same_edge(a, b, wall_edge_a(w).0, wall_edge_a(w).1)
    ||| same_edge(a, b, wall_edge_b(w).0, wall_edge_b(w).1)
}

/// True when some wall of the list severs the unordered edge `{a, b}`.
pub open spec fn walls_block(ws: Seq<Wall>, a: Position, b: Position) -> bool {
    exists|i: int| 0 <= i < ws.len() && wall_blocks(#[trigger] ws[i], a, b)
}

/// The blocking relation of a wall list, as a function value.
pub open spec fn walls_rel(ws: Seq<Wall>) -> spec_fn(Position, Position) -> bool {
    |a: Position, b: Position| walls_block(ws, a, b)
}

/// Appending a wall blocks exactly the old edges plus the new wall's own.
pub proof fn lemma_walls_block_push(ws: Seq<Wall>, w: Wall, a: Position, b: Position)
    ensures
        walls_block(ws.push(w), a, b) <==> (walls_block(ws, a, b) || wall_blocks(w, a, b)),
{
    if walls_block(ws.push(w), a, b) {
        let i = choose|i: int| 0 <= i < ws.push(w).len() && wall_blocks(#[trigger] ws.push(w)[i], a, b);
        if i < ws.len() {
            assert(ws.push(w)[i] == ws[i]);
            assert(walls_block(ws, a, b));
        } else {
            assert(ws.push(w)[i] == w);
        }
    }
    if walls_block(ws, a, b) {
        let i = choose|i: int| 0 <= i < ws.len() && wall_blocks(#[trigger] ws[i], a, b);
        assert(ws.push(w)[i] == ws[i]);
        assert(walls_block(ws.push(w), a, b));
    }
    if wall_blocks(w, a, b) {
        assert(ws.push(w)[ws.len() as int] == w);
        assert(walls_block(ws.push(w), a, b));
    }
}

/// Adds the two edges of a wall to the edge set.
pub fn add_wall_edges(es: &mut EdgeSet, w: &Wall)
    requires
        old(es).wf(),
        wall_in_bounds(*w),
    ensures
        final(es).wf(),
        forall|x: Position, y: Position| x.in_bounds() && y.in_bounds()
            ==> (#[trigger] final(es).spec_blocked(x, y)
                <==> (old(es).spec_blocked(x, y) || wall_blocks(*w, x, y))),
{
    let top_left = Position { row: w.row, col: w.col };
    let top_right = Position { row: w.row, col: w.col + 1 };
    let bottom_left = Position { row: w.row + 1, col: w.col };
    let bottom_right = Position { row: w.row + 1, col: w.col + 1 };
    let (a0, a1, b0, b1) = match w.orientation {
        Orientation::Horizontal => (top_left, bottom_left, top_right, bottom_right),
        Orientation::Vertical => (top_left, top_right, bottom_left, bottom_right),
    };
    proof {
        assert((a0, a1) == wall_edge_a(*w));
        assert((b0, b1) == wall_edge_b(*w));
    }
    es.block(a0, a1);
    es.block(b0, b1);
    proof {
        assert forall|x: Position, y: Position| x.in_bounds() && y.in_bounds()
            implies (#[trigger] es.spec_blocked(x, y)
                <==> (old(es).spec_blocked(x, y) || wall_blocks(*w, x, y))) by {
            if pair_idx(x, y) == pair_idx(a0, a1) {
                lemma_pair_idx_injective(x, y, a0, a1);
            }
            if pair_idx(x, y) == pair_idx(b0, b1) {
                lemma_pair_idx_injective(x, y, b0, b1);
            }
            if same_edge(x, y, a0, a1) {
                assert(pair_idx(x, y) == pair_idx(a0, a1));
            }
            if same_edge(x, y, b0, b1) {
                assert(pair_idx(x, y) == pair_idx(b0, b1));
            }
        }
    }
}

/// Rebuilds the blocked-edge set of a wall list: an edge is blocked exactly
/// when some wall of the list severs it.
pub fn build_blocked_edges(walls: &Vec<Wall>) -> (es: EdgeSet)
    requires
        forall|i: int| 0 <= i < walls@.len() ==> wall_in_bounds(#[trigger] walls@[i]),
    ensures
        es.wf(),
        forall|a: Position, b: Position| a.in_bounds() && b.in_bounds()
            ==> (#[trigger] es.spec_blocked(a, b) <==> walls_block(walls@, a, b)),
{
    let mut es = EdgeSet::empty();
    let mut i: usize = 0;
    while i < walls.len()
        invariant
            i <= walls.len(),
            es.wf(),
            forall|k: int| 0 <= k < walls@.len() ==> wall_in_bounds(#[trigger] walls@[k]),
            forall|a: Position, b: Position| a.in_bounds() && b.in_bounds()
                ==> (#[trigger] es.spec_blocked(a, b) <==> walls_block(walls@.subrange(0, i as int), a, b)),
        decreases walls.len() - i,
    {
        let ghost prefix = walls@.subrange(0, i as int);
        add_wall_edges(&mut es, &walls[i]);
        proof {
            assert(walls@.subrange(0, i as int + 1) =~= prefix.push(walls@[i as int]));
            assert forall|a: Position, b: Position| a.in_bounds() && b.in_bounds()
                implies (#[trigger] es.spec_blocked(a, b)
                    <==> walls_block(walls@.subrange(0, i as int + 1), a, b)) by {
                lemma_walls_block_push(prefix, walls@[i as int], a, b);
            }
        }
        i = i + 1;
    }
    proof {
        assert(walls@.subrange(0, walls@.len() as int) =~= walls@);
    }
    es
}

} // verus!
