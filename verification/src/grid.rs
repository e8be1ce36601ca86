//! The reward grid: a square table of rewards and the moves between its cells.

use vstd::prelude::*;

verus! {

/// A grid position, `(row, col)`.
pub type Position = (usize, usize);

/// The rewards of a grid, row by row.
pub type Rewards = Seq<Seq<u32>>;

/// `g` has `n` rows of `n` rewards each.
pub open spec fn is_square(g: Rewards, n: nat) -> bool {
    &&& g.len() == n
    &&& forall|i: int| 0 <= i < n ==> (#[trigger] g[i]).len() == n
}

/// `p` names a cell of a grid of side `n`.
pub open spec fn in_bounds(n: nat, p: Position) -> bool {
    p.0 < n && p.1 < n
}

/// The reward held at `p`.
pub open spec fn reward_at(g: Rewards, p: Position) -> u32 {
    g[p.0 as int][p.1 as int]
}

/// The grid after the reward at `p` has been collected: that cell holds 0,
/// every other cell is unchanged.
pub open spec fn visited(g: Rewards, p: Position) -> Rewards {
    g.update(p.0 as int, g[p.0 as int].update(p.1 as int, 0u32))
}

/// A reward after one step of recovery at `rate`. A reward that would pass
/// `u32::MAX` stays there.
pub open spec fn recover_value(v: u32, rate: u32) -> u32 {
    if v + rate > u32::MAX {
        u32::MAX
    } else {
        (v + rate) as u32
    }
}

/// The grid after one step of recovery: every cell but `except` gains `rate`.
pub open spec fn recovered(g: Rewards, rate: u32, except: Position) -> Rewards {
    Seq::new(
        g.len(),
        |i: int|
            Seq::new(
                g[i].len(),
                |j: int|
                    if i == except.0 && j == except.1 {
                        g[i][j]
                    } else {
                        recover_value(g[i][j], rate)
                    },
            ),
    )
}

/// Two cells are adjacent when they differ and lie within one row and one
/// column of each other (the Moore neighbourhood).
pub open spec fn adjacent(a: Position, b: Position) -> bool {
    &&& a != b
    &&& -1 <= b.0 - a.0 <= 1
    &&& -1 <= b.1 - a.1 <= 1
}

/// The `k`-th of the eight moves, as `(row offset, column offset)`, in
/// row-major order: up-left first, down-right last.
pub open spec fn move_offset(k: int) -> (int, int) {
    if k == 0 {
        (-1, -1)
    } else if k == 1 {
        (-1, 0)
    } else if k == 2 {
        (-1, 1)
    } else if k == 3 {
        (0, -1)
    } else if k == 4 {
        (0, 1)
    } else if k == 5 {
        (1, -1)
    } else if k == 6 {
        (1, 0)
    } else {
        (1, 1)
    }
}

/// `p` is where the `k`-th move leads from `u`.
pub open spec fn is_move(u: Position, k: int, p: Position) -> bool {
    p.0 == u.0 + move_offset(k).0 && p.1 == u.1 + move_offset(k).1
}

/// The cell that the `k`-th move leads to from `u`, where there is one.
pub open spec fn move_target(u: Position, k: int) -> Position {
    ((u.0 + move_offset(k).0) as usize, (u.1 + move_offset(k).1) as usize)
}

/// The cells of a grid of side `n` that the first `k` moves reach from `u`,
/// in the order of the moves.
pub open spec fn reached_by(n: nat, u: Position, k: nat) -> Seq<Position>
    decreases k,
{
    if k == 0 {
        Seq::empty()
    } else {
        let rest = reached_by(n, u, (k - 1) as nat);
        let p = move_target(u, k - 1);
        if is_move(u, k - 1, p) && in_bounds(n, p) {
            rest.push(p)
        } else {
            rest
        }
    }
}

/// The neighbours of `u` in a grid of side `n`, in row-major order.
pub open spec fn neighbors(n: nat, u: Position) -> Seq<Position> {
    reached_by(n, u, 8)
}

/// What holds of `reached_by` after any number of moves.
proof fn lemma_reached_by(n: nat, u: Position, k: nat)
    requires
        k <= 8,
    ensures
        reached_by(n, u, k).len() <= k,
        forall|p: Position|
            #[trigger] reached_by(n, u, k).contains(p) <==> in_bounds(n, p) && exists|m: int|
                0 <= m < k && #[trigger] is_move(u, m, p),
        forall|a: int, b: int|
            0 <= a < b < reached_by(n, u, k).len() ==> row_major_less(
                #[trigger] reached_by(n, u, k)[a],
                #[trigger] reached_by(n, u, k)[b],
            ),
    decreases k,
{
    if k > 0 {
        let km = (k - 1) as nat;
        lemma_reached_by(n, u, km);
        let rest = reached_by(n, u, km);
        let cur = reached_by(n, u, k);
        let t = move_target(u, k - 1);
        let hit = is_move(u, k - 1, t) && in_bounds(n, t);
        assert(cur == if hit { rest.push(t) } else { rest });
        assert forall|p: Position| cur.contains(p) implies in_bounds(n, p) && exists|m: int|
            0 <= m < k && #[trigger] is_move(u, m, p) by {
            let a = choose|a: int| 0 <= a < cur.len() && cur[a] == p;
            if a < rest.len() {
                assert(rest[a] == p);
                assert(rest.contains(p));
                let m = choose|m: int| 0 <= m < km && #[trigger] is_move(u, m, p);
                assert(0 <= m < k && is_move(u, m, p));
            } else {
                assert(p == t);
                assert(is_move(u, k - 1, p));
            }
        }
        assert forall|p: Position|
            in_bounds(n, p) && (exists|m: int|
                0 <= m < k && #[trigger] is_move(u, m, p)) implies cur.contains(p) by {
            let m = choose|m: int| 0 <= m < k && #[trigger] is_move(u, m, p);
            if m < km {
                assert(rest.contains(p));
                let a = choose|a: int| 0 <= a < rest.len() && rest[a] == p;
                assert(cur[a] == p);
            } else {
                assert(p == t);
                assert(cur[cur.len() - 1] == p);
            }
        }
        assert forall|a: int, b: int| 0 <= a < b < cur.len() implies row_major_less(
            #[trigger] cur[a],
            #[trigger] cur[b],
        ) by {
            if b < rest.len() {
                assert(cur[a] == rest[a] && cur[b] == rest[b]);
            } else {
                assert(cur[a] == rest[a]);
                assert(rest.contains(rest[a]));
                let m = choose|m: int| 0 <= m < km && #[trigger] is_move(u, m, rest[a]);
                assert(0 <= m < k - 1);
                assert(cur[b] == t);
            }
        }
    }
}

/// `a` comes before `b` when the cells are read row by row.
pub open spec fn row_major_less(a: Position, b: Position) -> bool {
    a.0 < b.0 || (a.0 == b.0 && a.1 < b.1)
}

/// The neighbours of a cell are exactly the cells of the grid adjacent to it:
/// each lies within bounds, none is the cell itself, there are at most eight
/// of them, and they are listed row by row without repetition.
pub proof fn lemma_neighbors(n: nat, u: Position)
    ensures
        neighbors(n, u).len() <= 8,
        forall|p: Position|
            #[trigger] neighbors(n, u).contains(p) <==> in_bounds(n, p) && adjacent(u, p),
        forall|k: int|
            0 <= k < neighbors(n, u).len() ==> in_bounds(n, #[trigger] neighbors(n, u)[k])
                && adjacent(u, neighbors(n, u)[k]),
        forall|a: int, b: int|
            0 <= a < b < neighbors(n, u).len() ==> row_major_less(
                #[trigger] neighbors(n, u)[a],
                #[trigger] neighbors(n, u)[b],
            ),
        neighbors(n, u).no_duplicates(),
{
    lemma_reached_by(n, u, 8);
    let ns = neighbors(n, u);
    assert forall|p: Position| in_bounds(n, p) && adjacent(u, p) implies ns.contains(p) by {
        let di = p.0 - u.0;
        let dj = p.1 - u.1;
        let m: int = if di == -1 {
            dj + 1
        } else if di == 0 {
            if dj == -1 {
                3
            } else {
                4
            }
        } else {
            dj + 6
        };
        assert(0 <= m < 8 && is_move(u, m, p));
    }
    assert forall|p: Position| ns.contains(p) implies in_bounds(n, p) && adjacent(u, p) by {
        let m = choose|m: int| 0 <= m < 8 && #[trigger] is_move(u, m, p);
    }
    assert forall|a: int, b: int| 0 <= a < ns.len() && 0 <= b < ns.len() && a != b implies ns[a]
        != ns[b] by {
        if a < b {
            assert(row_major_less(ns[a], ns[b]));
        } else {
            assert(row_major_less(ns[b], ns[a]));
        }
    }
    assert forall|k: int| 0 <= k < ns.len() implies in_bounds(n, #[trigger] ns[k]) && adjacent(
        u,
        ns[k],
    ) by {
        assert(ns.contains(ns[k]));
    }
}

/// Moves the coordinate `x` by `d`, one of -1, 0 and 1, where the result is a
/// coordinate at all.
fn shifted(x: usize, d: i8) -> (r: Option<usize>)
    requires
        -1 <= d <= 1,
    ensures
        match r {
            Some(y) => y == x + d,
            None => x + d < 0 || x + d > usize::MAX,
        },
{
    if d == -1 {
        if x == 0 {
            None
        } else {
            Some(x - 1)
        }
    } else if d == 1 {
        if x == usize::MAX {
            None
        } else {
            Some(x + 1)
        }
    } else {
        Some(x)
    }
}

/// The row and column offsets of the `k`-th move.
fn offset_of(k: usize) -> (d: (i8, i8))
    requires
        k < 8,
    ensures
        d.0 == move_offset(k as int).0,
        d.1 == move_offset(k as int).1,
{
    let dr: i8 = if k < 3 {
        -1
    } else if k < 5 {
        0
    } else {
        1
    };
    let dc: i8 = if k == 0 || k == 3 || k == 5 {
        -1
    } else if k == 1 || k == 6 {
        0
    } else {
        1
    };
    (dr, dc)
}

/// A square grid of rewards.
pub struct Graph {
    nodes: Vec<Vec<u32>>,
    size: usize,
}

impl View for Graph {
    type V = Rewards;

    /// The rewards that the graph holds, row by row.
    closed spec fn view(&self) -> Rewards {
        Seq::new(self.nodes.len() as nat, |i: int| self.nodes[i]@)
    }
}

impl Graph {
    /// The side length of the grid.
    pub closed spec fn spec_size(&self) -> nat {
        self.size as nat
    }

    /// The grid is square, with side `spec_size()`.
    pub open spec fn wf(&self) -> bool {
        is_square(self@, self.spec_size())
    }

    /// Creates a new graph with the given size, every reward 0.
    pub fn new(size: usize) -> (g: Graph)
        ensures
            g.wf(),
            g.spec_size() == size,
            forall|i: int, j: int| 0 <= i < size && 0 <= j < size ==> #[trigger] g@[i][j] == 0,
    {
        let mut nodes: Vec<Vec<u32>> = Vec::new();
        let mut i: usize = 0;
        while i < size
            invariant
                i <= size,
                nodes.len() == i,
                forall|k: int| 0 <= k < i ==> (#[trigger] nodes[k]).len() == size,
                forall|k: int, j: int| 0 <= k < i && 0 <= j < size ==> #[trigger] nodes[k][j] == 0,
            decreases size - i,
        {
            let mut row: Vec<u32> = Vec::new();
            let mut j: usize = 0;
            while j < size
                invariant
                    j <= size,
                    row.len() == j,
                    forall|k: int| 0 <= k < j ==> #[trigger] row[k] == 0,
                decreases size - j,
            {
                row.push(0);
                j += 1;
            }
            nodes.push(row);
            i += 1;
        }
        Graph { nodes, size }
    }

    /// The graph that holds the rewards `rows`.
    pub(crate) fn from_rows(rows: Vec<Vec<u32>>) -> (g: Graph)
        requires
            forall|i: int| 0 <= i < rows.len() ==> (#[trigger] rows[i]).len() == rows.len(),
        ensures
            g.wf(),
            g.spec_size() == rows.len(),
            g@ == Seq::new(rows.len() as nat, |i: int| rows[i]@),
    {
        let size = rows.len();
        Graph { nodes: rows, size }
    }

    /// Mutates the existing graph to add a node with the given score.
    pub fn add_node(&mut self, u: Position, score: u32)
        requires
            old(self).wf(),
            in_bounds(old(self).spec_size(), u),
        ensures
            final(self).wf(),
            final(self).spec_size() == old(self).spec_size(),
            final(self)@ == old(self)@.update(
                u.0 as int,
                old(self)@[u.0 as int].update(u.1 as int, score),
            ),
    {
        assert(self@[u.0 as int] == self.nodes[u.0 as int]@);
        self.nodes[u.0][u.1] = score;
        assert(self@ =~= old(self)@.update(
            u.0 as int,
            old(self)@[u.0 as int].update(u.1 as int, score),
        ));
    }

    /// Returns the score of the node at the given position.
    pub fn get_score_at(&self, u: Position) -> (r: &u32)
        requires
            self.wf(),
            in_bounds(self.spec_size(), u),
        ensures
            *r == reward_at(self@, u),
    {
        assert(self@[u.0 as int] == self.nodes[u.0 as int]@);
        &self.nodes[u.0][u.1]
    }

    /// Returns the size of the graph.
    pub fn size(&self) -> (n: usize)
        ensures
            n == self.spec_size(),
    {
        self.size
    }

    /// Resets the score of the node at the given position to 0, in a copy of
    /// the graph.
    pub fn reset_score(&self, u: Position) -> (g: Graph)
        requires
            self.wf(),
            in_bounds(self.spec_size(), u),
        ensures
            g.wf(),
            g.spec_size() == self.spec_size(),
            g@ == visited(self@, u),
    {
        let mut graph = self.clone();
        graph.add_node(u, 0);
        graph
    }

    /// Gets the neighbors of a node at the given position, row by row.
    pub fn get_nodes_out(&self, u: Position) -> (r: Vec<Position>)
        ensures
            r@ == neighbors(self.spec_size(), u),
            r.len() <= 8,
            forall|k: int|
                0 <= k < r.len() ==> in_bounds(self.spec_size(), #[trigger] r[k]) && adjacent(
                    u,
                    r[k],
                ),
            forall|p: Position|
                #[trigger] r@.contains(p) <==> in_bounds(self.spec_size(), p) && adjacent(u, p),
            r@.no_duplicates(),
    {
        let size = self.size;
        let mut out: Vec<Position> = Vec::new();
        let mut k: usize = 0;
        while k < 8
            invariant
                k <= 8,
                size == self.spec_size(),
                out@ == reached_by(size as nat, u, k as nat),
            decreases 8 - k,
        {
            let (dr, dc) = offset_of(k);
            let row = shifted(u.0, dr);
            let col = shifted(u.1, dc);
            proof {
                let t = move_target(u, k as int);
                assert(is_move(u, k as int, t) <==> (row is Some && col is Some));
            }
            if let (Some(ni), Some(nj)) = (row, col) {
                if ni < size && nj < size {
                    out.push((ni, nj));
                }
            }
            k += 1;
        }
        proof {
            lemma_neighbors(size as nat, u);
        }
        out
    }

    /// Gets the neighbors of a cell of the grid, row by row, if it has any: a
    /// position outside the grid has none, and neither has the one cell of a
    /// grid of side 1.
    pub fn get_neighbors(&self, u: Position) -> (r: Option<Vec<Position>>)
        ensures
            match r {
                Some(cells) => in_bounds(self.spec_size(), u) && cells@ == neighbors(
                    self.spec_size(),
                    u,
                ) && cells.len() > 0,
                None => !in_bounds(self.spec_size(), u) || neighbors(self.spec_size(), u).len()
                    == 0,
            },
    {
        if u.0 < self.size && u.1 < self.size {
            let cells = self.get_nodes_out(u);
            if cells.len() > 0 {
                return Some(cells);
            }
        }
        None
    }

    /// Gets the nodes from which a move leads to the given position, row by
    /// row. These are its neighbours where it lies in the grid, and none
    /// where it does not.
    pub fn get_edges_in(&self, u: Position) -> (r: Vec<Position>)
        ensures
            r@ == if in_bounds(self.spec_size(), u) {
                neighbors(self.spec_size(), u)
            } else {
                Seq::<Position>::empty()
            },
            forall|p: Position|
                #[trigger] r@.contains(p) <==> in_bounds(self.spec_size(), p) && neighbors(
                    self.spec_size(),
                    p,
                ).contains(u),
    {
        let r = if u.0 < self.size && u.1 < self.size {
            self.get_nodes_out(u)
        } else {
            Vec::new()
        };
        proof {
            let n = self.spec_size();
            lemma_neighbors(n, u);
            assert forall|p: Position| #[trigger]
                r@.contains(p) <==> in_bounds(n, p) && neighbors(n, p).contains(u) by {
                lemma_neighbors(n, p);
            }
        }
        r
    }

    /// Recovers the graph for a given recovery rate, except for the given
    /// position, in a copy of the graph. A reward that would pass `u32::MAX`
    /// stays there.
    pub fn recover_for(&self, recovery_rate: u32, except: Position) -> (g: Graph)
        requires
            self.wf(),
        ensures
            g.wf(),
            g.spec_size() == self.spec_size(),
            g@ == recovered(self@, recovery_rate, except),
    {
        let size = self.size;
        let mut nodes: Vec<Vec<u32>> = Vec::new();
        let mut i: usize = 0;
        while i < size
            invariant
                i <= size,
                size == self.spec_size(),
                self.wf(),
                nodes.len() == i,
                forall|k: int|
                    0 <= k < i ==> (#[trigger] nodes[k])@ == recovered(
                        self@,
                        recovery_rate,
                        except,
                    )[k],
            decreases size - i,
        {
            assert(self@[i as int] == self.nodes[i as int]@);
            let mut row: Vec<u32> = Vec::new();
            let mut j: usize = 0;
            while j < size
                invariant
                    j <= size,
                    i < size,
                    size == self.spec_size(),
                    self.wf(),
                    self@[i as int] == self.nodes[i as int]@,
                    row.len() == j,
                    forall|k: int|
                        0 <= k < j ==> #[trigger] row[k] == recovered(
                            self@,
                            recovery_rate,
                            except,
                        )[i as int][k],
                decreases size - j,
            {
                let v = self.nodes[i][j];
                if i == except.0 && j == except.1 {
                    row.push(v);
                } else {
                    row.push(v.saturating_add(recovery_rate));
                }
                j += 1;
            }
            assert(row@ =~= recovered(self@, recovery_rate, except)[i as int]);
            nodes.push(row);
            i += 1;
        }
        let g = Graph { nodes, size };
        assert(g@ =~= recovered(self@, recovery_rate, except));
        g
    }
}

impl Clone for Graph {
    /// A graph of the same side with the same rewards.
    fn clone(&self) -> (g: Self)
        ensures
            g@ == self@,
            g.spec_size() == self.spec_size(),
    {
        let mut nodes: Vec<Vec<u32>> = Vec::new();
        let mut i: usize = 0;
        while i < self.nodes.len()
            invariant
                i <= self.nodes.len(),
                nodes.len() == i,
                forall|k: int| 0 <= k < i ==> (#[trigger] nodes[k])@ == self.nodes[k]@,
            decreases self.nodes.len() - i,
        {
            let src = &self.nodes[i];
            let mut row: Vec<u32> = Vec::new();
            let mut j: usize = 0;
            while j < src.len()
                invariant
                    j <= src.len(),
                    row.len() == j,
                    forall|k: int| 0 <= k < j ==> #[trigger] row[k] == src[k],
                decreases src.len() - j,
            {
                row.push(src[j]);
                j += 1;
            }
            assert(row@ =~= src@);
            nodes.push(row);
            i += 1;
        }
        let g = Graph { nodes, size: self.size };
        assert(g@ =~= self@);
        g
    }
}

} // verus!
