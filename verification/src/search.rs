//! The search engine: breadth-first search and Dijkstra search from the
//! designated start toward the designated end, over the neighbor rule, with
//! the overlay updated on every outcome.

use vstd::prelude::*;
use crate::app::{Adjacency, App};
use crate::grid::{Grid, PathError, cell_blocked, cell_weight, same_structure};
use crate::neighbors::{lemma_neighbors_pathable, neighbors_spec};
use crate::point::{Point, WeightedPoint};

verus! {

/// The flat index of `p` in a row-major table of side `n`.
pub open spec fn fidx(n: int, p: Point) -> int {
    p.x * n + p.y
}

/// Distinct in-bounds points have distinct flat indices.
proof fn lemma_fidx_inj(n: int, p: Point, q: Point)
    requires
        (p.x as int) < n,
        (p.y as int) < n,
        (q.x as int) < n,
        (q.y as int) < n,
        fidx(n, p) == fidx(n, q),
    ensures
        p == q,
{
    assert(p.x == q.x && p.y == q.y) by (nonlinear_arith)
        requires
            0 <= (p.x as int) < n,
            0 <= (p.y as int) < n,
            0 <= (q.x as int) < n,
            0 <= (q.y as int) < n,
            p.x as int * n + p.y as int == q.x as int * n + q.y as int,
    ;
}

/// Computes the flat index of an in-bounds point.
fn flat_index(n: usize, p: Point) -> (i: usize)
    requires
        p.x < n,
        p.y < n,
        n * n <= usize::MAX,
    ensures
        i == fidx(n as int, p),
        i < n * n,
{
    proof {
        crate::grid::lemma_flat_index(p.x as int, p.y as int, n as int);
    }
    p.x * n + p.y
}

/// How many entries of a table of marks are set.
pub open spec fn count_trues(s: Seq<bool>) -> int
    decreases s.len(),
{
    if s.len() == 0 {
        0
    } else {
        count_trues(s.drop_last()) + if s.last() {
            1int
        } else {
            0int
        }
    }
}

/// The number of set marks lies between zero and the table length.
proof fn lemma_count_trues_bound(s: Seq<bool>)
    ensures
        0 <= count_trues(s) <= s.len(),
    decreases s.len(),
{
    if s.len() > 0 {
        lemma_count_trues_bound(s.drop_last());
    }
}

/// Setting a clear mark raises the count by exactly one.
proof fn lemma_count_trues_set(s: Seq<bool>, i: int)
    requires
        0 <= i < s.len(),
        !s[i],
    ensures
        count_trues(s.update(i, true)) == count_trues(s) + 1,
    decreases s.len(),
{
    let t = s.update(i, true);
    if i == s.len() - 1 {
        assert(t.drop_last() =~= s.drop_last());
    } else {
        assert(t.drop_last() =~= s.drop_last().update(i, true));
        lemma_count_trues_set(s.drop_last(), i);
    }
}

/// A table with no set marks counts zero.
proof fn lemma_count_trues_none(s: Seq<bool>)
    requires
        forall|i: int| 0 <= i < s.len() ==> !s[i],
    ensures
        count_trues(s) == 0,
    decreases s.len(),
{
    if s.len() > 0 {
        lemma_count_trues_none(s.drop_last());
    }
}

/// Grids with the same structure agree on traversability everywhere.
pub proof fn lemma_pathable_structure(a: Grid, b: Grid, p: Point)
    requires
        same_structure(a, b),
    ensures
        a.pathable(p) == b.pathable(p),
{
    if p.x < a.side && p.y < a.side {
        assert(crate::grid::same_cell_structure(
            a.cell(p.x as int, p.y as int),
            b.cell(p.x as int, p.y as int),
        ));
    }
}

/// `preserves` composes across consecutive operations.
pub proof fn lemma_preserves_trans(a: App, b: App, c: App)
    requires
        App::preserves(a, b),
        App::preserves(b, c),
    ensures
        App::preserves(a, c),
{
    assert forall|x: int, y: int|
        0 <= x < a.grid.side && 0 <= y < a.grid.side implies crate::grid::same_cell_structure(
        #[trigger] a.grid.cell(x, y),
        c.grid.cell(x, y),
    ) by {
        assert(crate::grid::same_cell_structure(a.grid.cell(x, y), b.grid.cell(x, y)));
        assert(crate::grid::same_cell_structure(b.grid.cell(x, y), c.grid.cell(x, y)));
    }
}

/// No point occurs twice in the sequence.
pub open spec fn distinct_points(path: Seq<Point>) -> bool {
    forall|k1: int, k2: int|
        #![trigger path[k1], path[k2]]
        0 <= k1 < k2 < path.len() ==> path[k1] != path[k2]
}

/// A path as recorded by a successful search: ordered from `e` back to `s`,
/// both included, every point an in-bounds traversable cell, and every point
/// reached from its successor under the neighbor rule. A blocked cell can
/// therefore never appear on a returned path.
pub open spec fn valid_path_spec(g: Grid, adj: Adjacency, path: Seq<Point>, s: Point, e: Point) -> bool {
    &&& path.len() >= 1
    &&& path[0] == e
    &&& path[path.len() - 1] == s
    &&& forall|k: int| 0 <= k < path.len() ==> g.pathable(#[trigger] path[k])
    &&& forall|k: int|
        0 <= k < path.len() - 1 ==> neighbors_spec(g, adj, path[k + 1]).contains(#[trigger] path[k])
}

/// What either search guarantees. The grid keeps its structure and only the
/// overlay flags move; the recorded path is empty on failure and a valid path
/// from end to start on success; an unset, out-of-bounds or blocked endpoint
/// fails with the stated error, and traversable endpoints never draw
/// `OutOfBounds`; identical traversable endpoints succeed with the one-point
/// path; no point occurs twice on a recorded path. Together with `App::inv` this pins the overlay: after
/// a failed search no cell is flagged, after a successful one exactly the
/// path's cells are.
pub open spec fn search_post(pre: App, post: App, r: Result<(), PathError>) -> bool {
    &&& post.inv()
    &&& App::preserves(pre, post)
    &&& (pre.start is None || pre.end is None ==> r == Err::<(), PathError>(PathError::Unreachable))
    &&& (pre.start is Some && pre.end is Some && (!pre.grid.contains_point(pre.start.unwrap())
        || !pre.grid.contains_point(pre.end.unwrap())) ==> r == Err::<(), PathError>(
        PathError::OutOfBounds,
    ))
    &&& (pre.start is Some && pre.end is Some && pre.grid.contains_point(pre.start.unwrap())
        && pre.grid.contains_point(pre.end.unwrap()) && (cell_blocked(
        pre.grid.cell_at_spec(pre.start.unwrap()),
    ) || cell_blocked(pre.grid.cell_at_spec(pre.end.unwrap()))) ==> r == Err::<(), PathError>(
        PathError::Unreachable,
    ))
    &&& (r is Err ==> post.path@.len() == 0)
    &&& (pre.start is Some && pre.end is Some && pre.grid.pathable(pre.start.unwrap())
        && pre.grid.pathable(pre.end.unwrap()) ==> r != Err::<(), PathError>(
        PathError::OutOfBounds,
    ))
    &&& (r is Ok ==> pre.start is Some && pre.end is Some && pre.grid.pathable(pre.start.unwrap())
        && pre.grid.pathable(pre.end.unwrap()) && valid_path_spec(
        pre.grid,
        pre.adjacency,
        post.path@,
        pre.start.unwrap(),
        pre.end.unwrap(),
    ) && distinct_points(post.path@))
    &&& (pre.start is Some && pre.end is Some && pre.grid.pathable(pre.start.unwrap())
        && pre.grid.pathable(pre.end.unwrap()) && pre.start.unwrap() == pre.end.unwrap() ==> r
        is Ok && post.path@ =~= seq![pre.start.unwrap()])
}

/// The predecessor-table invariant of the breadth-first search: every visited
/// point is traversable, carries a depth, and — unless it is the start — was
/// recorded as reached from a visited predecessor of strictly smaller depth
/// whose neighbors include it.
#[verifier::opaque]
pub open spec fn bfs_chain_inv(
    g: Grid,
    adj: Adjacency,
    s: Point,
    visited: Seq<bool>,
    came_from: Seq<Point>,
    depth: Map<int, nat>,
    n: int,
) -> bool {
    forall|p: Point|
        ((p.x as int) < n && (p.y as int) < n && visited[#[trigger] fidx(n, p)]) ==> {
            &&& g.pathable(p)
            &&& depth.dom().contains(fidx(n, p))
            &&& (p != s ==> {
                let q = came_from[fidx(n, p)];
                &&& (q.x as int) < n
                &&& (q.y as int) < n
                &&& g.pathable(q)
                &&& visited[fidx(n, q)]
                &&& depth.dom().contains(fidx(n, q))
                &&& depth[fidx(n, p)] == depth[fidx(n, q)] + 1
                &&& neighbors_spec(g, adj, q).contains(p)
            })
        }
}

/// The chain invariant holds right after the start cell alone is visited.
proof fn lemma_bfs_chain_init(
    g: Grid,
    adj: Adjacency,
    s: Point,
    visited: Seq<bool>,
    came_from: Seq<Point>,
    depth: Map<int, nat>,
    n: int,
)
    requires
        0 < n,
        visited.len() == n * n,
        (s.x as int) < n,
        (s.y as int) < n,
        g.pathable(s),
        forall|i: int| 0 <= i < visited.len() ==> (visited[i] <==> i == fidx(n, s)),
        depth.dom().contains(fidx(n, s)),
    ensures
        bfs_chain_inv(g, adj, s, visited, came_from, depth, n),
{
    reveal(bfs_chain_inv);
    assert forall|p: Point|
        ((p.x as int) < n && (p.y as int) < n && visited[#[trigger] fidx(n, p)]) implies p
        == s by {
        crate::grid::lemma_flat_index(p.x as int, p.y as int, n);
        lemma_fidx_inj(n, p, s);
    }
}

/// Marking an unvisited neighbor `nb` as reached from the visited cell `cur`
/// preserves the chain invariant.
proof fn lemma_bfs_chain_mark(
    g: Grid,
    adj: Adjacency,
    s: Point,
    visited: Seq<bool>,
    came_from: Seq<Point>,
    depth: Map<int, nat>,
    n: int,
    cur: Point,
    nb: Point,
)
    requires
        0 < n,
        visited.len() == n * n,
        came_from.len() == n * n,
        bfs_chain_inv(g, adj, s, visited, came_from, depth, n),
        (cur.x as int) < n,
        (cur.y as int) < n,
        (nb.x as int) < n,
        (nb.y as int) < n,
        (s.x as int) < n,
        (s.y as int) < n,
        visited[fidx(n, s)],
        visited[fidx(n, cur)],
        !visited[fidx(n, nb)],
        g.pathable(nb),
        neighbors_spec(g, adj, cur).contains(nb),
    ensures
        bfs_chain_inv(
            g,
            adj,
            s,
            visited.update(fidx(n, nb), true),
            came_from.update(fidx(n, nb), cur),
            depth.insert(fidx(n, nb), (depth[fidx(n, cur)] + 1) as nat),
            n,
        ),
{
    let fi = fidx(n, nb);
    let visited1 = visited.update(fi, true);
    let came1 = came_from.update(fi, cur);
    reveal(bfs_chain_inv);
    let depth1 = depth.insert(fi, (depth[fidx(n, cur)] + 1) as nat);
    crate::grid::lemma_flat_index(nb.x as int, nb.y as int, n);
    crate::grid::lemma_flat_index(cur.x as int, cur.y as int, n);
    crate::grid::lemma_flat_index(s.x as int, s.y as int, n);
    assert(fidx(n, cur) != fi);
    assert forall|p: Point|
        ((p.x as int) < n && (p.y as int) < n && visited1[#[trigger] fidx(n, p)]) implies {
        &&& g.pathable(p)
        &&& depth1.dom().contains(fidx(n, p))
        &&& (p != s ==> {
            let q = came1[fidx(n, p)];
            &&& (q.x as int) < n
            &&& (q.y as int) < n
            &&& g.pathable(q)
            &&& visited1[fidx(n, q)]
            &&& depth1.dom().contains(fidx(n, q))
            &&& depth1[fidx(n, p)] == depth1[fidx(n, q)] + 1
            &&& neighbors_spec(g, adj, q).contains(p)
        })
    } by {
        crate::grid::lemma_flat_index(p.x as int, p.y as int, n);
        if fidx(n, p) == fi {
            lemma_fidx_inj(n, p, nb);
            assert(p == nb);
            assert(visited[fidx(n, s)]);
            assert(p != s);
            assert(came1[fi] == cur);
            assert(g.pathable(cur));
            assert(depth1[fidx(n, cur)] == depth[fidx(n, cur)]);
        } else {
            assert(visited[fidx(n, p)]);
            if p != s {
                let q = came_from[fidx(n, p)];
                crate::grid::lemma_flat_index(q.x as int, q.y as int, n);
                assert(visited[fidx(n, q)]);
                assert(fidx(n, q) != fi);
                assert(came1[fidx(n, p)] == q);
            }
        }
    }
}

/// Reads one link of the chain invariant for a visited point.
proof fn lemma_bfs_chain_step(
    g: Grid,
    adj: Adjacency,
    s: Point,
    visited: Seq<bool>,
    came_from: Seq<Point>,
    depth: Map<int, nat>,
    n: int,
    p: Point,
)
    requires
        bfs_chain_inv(g, adj, s, visited, came_from, depth, n),
        (p.x as int) < n,
        (p.y as int) < n,
        visited[fidx(n, p)],
    ensures
        g.pathable(p),
        depth.dom().contains(fidx(n, p)),
        p != s ==> {
            let q = came_from[fidx(n, p)];
            &&& (q.x as int) < n
            &&& (q.y as int) < n
            &&& g.pathable(q)
            &&& visited[fidx(n, q)]
            &&& depth.dom().contains(fidx(n, q))
            &&& depth[fidx(n, p)] == depth[fidx(n, q)] + 1
            &&& neighbors_spec(g, adj, q).contains(p)
        },
{
    reveal(bfs_chain_inv);
}


/// Total of a cost table, for the termination measure of the Dijkstra loop.
pub open spec fn sum_costs(s: Seq<usize>) -> int
    decreases s.len(),
{
    if s.len() == 0 {
        0
    } else {
        sum_costs(s.drop_last()) + s.last()
    }
}

/// A cost table totals at least zero.
proof fn lemma_sum_costs_nonneg(s: Seq<usize>)
    ensures
        0 <= sum_costs(s),
    decreases s.len(),
{
    if s.len() > 0 {
        lemma_sum_costs_nonneg(s.drop_last());
    }
}

/// Updating one entry moves the total by the difference.
proof fn lemma_sum_costs_set(s: Seq<usize>, i: int, v: usize)
    requires
        0 <= i < s.len(),
    ensures
        sum_costs(s.update(i, v)) == sum_costs(s) - s[i] + v,
    decreases s.len(),
{
    let t = s.update(i, v);
    if i == s.len() - 1 {
        assert(t.drop_last() =~= s.drop_last());
    } else {
        assert(t.drop_last() =~= s.drop_last().update(i, v));
        lemma_sum_costs_set(s.drop_last(), i, v);
    }
}

/// The relaxation invariant of the Dijkstra search: every point with a finite
/// table cost is traversable and — unless it is the start — was recorded as
/// reached from a finite-cost predecessor whose neighbors include it, whose
/// cost plus the point's weight bounds the point's cost, and which strictly
/// precedes it by cost or, at equal cost, by rank. The chain from any
/// finite-cost point therefore descends to the start.
#[verifier::opaque]
pub open spec fn dij_chain_inv(
    g: Grid,
    adj: Adjacency,
    s: Point,
    cost: Seq<usize>,
    came_from: Seq<Point>,
    rank: Map<int, nat>,
    n: int,
) -> bool {
    forall|p: Point|
        ((p.x as int) < n && (p.y as int) < n && cost[#[trigger] fidx(n, p)] < usize::MAX) ==> {
            &&& g.pathable(p)
            &&& rank.dom().contains(fidx(n, p))
            &&& (p != s ==> {
                let q = came_from[fidx(n, p)];
                &&& (q.x as int) < n
                &&& (q.y as int) < n
                &&& g.pathable(q)
                &&& cost[fidx(n, q)] < usize::MAX
                &&& rank.dom().contains(fidx(n, q))
                &&& cost[fidx(n, q)] + cell_weight(g.cell_at_spec(p)) <= cost[fidx(n, p)]
                &&& (cost[fidx(n, q)] < cost[fidx(n, p)] || rank[fidx(n, q)] < rank[fidx(n, p)])
                &&& neighbors_spec(g, adj, q).contains(p)
            })
        }
}

/// The relaxation invariant holds right after the start alone has cost zero.
proof fn lemma_dij_chain_init(
    g: Grid,
    adj: Adjacency,
    s: Point,
    cost: Seq<usize>,
    came_from: Seq<Point>,
    rank: Map<int, nat>,
    n: int,
)
    requires
        0 < n,
        cost.len() == n * n,
        (s.x as int) < n,
        (s.y as int) < n,
        g.pathable(s),
        forall|i: int| 0 <= i < cost.len() ==> #[trigger] cost[i] == if i == fidx(n, s) {
            0usize
        } else {
            usize::MAX
        },
        rank.dom().contains(fidx(n, s)),
    ensures
        dij_chain_inv(g, adj, s, cost, came_from, rank, n),
{
    reveal(dij_chain_inv);
    assert forall|p: Point|
        ((p.x as int) < n && (p.y as int) < n && cost[#[trigger] fidx(n, p)] < usize::MAX) implies p
        == s by {
        crate::grid::lemma_flat_index(p.x as int, p.y as int, n);
        if fidx(n, p) != fidx(n, s) {
            assert(cost[fidx(n, p)] == usize::MAX);
        } else {
            lemma_fidx_inj(n, p, s);
        }
    }
}

/// Relaxing an edge from a finite-cost cell `cur` to a strictly improved
/// neighbor `nb` preserves the relaxation invariant.
proof fn lemma_dij_chain_relax(
    g: Grid,
    adj: Adjacency,
    s: Point,
    cost: Seq<usize>,
    came_from: Seq<Point>,
    rank: Map<int, nat>,
    n: int,
    cur: Point,
    nb: Point,
    newc: usize,
)
    requires
        0 < n,
        cost.len() == n * n,
        came_from.len() == n * n,
        dij_chain_inv(g, adj, s, cost, came_from, rank, n),
        (cur.x as int) < n,
        (cur.y as int) < n,
        (nb.x as int) < n,
        (nb.y as int) < n,
        (s.x as int) < n,
        (s.y as int) < n,
        cost[fidx(n, s)] == 0,
        cost[fidx(n, cur)] < usize::MAX,
        g.pathable(nb),
        neighbors_spec(g, adj, cur).contains(nb),
        newc == cost[fidx(n, cur)] + cell_weight(g.cell_at_spec(nb)),
        newc < cost[fidx(n, nb)],
    ensures
        dij_chain_inv(
            g,
            adj,
            s,
            cost.update(fidx(n, nb), newc),
            came_from.update(fidx(n, nb), cur),
            rank.insert(fidx(n, nb), (rank[fidx(n, cur)] + 1) as nat),
            n,
        ),
{
    reveal(dij_chain_inv);
    let fi = fidx(n, nb);
    let cost1 = cost.update(fi, newc);
    let came1 = came_from.update(fi, cur);
    let rank1 = rank.insert(fi, (rank[fidx(n, cur)] + 1) as nat);
    crate::grid::lemma_flat_index(nb.x as int, nb.y as int, n);
    crate::grid::lemma_flat_index(cur.x as int, cur.y as int, n);
    crate::grid::lemma_flat_index(s.x as int, s.y as int, n);
    assert(nb != s) by {
        if nb == s {
            assert(cost[fi] == 0);
        }
    }
    assert(cur != nb) by {
        if cur == nb {
            assert(newc >= cost[fi]);
        }
    }
    assert(fidx(n, cur) != fi) by {
        if fidx(n, cur) == fi {
            lemma_fidx_inj(n, cur, nb);
        }
    }
    assert forall|p: Point|
        ((p.x as int) < n && (p.y as int) < n && cost1[#[trigger] fidx(n, p)] < usize::MAX) implies {
        &&& g.pathable(p)
        &&& rank1.dom().contains(fidx(n, p))
        &&& (p != s ==> {
            let q = came1[fidx(n, p)];
            &&& (q.x as int) < n
            &&& (q.y as int) < n
            &&& g.pathable(q)
            &&& cost1[fidx(n, q)] < usize::MAX
            &&& rank1.dom().contains(fidx(n, q))
            &&& cost1[fidx(n, q)] + cell_weight(g.cell_at_spec(p)) <= cost1[fidx(n, p)]
            &&& (cost1[fidx(n, q)] < cost1[fidx(n, p)] || rank1[fidx(n, q)] < rank1[fidx(n, p)])
            &&& neighbors_spec(g, adj, q).contains(p)
        })
    } by {
        crate::grid::lemma_flat_index(p.x as int, p.y as int, n);
        if fidx(n, p) == fi {
            lemma_fidx_inj(n, p, nb);
            assert(p == nb);
            assert(came1[fi] == cur);
            assert(cost1[fidx(n, cur)] == cost[fidx(n, cur)]);
        } else {
            assert(cost[fidx(n, p)] == cost1[fidx(n, p)]);
            if p != s {
                let q = came_from[fidx(n, p)];
                crate::grid::lemma_flat_index(q.x as int, q.y as int, n);
                assert(came1[fidx(n, p)] == q);
                if fidx(n, q) == fi {
                    assert(cost1[fidx(n, q)] == newc);
                    assert(newc < cost[fidx(n, q)]);
                } else {
                    assert(cost1[fidx(n, q)] == cost[fidx(n, q)]);
                }
            }
        }
    }
}

/// Reads one link of the relaxation invariant for a finite-cost point.
proof fn lemma_dij_chain_step(
    g: Grid,
    adj: Adjacency,
    s: Point,
    cost: Seq<usize>,
    came_from: Seq<Point>,
    rank: Map<int, nat>,
    n: int,
    p: Point,
)
    requires
        dij_chain_inv(g, adj, s, cost, came_from, rank, n),
        (p.x as int) < n,
        (p.y as int) < n,
        cost[fidx(n, p)] < usize::MAX,
    ensures
        g.pathable(p),
        rank.dom().contains(fidx(n, p)),
        p != s ==> {
            let q = came_from[fidx(n, p)];
            &&& (q.x as int) < n
            &&& (q.y as int) < n
            &&& g.pathable(q)
            &&& cost[fidx(n, q)] < usize::MAX
            &&& rank.dom().contains(fidx(n, q))
            &&& cost[fidx(n, q)] + cell_weight(g.cell_at_spec(p)) <= cost[fidx(n, p)]
            &&& (cost[fidx(n, q)] < cost[fidx(n, p)] || rank[fidx(n, q)] < rank[fidx(n, p)])
            &&& neighbors_spec(g, adj, q).contains(p)
        },
{
    reveal(dij_chain_inv);
}

/// A path from `e` back to `s` exists under the given policy.
pub open spec fn reachable(g: Grid, adj: Adjacency, s: Point, e: Point) -> bool {
    exists|chain: Seq<Point>| valid_path_spec(g, adj, chain, s, e)
}

/// A visited table is closed under the neighbor rule: every neighbor of a
/// visited in-bounds point is visited too.
pub open spec fn visited_closed(g: Grid, adj: Adjacency, visited: Seq<bool>, n: int) -> bool {
    forall|p: Point, k: int|
        #![trigger neighbors_spec(g, adj, p)[k], visited[fidx(n, p)]]
        ((p.x as int) < n && (p.y as int) < n && visited[fidx(n, p)] && 0 <= k < neighbors_spec(
            g,
            adj,
            p,
        ).len()) ==> (neighbors_spec(g, adj, p)[k].x as int) < n && (neighbors_spec(
            g,
            adj,
            p,
        )[k].y as int) < n && visited[fidx(n, neighbors_spec(g, adj, p)[k])]
}

/// Walking a neighbor chain backward from a visited point keeps every point
/// of the chain inside a table closed under the neighbor rule.
proof fn lemma_chain_visited(g: Grid, adj: Adjacency, visited: Seq<bool>, n: int, chain: Seq<Point>)
    requires
        n == g.side,
        visited_closed(g, adj, visited, n),
        chain.len() >= 1,
        forall|k: int| 0 <= k < chain.len() ==> g.pathable(#[trigger] chain[k]),
        forall|k: int|
            0 <= k < chain.len() - 1 ==> neighbors_spec(g, adj, chain[k + 1]).contains(
                #[trigger] chain[k],
            ),
        visited[fidx(n, chain[chain.len() - 1])],
    ensures
        visited[fidx(n, chain[0])],
    decreases chain.len(),
{
    if chain.len() > 1 {
        let sub = chain.drop_first();
        assert forall|k: int| 0 <= k < sub.len() implies g.pathable(#[trigger] sub[k]) by {
            assert(sub[k] == chain[k + 1]);
        }
        assert forall|k: int|
            0 <= k < sub.len() - 1 implies neighbors_spec(g, adj, sub[k + 1]).contains(
            #[trigger] sub[k],
        ) by {
            assert(sub[k] == chain[k + 1]);
            assert(sub[k + 1] == chain[k + 2]);
        }
        assert(sub[sub.len() - 1] == chain[chain.len() - 1]);
        lemma_chain_visited(g, adj, visited, n, sub);
        assert(visited[fidx(n, chain[1])]);
        let k = choose|k: int|
            0 <= k < neighbors_spec(g, adj, chain[1]).len() && neighbors_spec(g, adj, chain[1])[k]
                == chain[0];
        assert(neighbors_spec(g, adj, chain[1])[k] == chain[0]);
        assert(visited[fidx(n, neighbors_spec(g, adj, chain[1])[k])]);
    }
}

/// Every visited point's recorded depth bounds every path to it from below:
/// no path from the start to a visited point has fewer edges than its depth.
#[verifier::opaque]
pub open spec fn bfs_depth_minimal(
    g: Grid,
    adj: Adjacency,
    s: Point,
    visited: Seq<bool>,
    depth: Map<int, nat>,
    n: int,
) -> bool {
    forall|p: Point, c: Seq<Point>|
        #![trigger valid_path_spec(g, adj, c, s, p)]
        ((p.x as int) < n && (p.y as int) < n && visited[fidx(n, p)] && valid_path_spec(
            g,
            adj,
            c,
            s,
            p,
        )) ==> c.len() - 1 >= depth[fidx(n, p)]
}

/// Depth minimality holds right after the start cell alone is visited at
/// depth zero.
proof fn lemma_bfs_minimal_init(
    g: Grid,
    adj: Adjacency,
    s: Point,
    visited: Seq<bool>,
    depth: Map<int, nat>,
    n: int,
)
    requires
        0 < n,
        visited.len() == n * n,
        (s.x as int) < n,
        (s.y as int) < n,
        forall|i: int| 0 <= i < visited.len() ==> (visited[i] <==> i == fidx(n, s)),
        depth[fidx(n, s)] == 0,
    ensures
        bfs_depth_minimal(g, adj, s, visited, depth, n),
{
    reveal(bfs_depth_minimal);
    assert forall|p: Point, c: Seq<Point>|
        #![trigger valid_path_spec(g, adj, c, s, p)]
        ((p.x as int) < n && (p.y as int) < n && visited[fidx(n, p)] && valid_path_spec(
            g,
            adj,
            c,
            s,
            p,
        )) implies c.len() - 1 >= depth[fidx(n, p)] by {
        crate::grid::lemma_flat_index(p.x as int, p.y as int, n);
        lemma_fidx_inj(n, p, s);
    }
}

/// During an expansion of `cur`, any path from the start to a still-unvisited
/// point has strictly more edges than `cur`'s depth: every visited point sits
/// in the queue, fully processed points have all neighbors visited, and the
/// waiting window holds no depth below `cur`'s.
proof fn lemma_bfs_frontier_bound(
    g: Grid,
    adj: Adjacency,
    s: Point,
    visited: Seq<bool>,
    depth: Map<int, nat>,
    frontier: Seq<Point>,
    head: int,
    n: int,
    cur: Point,
    dcur: nat,
    c: Seq<Point>,
    p: Point,
)
    requires
        n == g.side,
        1 <= head <= frontier.len(),
        frontier[head - 1] == cur,
        dcur == depth[fidx(n, cur)],
        forall|i: int, k: int|
            #![trigger neighbors_spec(g, adj, frontier[i])[k]]
            (0 <= i < head - 1 && 0 <= k < neighbors_spec(g, adj, frontier[i]).len())
                ==> visited[fidx(n, neighbors_spec(g, adj, frontier[i])[k])],
        forall|q: Point|
            ((q.x as int) < n && (q.y as int) < n && visited[#[trigger] fidx(n, q)])
                ==> exists|i: int| 0 <= i < frontier.len() && frontier[i] == q,
        forall|i: int|
            head <= i < frontier.len() ==> depth[fidx(n, #[trigger] frontier[i])] >= dcur,
        bfs_depth_minimal(g, adj, s, visited, depth, n),
        (s.x as int) < n,
        (s.y as int) < n,
        visited[fidx(n, s)],
        valid_path_spec(g, adj, c, s, p),
        (p.x as int) < n,
        (p.y as int) < n,
        !visited[fidx(n, p)],
    ensures
        c.len() - 1 >= dcur + 1,
    decreases c.len(),
{
    reveal(bfs_depth_minimal);
    if c.len() == 1 {
        assert(c[0] == p && c[0] == s);
        assert(false);
    }
    let q2 = c[1];
    let sub = c.drop_first();
    assert forall|k: int| 0 <= k < sub.len() implies g.pathable(#[trigger] sub[k]) by {
        assert(sub[k] == c[k + 1]);
    }
    assert forall|k: int|
        0 <= k < sub.len() - 1 implies neighbors_spec(g, adj, sub[k + 1]).contains(
        #[trigger] sub[k],
    ) by {
        assert(sub[k] == c[k + 1]);
        assert(sub[k + 1] == c[k + 2]);
    }
    assert(sub[sub.len() - 1] == c[c.len() - 1]);
    assert(valid_path_spec(g, adj, sub, s, q2));
    assert(g.pathable(q2));
    assert(neighbors_spec(g, adj, q2).contains(c[0]));
    if visited[fidx(n, q2)] {
        assert(sub.len() - 1 >= depth[fidx(n, q2)]);
        let i = choose|i: int| 0 <= i < frontier.len() && frontier[i] == q2;
        if i < head - 1 {
            let k = choose|k: int|
                0 <= k < neighbors_spec(g, adj, q2).len() && neighbors_spec(g, adj, q2)[k]
                    == c[0];
            assert(neighbors_spec(g, adj, frontier[i])[k] == p);
            assert(visited[fidx(n, p)]);
            assert(false);
        } else if i == head - 1 {
            assert(q2 == cur);
            assert(depth[fidx(n, q2)] == dcur);
        } else {
            assert(depth[fidx(n, frontier[i])] >= dcur);
        }
    } else {
        lemma_bfs_frontier_bound(
            g,
            adj,
            s,
            visited,
            depth,
            frontier,
            head,
            n,
            cur,
            dcur,
            sub,
            q2,
        );
    }
}

/// Marking an unvisited neighbor of `cur` at depth `dcur + 1` preserves depth
/// minimality.
proof fn lemma_bfs_minimal_mark(
    g: Grid,
    adj: Adjacency,
    s: Point,
    visited: Seq<bool>,
    depth: Map<int, nat>,
    frontier: Seq<Point>,
    head: int,
    n: int,
    cur: Point,
    dcur: nat,
    nb: Point,
)
    requires
        n == g.side,
        0 < n,
        visited.len() == n * n,
        1 <= head <= frontier.len(),
        frontier[head - 1] == cur,
        dcur == depth[fidx(n, cur)],
        forall|i: int, k: int|
            #![trigger neighbors_spec(g, adj, frontier[i])[k]]
            (0 <= i < head - 1 && 0 <= k < neighbors_spec(g, adj, frontier[i]).len())
                ==> visited[fidx(n, neighbors_spec(g, adj, frontier[i])[k])],
        forall|q: Point|
            ((q.x as int) < n && (q.y as int) < n && visited[#[trigger] fidx(n, q)])
                ==> exists|i: int| 0 <= i < frontier.len() && frontier[i] == q,
        forall|i: int|
            head <= i < frontier.len() ==> depth[fidx(n, #[trigger] frontier[i])] >= dcur,
        bfs_depth_minimal(g, adj, s, visited, depth, n),
        (s.x as int) < n,
        (s.y as int) < n,
        visited[fidx(n, s)],
        (nb.x as int) < n,
        (nb.y as int) < n,
        !visited[fidx(n, nb)],
    ensures
        bfs_depth_minimal(
            g,
            adj,
            s,
            visited.update(fidx(n, nb), true),
            depth.insert(fidx(n, nb), (dcur + 1) as nat),
            n,
        ),
{
    reveal(bfs_depth_minimal);
    let fi = fidx(n, nb);
    let visited1 = visited.update(fi, true);
    let depth1 = depth.insert(fi, (dcur + 1) as nat);
    crate::grid::lemma_flat_index(nb.x as int, nb.y as int, n);
    assert forall|p: Point, c: Seq<Point>|
        #![trigger valid_path_spec(g, adj, c, s, p)]
        ((p.x as int) < n && (p.y as int) < n && visited1[fidx(n, p)] && valid_path_spec(
            g,
            adj,
            c,
            s,
            p,
        )) implies c.len() - 1 >= depth1[fidx(n, p)] by {
        crate::grid::lemma_flat_index(p.x as int, p.y as int, n);
        if fidx(n, p) == fi {
            lemma_fidx_inj(n, p, nb);
            lemma_bfs_frontier_bound(
                g,
                adj,
                s,
                visited,
                depth,
                frontier,
                head,
                n,
                cur,
                dcur,
                c,
                p,
            );
        } else {
            assert(visited[fidx(n, p)]);
            assert(c.len() - 1 >= depth[fidx(n, p)]);
        }
    }
}

impl App {
    /// Breadth-first search from the designated start toward the designated
    /// end. Always retracts the previous overlay; on success records the new
    /// path (ordered end to start) and applies its overlay. Success is owed
    /// exactly when a path exists: `Ok` carries a valid path that is as short
    /// as any path between the endpoints, and `Unreachable` between
    /// traversable endpoints proves that no path connects them under the
    /// current policy.
    #[verifier::rlimit(100)]
    pub fn calc_breadth_first_path(&mut self) -> (r: Result<(), PathError>)
        requires
            old(self).inv(),
        ensures
            search_post(*old(self), *final(self), r),
            r is Ok ==> reachable(
                old(self).grid,
                old(self).adjacency,
                old(self).start.unwrap(),
                old(self).end.unwrap(),
            ),
            r == Err::<(), PathError>(PathError::Unreachable) && old(self).start is Some && old(
                self,
            ).end is Some && old(self).grid.pathable(old(self).start.unwrap()) && old(
                self,
            ).grid.pathable(old(self).end.unwrap()) ==> !reachable(
                old(self).grid,
                old(self).adjacency,
                old(self).start.unwrap(),
                old(self).end.unwrap(),
            ),
            r is Ok ==> forall|chain: Seq<Point>|
                valid_path_spec(
                    old(self).grid,
                    old(self).adjacency,
                    chain,
                    old(self).start.unwrap(),
                    old(self).end.unwrap(),
                ) ==> chain.len() >= final(self).path@.len(),
    {
        let ghost pre = *old(self);
        let (s, e) = match (self.start, self.end) {
            (Some(s), Some(e)) => (s, e),
            _ => {
                self.clear_path();
                return Err(PathError::Unreachable);
            },
        };
        let n = self.grid.side;
        if s.x >= n || s.y >= n || e.x >= n || e.y >= n {
            self.clear_path();
            return Err(PathError::OutOfBounds);
        }
        if self.grid.is_blocked(s) || self.grid.is_blocked(e) {
            self.clear_path();
            return Err(PathError::Unreachable);
        }
        if s.x == e.x && s.y == e.y {
            self.clear_path();
            let ghost mid = *self;
            let mut path: Vec<Point> = Vec::new();
            path.push(s);
            self.path = path;
            proof {
                lemma_pathable_structure(pre.grid, self.grid, s);
            }
            self.enter_path();
            proof {
                lemma_preserves_trans(pre, mid, *self);
                assert(valid_path_spec(pre.grid, pre.adjacency, seq![s], s, e));
                assert(self.path@.len() == 1);
            }
            return Ok(());
        }
        let ghost g0 = self.grid;
        let ghost adj = self.adjacency;
        let nn = self.grid.cells.len();
        proof {
            assert(nn == n * n);
        }
        let mut visited: Vec<bool> = vec![false; nn];
        let mut came_from: Vec<Point> = vec![Point { x: 0, y: 0 }; nn];
        let si = flat_index(n, s);
        let ghost visited_init = visited@;
        proof {
            lemma_count_trues_none(visited_init);
        }
        visited.set(si, true);
        proof {
            lemma_count_trues_set(visited_init, si as int);
        }
        let ghost mut depth: Map<int, nat> = Map::empty().insert(si as int, 0nat);
        let ghost mut count: int = 1;
        proof {
            lemma_bfs_chain_init(g0, adj, s, visited@, came_from@, depth, n as int);
            lemma_bfs_minimal_init(g0, adj, s, visited@, depth, n as int);
        }
        proof {
            crate::grid::lemma_flat_index(e.x as int, e.y as int, n as int);
        }
        let mut frontier: Vec<Point> = Vec::new();
        frontier.push(s);
        proof {
            assert(!visited@[fidx(n as int, e)]) by {
                if fidx(n as int, e) == fidx(n as int, s) {
                    lemma_fidx_inj(n as int, e, s);
                }
            }
            assert forall|p: Point|
                ((p.x as int) < n && (p.y as int) < n && visited@[#[trigger] fidx(
                    n as int,
                    p,
                )]) implies (exists|i: int|
                0 <= i < frontier@.len() && frontier@[i] == p) by {
                crate::grid::lemma_flat_index(p.x as int, p.y as int, n as int);
                if fidx(n as int, p) == si as int {
                    lemma_fidx_inj(n as int, p, s);
                    assert(frontier@[0] == p);
                }
            }
        }
        let mut head: usize = 0;
        let mut found = false;
        while head < frontier.len() && !found
            invariant
                *self == pre,
                self.inv(),
                g0 == self.grid,
                adj == self.adjacency,
                n == g0.side,
                nn == n * n,
                g0.pathable(s),
                g0.pathable(e),
                s != e,
                visited@.len() == nn,
                came_from@.len() == nn,
                head <= frontier@.len(),
                count == count_trues(visited@),
                count <= nn,
                0 <= fidx(n as int, s) < nn,
                0 <= fidx(n as int, e) < nn,
                visited@[fidx(n as int, s)],
                forall|i: int|
                    0 <= i < frontier@.len() ==> g0.pathable(#[trigger] frontier@[i])
                        && 0 <= fidx(n as int, frontier@[i]) < nn && visited@[fidx(
                        n as int,
                        frontier@[i],
                    )],
                bfs_chain_inv(g0, adj, s, visited@, came_from@, depth, n as int),
                found ==> (e.x as int) < n && (e.y as int) < n && visited@[fidx(n as int, e)],
                !found ==> !visited@[fidx(n as int, e)],
                forall|p: Point|
                    ((p.x as int) < n && (p.y as int) < n && visited@[#[trigger] fidx(
                        n as int,
                        p,
                    )]) ==> exists|i: int| 0 <= i < frontier@.len() && frontier@[i] == p,
                !found ==> forall|i: int, k: int|
                    #![trigger neighbors_spec(g0, adj, frontier@[i])[k]]
                    (0 <= i < head && 0 <= k < neighbors_spec(g0, adj, frontier@[i]).len())
                        ==> visited@[fidx(n as int, neighbors_spec(g0, adj, frontier@[i])[k])],
                depth.dom().contains(fidx(n as int, s)),
                depth[fidx(n as int, s)] == 0,
                bfs_depth_minimal(g0, adj, s, visited@, depth, n as int),
                forall|i: int, j: int|
                    #![trigger frontier@[i], frontier@[j]]
                    head <= i <= j < frontier@.len() ==> depth[fidx(n as int, frontier@[i])]
                        <= depth[fidx(n as int, frontier@[j])],
                frontier@.len() > head ==> depth[fidx(
                    n as int,
                    frontier@[frontier@.len() - 1],
                )] <= depth[fidx(n as int, frontier@[head as int])] + 1,
            decreases frontier@.len() - head + (nn - count),
        {
            let cur = frontier[head];
            head = head + 1;
            let ghost dcur = depth[fidx(n as int, cur)];
            proof {
                assert(frontier@[head - 1] == cur);
                assert(visited@[fidx(n as int, frontier@[head - 1])]);
                lemma_bfs_chain_step(g0, adj, s, visited@, came_from@, depth, n as int, cur);
                assert forall|i: int|
                    head <= i < frontier@.len() implies dcur <= depth[fidx(
                    n as int,
                    #[trigger] frontier@[i],
                )] <= dcur + 1 by {
                    assert(frontier@[head - 1] == cur);
                    assert(depth[fidx(n as int, frontier@[head - 1])] <= depth[fidx(
                        n as int,
                        frontier@[i],
                    )]);
                    assert(depth[fidx(n as int, frontier@[i])] <= depth[fidx(
                        n as int,
                        frontier@[frontier@.len() - 1],
                    )]);
                }
            }
            let nbrs = self.neighbors_of(cur);
            proof {
                lemma_neighbors_pathable(g0, adj, cur);
            }
            let mut j: usize = 0;
            let ghost entry_measure = frontier@.len() - head + (nn - count);
            while j < nbrs.len() && !found
                invariant
                    *self == pre,
                    self.inv(),
                    g0 == self.grid,
                    adj == self.adjacency,
                    n == g0.side,
                    nn == n * n,
                    g0.pathable(s),
                    g0.pathable(e),
                    s != e,
                    visited@.len() == nn,
                    came_from@.len() == nn,
                    head <= frontier@.len(),
                    count == count_trues(visited@),
                    count <= nn,
                    0 <= fidx(n as int, s) < nn,
                0 <= fidx(n as int, e) < nn,
                visited@[fidx(n as int, s)],
                    g0.pathable(cur),
                    g0.contains_point(cur),
                    0 <= fidx(n as int, cur) < nn,
                    visited@[fidx(n as int, cur)],
                    nbrs@ == neighbors_spec(g0, adj, cur),
                    j <= nbrs@.len(),
                    forall|i: int|
                        0 <= i < frontier@.len() ==> g0.pathable(#[trigger] frontier@[i])
                            && 0 <= fidx(n as int, frontier@[i]) < nn && visited@[fidx(
                            n as int,
                            frontier@[i],
                        )],
                    bfs_chain_inv(g0, adj, s, visited@, came_from@, depth, n as int),
                    found ==> (e.x as int) < n && (e.y as int) < n && visited@[fidx(n as int, e)],
                    !found ==> !visited@[fidx(n as int, e)],
                    head >= 1,
                    frontier@[head - 1] == cur,
                    forall|p: Point|
                        ((p.x as int) < n && (p.y as int) < n && visited@[#[trigger] fidx(
                            n as int,
                            p,
                        )]) ==> exists|i: int| 0 <= i < frontier@.len() && frontier@[i] == p,
                    !found ==> forall|i: int, k: int|
                        #![trigger neighbors_spec(g0, adj, frontier@[i])[k]]
                        (0 <= i < head - 1 && 0 <= k < neighbors_spec(g0, adj, frontier@[i]).len())
                            ==> visited@[fidx(n as int, neighbors_spec(g0, adj, frontier@[i])[k])],
                    !found ==> forall|k: int|
                        0 <= k < j ==> visited@[fidx(n as int, #[trigger] nbrs@[k])],
                    depth.dom().contains(fidx(n as int, s)),
                    depth[fidx(n as int, s)] == 0,
                    depth.dom().contains(fidx(n as int, cur)),
                    dcur == depth[fidx(n as int, cur)],
                    bfs_depth_minimal(g0, adj, s, visited@, depth, n as int),
                    forall|i: int|
                        head <= i < frontier@.len() ==> dcur <= depth[fidx(
                            n as int,
                            #[trigger] frontier@[i],
                        )] <= dcur + 1,
                    forall|i: int, j2: int|
                        #![trigger frontier@[i], frontier@[j2]]
                        head <= i <= j2 < frontier@.len() ==> depth[fidx(n as int, frontier@[i])]
                            <= depth[fidx(n as int, frontier@[j2])],
                    frontier@.len() - head + (nn - count) <= entry_measure,
                decreases nbrs@.len() - j,
            {
                let nb = nbrs[j];
                proof {
                    lemma_neighbors_pathable(g0, adj, cur);
                    assert(nbrs@[j as int] == neighbors_spec(g0, adj, cur)[j as int]);
                    assert(g0.pathable(nb));
                }
                let fi = flat_index(n, nb);
                if !visited[fi] {
                    let ghost visited0 = visited@;
                    let ghost came0 = came_from@;
                    let ghost depth0 = depth;
                    let ghost frontier0 = frontier@;
                    visited.set(fi, true);
                    came_from.set(fi, cur);
                    frontier.push(nb);
                    proof {
                        lemma_count_trues_set(visited0, fi as int);
                        lemma_count_trues_bound(visited@);
                        count = count + 1;
                        lemma_bfs_chain_step(g0, adj, s, visited0, came0, depth0, n as int, cur);
                        depth = depth.insert(
                            fi as int,
                            (depth0[fidx(n as int, cur)] + 1) as nat,
                        );
                        assert(neighbors_spec(g0, adj, cur)[j as int] == nb);
                        assert(neighbors_spec(g0, adj, cur).contains(nb));
                        lemma_bfs_chain_mark(
                            g0,
                            adj,
                            s,
                            visited0,
                            came0,
                            depth0,
                            n as int,
                            cur,
                            nb,
                        );
                        lemma_bfs_minimal_mark(
                            g0,
                            adj,
                            s,
                            visited0,
                            depth0,
                            frontier0,
                            head as int,
                            n as int,
                            cur,
                            dcur,
                            nb,
                        );
                        assert forall|i: int|
                            head <= i < frontier@.len() implies dcur <= depth[fidx(
                            n as int,
                            #[trigger] frontier@[i],
                        )] <= dcur + 1 by {
                            if i < frontier0.len() {
                                assert(frontier@[i] == frontier0[i]);
                                assert(visited0[fidx(n as int, frontier0[i])]);
                                assert(fidx(n as int, frontier0[i]) != fi as int);
                            } else {
                                assert(frontier@[i] == nb);
                            }
                        }
                        assert forall|i: int, j2: int|
                            #![trigger frontier@[i], frontier@[j2]]
                            head <= i <= j2 < frontier@.len() implies depth[fidx(
                            n as int,
                            frontier@[i],
                        )] <= depth[fidx(n as int, frontier@[j2])] by {
                        }
                        assert forall|i: int, k: int|
                            #![trigger neighbors_spec(g0, adj, frontier@[i])[k]]
                            (0 <= i < head - 1 && 0 <= k < neighbors_spec(
                                g0,
                                adj,
                                frontier@[i],
                            ).len()) implies visited@[fidx(
                            n as int,
                            neighbors_spec(g0, adj, frontier@[i])[k],
                        )] by {
                            assert(frontier@[i] == frontier0[i]);
                            let q = neighbors_spec(g0, adj, frontier0[i])[k];
                            assert(visited0[fidx(n as int, q)]);
                            lemma_neighbors_pathable(g0, adj, frontier0[i]);
                            crate::grid::lemma_flat_index(q.x as int, q.y as int, n as int);
                        }
                        assert forall|p: Point|
                            ((p.x as int) < n && (p.y as int) < n && visited@[#[trigger] fidx(
                                n as int,
                                p,
                            )]) implies (exists|i: int|
                            0 <= i < frontier@.len() && frontier@[i] == p) by {
                            crate::grid::lemma_flat_index(p.x as int, p.y as int, n as int);
                            if fidx(n as int, p) == fi as int {
                                lemma_fidx_inj(n as int, p, nb);
                                assert(frontier@[frontier@.len() - 1] == p);
                            } else {
                                assert(visited0[fidx(n as int, p)]);
                                let i0 = choose|i: int|
                                    0 <= i < frontier0.len() && frontier0[i] == p;
                                assert(frontier@[i0] == p);
                            }
                        }
                    }
                    if nb.x == e.x && nb.y == e.y {
                        found = true;
                    }
                } else {
                    proof {
                        assert(visited@[fidx(n as int, nb)]);
                    }
                }
                j = j + 1;
            }
        }
        if !found {
            proof {
                assert(head == frontier@.len());
                assert(visited_closed(g0, adj, visited@, n as int)) by {
                    assert forall|p: Point, k: int|
                        #![trigger neighbors_spec(g0, adj, p)[k], visited@[fidx(n as int, p)]]
                        ((p.x as int) < n && (p.y as int) < n && visited@[fidx(n as int, p)] && 0
                            <= k < neighbors_spec(g0, adj, p).len()) implies (neighbors_spec(
                        g0,
                        adj,
                        p,
                    )[k].x as int) < n && (neighbors_spec(g0, adj, p)[k].y as int) < n
                        && visited@[fidx(n as int, neighbors_spec(g0, adj, p)[k])] by {
                        let i = choose|i: int|
                            0 <= i < frontier@.len() && frontier@[i] == p;
                        assert(neighbors_spec(g0, adj, frontier@[i])[k] == neighbors_spec(
                            g0,
                            adj,
                            p,
                        )[k]);
                        lemma_neighbors_pathable(g0, adj, p);
                    }
                }
                assert(!reachable(g0, adj, s, e)) by {
                    if reachable(g0, adj, s, e) {
                        let chain = choose|chain: Seq<Point>|
                            valid_path_spec(g0, adj, chain, s, e);
                        lemma_chain_visited(g0, adj, visited@, n as int, chain);
                    }
                }
            }
            self.clear_path();
            return Err(PathError::Unreachable);
        }
        proof {
            lemma_bfs_chain_step(g0, adj, s, visited@, came_from@, depth, n as int, e);
        }
        self.clear_path();
        let ghost mid = *self;
        let mut path: Vec<Point> = Vec::new();
        let mut current = e;
        path.push(current);
        while current.x != s.x || current.y != s.y
            invariant
                n == g0.side,
                nn == n * n,
                g0.pathable(s),
                s != e,
                visited@.len() == nn,
                came_from@.len() == nn,
                bfs_chain_inv(g0, adj, s, visited@, came_from@, depth, n as int),
                (current.x as int) < n,
                (current.y as int) < n,
                visited@[fidx(n as int, current)],
                g0.pathable(current),
                depth.dom().contains(fidx(n as int, current)),
                depth.dom().contains(fidx(n as int, e)),
                (e.x as int) < n,
                (e.y as int) < n,
                visited@[fidx(n as int, e)],
                depth[fidx(n as int, current)] <= depth[fidx(n as int, e)],
                path@.len() == depth[fidx(n as int, e)] - depth[fidx(n as int, current)] + 1,
                path@.len() >= 1,
                path@[0] == e,
                path@[path@.len() - 1] == current,
                forall|k: int| 0 <= k < path@.len() ==> g0.pathable(#[trigger] path@[k]),
                forall|k: int|
                    0 <= k < path@.len() - 1 ==> neighbors_spec(g0, adj, path@[k + 1]).contains(
                        #[trigger] path@[k],
                    ),
                forall|k1: int, k2: int|
                    #![trigger path@[k1], path@[k2]]
                    0 <= k1 < k2 < path@.len() ==> depth[fidx(n as int, path@[k2])] < depth[
                        fidx(n as int, path@[k1])
                    ],
            decreases depth[fidx(n as int, current)],
        {
            let ci = flat_index(n, current);
            proof {
                assert(current != s);
                lemma_bfs_chain_step(
                    g0,
                    adj,
                    s,
                    visited@,
                    came_from@,
                    depth,
                    n as int,
                    current,
                );
            }
            let ghost path0 = path@;
            let q = came_from[ci];
            path.push(q);
            proof {
                assert forall|k1: int, k2: int|
                    #![trigger path@[k1], path@[k2]]
                    0 <= k1 < k2 < path@.len() implies depth[fidx(n as int, path@[k2])] < depth[
                    fidx(n as int, path@[k1])
                ] by {
                    if k2 == path@.len() - 1 {
                        assert(path@[k2] == q);
                        if k1 < path@.len() - 2 {
                            assert(depth[fidx(n as int, path0[path0.len() - 1])] < depth[fidx(
                                n as int,
                                path0[k1],
                            )]);
                        }
                    } else {
                        assert(path@[k1] == path0[k1] && path@[k2] == path0[k2]);
                    }
                }
            }
            current = q;
        }
        proof {
            assert(current == s);
            assert forall|k1: int, k2: int|
                #![trigger path@[k1], path@[k2]]
                0 <= k1 < k2 < path@.len() implies path@[k1] != path@[k2] by {
                if path@[k1] == path@[k2] {
                    assert(depth[fidx(n as int, path@[k2])] < depth[fidx(n as int, path@[k1])]);
                }
            }
            assert(distinct_points(path@));
        }
        self.path = path;
        proof {
            assert forall|k: int| 0 <= k < self.path@.len() implies self.grid.pathable(
                #[trigger] self.path@[k],
            ) by {
                lemma_pathable_structure(g0, self.grid, self.path@[k]);
            }
        }
        self.enter_path();
        proof {
            lemma_preserves_trans(pre, mid, *self);
            assert forall|k: int|
                0 <= k < self.path@.len() - 1 implies neighbors_spec(
                g0,
                adj,
                self.path@[k + 1],
            ).contains(#[trigger] self.path@[k]) by {
            }
            assert(valid_path_spec(g0, adj, self.path@, s, e));
            assert forall|chain: Seq<Point>|
                valid_path_spec(g0, adj, chain, s, e) implies chain.len()
                >= self.path@.len() by {
                reveal(bfs_depth_minimal);
                assert(visited@[fidx(n as int, e)]);
            }
        }
        Ok(())
    }
}


/// Machine-word addition clamped at the top of the range, as the relaxation
/// step computes it.
pub open spec fn sat_add(a: usize, b: usize) -> usize {
    if a + b > usize::MAX {
        usize::MAX
    } else {
        (a + b) as usize
    }
}

/// The cumulative cost of a path recorded end-to-start: the weight of every
/// cell entered, which is every cell but the start.
pub open spec fn path_cost(g: Grid, chain: Seq<Point>) -> int
    decreases chain.len(),
{
    if chain.len() <= 1 {
        0
    } else {
        cell_weight(g.cell_at_spec(chain[0])) + path_cost(g, chain.drop_first())
    }
}

/// A cost table is closed under relaxation: every neighbor of a finite-cost
/// in-bounds point costs at most that point's cost plus its own weight,
/// clamped at the top of the range.
pub open spec fn cost_closed(g: Grid, adj: Adjacency, cost: Seq<usize>, n: int) -> bool {
    forall|p: Point, k: int|
        #![trigger neighbors_spec(g, adj, p)[k], cost[fidx(n, p)]]
        ((p.x as int) < n && (p.y as int) < n && cost[fidx(n, p)] < usize::MAX && 0 <= k
            < neighbors_spec(g, adj, p).len()) ==> (neighbors_spec(g, adj, p)[k].x as int) < n
            && (neighbors_spec(g, adj, p)[k].y as int) < n && cost[fidx(
            n,
            neighbors_spec(g, adj, p)[k],
        )] <= sat_add(cost[fidx(n, p)], cell_weight(g.cell_at_spec(neighbors_spec(g, adj, p)[k])))
}

/// A path's cost never reads below zero.
proof fn lemma_path_cost_nonneg(g: Grid, chain: Seq<Point>)
    ensures
        path_cost(g, chain) >= 0,
    decreases chain.len(),
{
    if chain.len() > 1 {
        lemma_path_cost_nonneg(g, chain.drop_first());
    }
}

/// Walking a neighbor chain backward through a relaxation-closed cost table
/// bounds each point's table cost by the path cost, as long as the path cost
/// stays below the clamp.
proof fn lemma_chain_cost(g: Grid, adj: Adjacency, cost: Seq<usize>, n: int, chain: Seq<Point>)
    requires
        n == g.side,
        cost_closed(g, adj, cost, n),
        chain.len() >= 1,
        forall|k: int| 0 <= k < chain.len() ==> g.pathable(#[trigger] chain[k]),
        forall|k: int|
            0 <= k < chain.len() - 1 ==> neighbors_spec(g, adj, chain[k + 1]).contains(
                #[trigger] chain[k],
            ),
        cost[fidx(n, chain[chain.len() - 1])] == 0,
        path_cost(g, chain) < usize::MAX,
    ensures
        cost[fidx(n, chain[0])] <= path_cost(g, chain),
    decreases chain.len(),
{
    if chain.len() == 1 {
    } else {
        let sub = chain.drop_first();
        assert forall|k: int| 0 <= k < sub.len() implies g.pathable(#[trigger] sub[k]) by {
            assert(sub[k] == chain[k + 1]);
        }
        assert forall|k: int|
            0 <= k < sub.len() - 1 implies neighbors_spec(g, adj, sub[k + 1]).contains(
            #[trigger] sub[k],
        ) by {
            assert(sub[k] == chain[k + 1]);
            assert(sub[k + 1] == chain[k + 2]);
        }
        assert(sub[sub.len() - 1] == chain[chain.len() - 1]);
        let w0 = cell_weight(g.cell_at_spec(chain[0]));
        assert(path_cost(g, sub) <= path_cost(g, chain));
        lemma_chain_cost(g, adj, cost, n, sub);
        assert(cost[fidx(n, chain[1])] <= path_cost(g, sub));
        let k = choose|k: int|
            0 <= k < neighbors_spec(g, adj, chain[1]).len() && neighbors_spec(g, adj, chain[1])[k]
                == chain[0];
        assert(neighbors_spec(g, adj, chain[1])[k] == chain[0]);
        assert(cost[fidx(n, chain[0])] <= sat_add(cost[fidx(n, chain[1])], w0));
        assert(sat_add(cost[fidx(n, chain[1])], w0) <= path_cost(g, chain));
    }
}

impl App {
    /// Dijkstra search from the designated start toward the designated end:
    /// a queue ordered by ascending cumulative cost, lazy stale entries
    /// skipped by a cost-table freshness check on pop, relaxation on strict
    /// improvement. Always retracts the previous overlay; on success records
    /// the new path (ordered end to start) and applies its overlay. `Ok`
    /// carries a valid path; `Unreachable` between traversable endpoints
    /// proves that no path of cumulative cost below the machine-word clamp
    /// connects them under the current policy.
    pub fn calc_dijkstras_path(&mut self) -> (r: Result<(), PathError>)
        requires
            old(self).inv(),
        ensures
            search_post(*old(self), *final(self), r),
            r is Ok ==> reachable(
                old(self).grid,
                old(self).adjacency,
                old(self).start.unwrap(),
                old(self).end.unwrap(),
            ),
            r == Err::<(), PathError>(PathError::Unreachable) && old(self).start is Some && old(
                self,
            ).end is Some && old(self).grid.pathable(old(self).start.unwrap()) && old(
                self,
            ).grid.pathable(old(self).end.unwrap()) ==> !(exists|chain: Seq<Point>|
                valid_path_spec(
                    old(self).grid,
                    old(self).adjacency,
                    chain,
                    old(self).start.unwrap(),
                    old(self).end.unwrap(),
                ) && path_cost(old(self).grid, chain) < usize::MAX),
    {
        let ghost pre = *old(self);
        let (s, e) = match (self.start, self.end) {
            (Some(s), Some(e)) => (s, e),
            _ => {
                self.clear_path();
                return Err(PathError::Unreachable);
            },
        };
        let n = self.grid.side;
        if s.x >= n || s.y >= n || e.x >= n || e.y >= n {
            self.clear_path();
            return Err(PathError::OutOfBounds);
        }
        if self.grid.is_blocked(s) || self.grid.is_blocked(e) {
            self.clear_path();
            return Err(PathError::Unreachable);
        }
        if s.x == e.x && s.y == e.y {
            self.clear_path();
            let ghost mid = *self;
            let mut path: Vec<Point> = Vec::new();
            path.push(s);
            self.path = path;
            proof {
                lemma_pathable_structure(pre.grid, self.grid, s);
            }
            self.enter_path();
            proof {
                lemma_preserves_trans(pre, mid, *self);
                assert(valid_path_spec(pre.grid, pre.adjacency, seq![s], s, e));
            }
            return Ok(());
        }
        let ghost g0 = self.grid;
        let ghost adj = self.adjacency;
        let nn = self.grid.cells.len();
        proof {
            assert(nn == n * n);
        }
        let mut cost: Vec<usize> = vec![usize::MAX; nn];
        let mut came_from: Vec<Point> = vec![Point { x: 0, y: 0 }; nn];
        let si = flat_index(n, s);
        cost.set(si, 0);
        let ghost mut rank: Map<int, nat> = Map::empty().insert(si as int, 0nat);
        proof {
            lemma_dij_chain_init(g0, adj, s, cost@, came_from@, rank, n as int);
            crate::grid::lemma_flat_index(e.x as int, e.y as int, n as int);
            lemma_sum_costs_nonneg(cost@);
        }
        let mut frontier: Vec<WeightedPoint> = Vec::new();
        frontier.push(WeightedPoint::from((s, 0)));
        proof {
            assert(cost@[fidx(n as int, e)] == usize::MAX) by {
                if fidx(n as int, e) == fidx(n as int, s) {
                    lemma_fidx_inj(n as int, e, s);
                }
            }
            assert forall|p: Point|
                ((p.x as int) < n && (p.y as int) < n && cost@[#[trigger] fidx(n as int, p)]
                    < usize::MAX) implies (exists|i: int|
                0 <= i < frontier@.len() && frontier@[i].point == p && frontier@[i].weight
                    == cost@[fidx(n as int, p)]) by {
                crate::grid::lemma_flat_index(p.x as int, p.y as int, n as int);
                if fidx(n as int, p) == si as int {
                    lemma_fidx_inj(n as int, p, s);
                    assert(frontier@[0].point == p && frontier@[0].weight == cost@[fidx(
                        n as int,
                        p,
                    )]);
                }
            }
        }
        let mut head: usize = 0;
        let mut found = false;
        while head < frontier.len() && !found
            invariant
                *self == pre,
                self.inv(),
                g0 == self.grid,
                adj == self.adjacency,
                n == g0.side,
                nn == n * n,
                g0.pathable(s),
                g0.pathable(e),
                s != e,
                cost@.len() == nn,
                came_from@.len() == nn,
                head <= frontier@.len(),
                0 <= fidx(n as int, s) < nn,
                0 <= fidx(n as int, e) < nn,
                cost@[fidx(n as int, s)] == 0,
                0 <= sum_costs(cost@),
                forall|i: int|
                    0 <= i < frontier@.len() ==> g0.pathable(#[trigger] frontier@[i].point)
                        && 0 <= fidx(n as int, frontier@[i].point) < nn && frontier@[i].weight
                        < usize::MAX && cost@[fidx(n as int, frontier@[i].point)]
                        <= frontier@[i].weight,
                dij_chain_inv(g0, adj, s, cost@, came_from@, rank, n as int),
                found ==> (e.x as int) < n && (e.y as int) < n && cost@[fidx(n as int, e)]
                    < usize::MAX,
                !found ==> cost@[fidx(n as int, e)] == usize::MAX,
                forall|p: Point|
                    ((p.x as int) < n && (p.y as int) < n && cost@[#[trigger] fidx(n as int, p)]
                        < usize::MAX) ==> exists|i: int|
                        0 <= i < frontier@.len() && frontier@[i].point == p && frontier@[i].weight
                            == cost@[fidx(n as int, p)],
                !found ==> forall|i: int, k: int|
                    #![trigger neighbors_spec(g0, adj, frontier@[i].point)[k]]
                    (0 <= i < head && 0 <= k < neighbors_spec(g0, adj, frontier@[i].point).len())
                        ==> cost@[fidx(n as int, frontier@[i].point)] < frontier@[i].weight
                        || cost@[fidx(n as int, neighbors_spec(g0, adj, frontier@[i].point)[k])]
                        <= sat_add(
                        frontier@[i].weight,
                        cell_weight(g0.cell_at_spec(neighbors_spec(g0, adj, frontier@[i].point)[k])),
                    ),
            decreases 2 * sum_costs(cost@) + frontier@.len() - head,
        {
            let mut m: usize = head;
            let mut k: usize = head + 1;
            while k < frontier.len()
                invariant
                    head <= m < frontier@.len(),
                    head < k <= frontier@.len(),
                    forall|i: int|
                        head <= i < k ==> frontier@[m as int].weight <= #[trigger] frontier@[
                            i
                        ].weight,
                decreases frontier@.len() - k,
            {
                if frontier[k].weight < frontier[m].weight {
                    m = k;
                }
                k = k + 1;
            }
            let ghost fsnap = frontier@;
            let popped = frontier[m];
            let at_head = frontier[head];
            frontier.set(m, at_head);
            frontier.set(head, popped);
            proof {
                assert forall|i: int|
                    0 <= i < frontier@.len() implies g0.pathable(#[trigger] frontier@[i].point)
                    && 0 <= fidx(n as int, frontier@[i].point) < nn && frontier@[i].weight
                    < usize::MAX && cost@[fidx(n as int, frontier@[i].point)] <= frontier@[
                    i
                ].weight by {
                    if i == m as int || i == head as int {
                    }
                }
                assert forall|p: Point|
                    ((p.x as int) < n && (p.y as int) < n && cost@[#[trigger] fidx(n as int, p)]
                        < usize::MAX) implies (exists|i: int|
                    0 <= i < frontier@.len() && frontier@[i].point == p && frontier@[i].weight
                        == cost@[fidx(n as int, p)]) by {
                    let i0 = choose|i: int|
                        0 <= i < fsnap.len() && fsnap[i].point == p && fsnap[i].weight == cost@[
                            fidx(n as int, p)
                        ];
                    if i0 == m as int {
                        assert(frontier@[head as int] == fsnap[i0]);
                    } else if i0 == head as int {
                        assert(frontier@[m as int] == fsnap[i0]);
                    } else {
                        assert(frontier@[i0] == fsnap[i0]);
                    }
                }
                assert forall|i: int, k: int|
                    #![trigger neighbors_spec(g0, adj, frontier@[i].point)[k]]
                    (0 <= i < head && 0 <= k < neighbors_spec(
                        g0,
                        adj,
                        frontier@[i].point,
                    ).len()) implies cost@[fidx(n as int, frontier@[i].point)] < frontier@[
                    i
                ].weight || cost@[fidx(n as int, neighbors_spec(g0, adj, frontier@[i].point)[k])]
                    <= sat_add(
                    frontier@[i].weight,
                    cell_weight(g0.cell_at_spec(neighbors_spec(g0, adj, frontier@[i].point)[k])),
                ) by {
                    assert(frontier@[i] == fsnap[i]);
                    assert(neighbors_spec(g0, adj, fsnap[i].point)[k] == neighbors_spec(
                        g0,
                        adj,
                        frontier@[i].point,
                    )[k]);
                }
            }
            head = head + 1;
            let cur = popped.point;
            let ci = flat_index(n, cur);
            if cost[ci] < popped.weight {
                proof {
                    assert forall|i: int, k: int|
                        #![trigger neighbors_spec(g0, adj, frontier@[i].point)[k]]
                        (0 <= i < head && 0 <= k < neighbors_spec(
                            g0,
                            adj,
                            frontier@[i].point,
                        ).len()) implies cost@[fidx(n as int, frontier@[i].point)] < frontier@[
                        i
                    ].weight || cost@[fidx(
                        n as int,
                        neighbors_spec(g0, adj, frontier@[i].point)[k],
                    )] <= sat_add(
                        frontier@[i].weight,
                        cell_weight(
                            g0.cell_at_spec(neighbors_spec(g0, adj, frontier@[i].point)[k]),
                        ),
                    ) by {
                        if i == head - 1 {
                            assert(frontier@[i] == popped);
                        }
                    }
                }
                continue ;
            }
            let cost_cur = cost[ci];
            proof {
                assert(popped.weight == cost_cur);
            }
            let nbrs = self.neighbors_of(cur);
            let mut j: usize = 0;
            let ghost entry_measure = 2 * sum_costs(cost@) + frontier@.len() - head;
            while j < nbrs.len() && !found
                invariant
                    *self == pre,
                    self.inv(),
                    g0 == self.grid,
                    adj == self.adjacency,
                    n == g0.side,
                    nn == n * n,
                    g0.pathable(s),
                    g0.pathable(e),
                    s != e,
                    cost@.len() == nn,
                    came_from@.len() == nn,
                    head <= frontier@.len(),
                    0 <= fidx(n as int, s) < nn,
                    0 <= fidx(n as int, e) < nn,
                    cost@[fidx(n as int, s)] == 0,
                    0 <= sum_costs(cost@),
                    g0.pathable(cur),
                    g0.contains_point(cur),
                    0 <= fidx(n as int, cur) < nn,
                    cost_cur == cost@[fidx(n as int, cur)],
                    cost_cur < usize::MAX,
                    nbrs@ == neighbors_spec(g0, adj, cur),
                    j <= nbrs@.len(),
                    forall|i: int|
                        0 <= i < frontier@.len() ==> g0.pathable(#[trigger] frontier@[i].point)
                            && 0 <= fidx(n as int, frontier@[i].point) < nn && frontier@[i].weight
                            < usize::MAX && cost@[fidx(n as int, frontier@[i].point)]
                            <= frontier@[i].weight,
                    dij_chain_inv(g0, adj, s, cost@, came_from@, rank, n as int),
                    found ==> (e.x as int) < n && (e.y as int) < n && cost@[fidx(n as int, e)]
                        < usize::MAX,
                    !found ==> cost@[fidx(n as int, e)] == usize::MAX,
                    head >= 1,
                    frontier@[head - 1].point == cur,
                    frontier@[head - 1].weight == cost_cur,
                    forall|p: Point|
                        ((p.x as int) < n && (p.y as int) < n && cost@[#[trigger] fidx(
                            n as int,
                            p,
                        )] < usize::MAX) ==> exists|i: int|
                            0 <= i < frontier@.len() && frontier@[i].point == p
                                && frontier@[i].weight == cost@[fidx(n as int, p)],
                    !found ==> forall|i: int, k: int|
                        #![trigger neighbors_spec(g0, adj, frontier@[i].point)[k]]
                        (0 <= i < head - 1 && 0 <= k < neighbors_spec(
                            g0,
                            adj,
                            frontier@[i].point,
                        ).len()) ==> cost@[fidx(n as int, frontier@[i].point)] < frontier@[
                        i
                    ].weight || cost@[fidx(
                        n as int,
                        neighbors_spec(g0, adj, frontier@[i].point)[k],
                    )] <= sat_add(
                        frontier@[i].weight,
                        cell_weight(
                            g0.cell_at_spec(neighbors_spec(g0, adj, frontier@[i].point)[k]),
                        ),
                    ),
                    !found ==> forall|k: int|
                        0 <= k < j ==> cost@[fidx(n as int, #[trigger] nbrs@[k])] <= sat_add(
                            cost_cur,
                            cell_weight(g0.cell_at_spec(nbrs@[k])),
                        ),
                    2 * sum_costs(cost@) + frontier@.len() - head <= entry_measure,
                decreases nbrs@.len() - j,
            {
                let nb = nbrs[j];
                proof {
                    lemma_neighbors_pathable(g0, adj, cur);
                    assert(nbrs@[j as int] == neighbors_spec(g0, adj, cur)[j as int]);
                    assert(g0.pathable(nb));
                }
                let fi = flat_index(n, nb);
                let w = self.grid.get_weight(nb);
                let new_cost = if cost_cur > usize::MAX - w {
                    usize::MAX
                } else {
                    cost_cur + w
                };
                if new_cost < cost[fi] {
                    let ghost cost0 = cost@;
                    let ghost came0 = came_from@;
                    let ghost rank0 = rank;
                    let ghost frontier0 = frontier@;
                    cost.set(fi, new_cost);
                    came_from.set(fi, cur);
                    frontier.push(WeightedPoint::from((nb, new_cost)));
                    proof {
                        assert(new_cost == sat_add(cost_cur, cell_weight(g0.cell_at_spec(nb))));
                        rank = rank.insert(
                            fi as int,
                            (rank0[fidx(n as int, cur)] + 1) as nat,
                        );
                        lemma_dij_chain_step(g0, adj, s, cost0, came0, rank0, n as int, cur);
                        lemma_dij_chain_relax(
                            g0,
                            adj,
                            s,
                            cost0,
                            came0,
                            rank0,
                            n as int,
                            cur,
                            nb,
                            new_cost,
                        );
                        lemma_sum_costs_set(cost0, fi as int, new_cost);
                        lemma_sum_costs_nonneg(cost@);
                        assert(fi as int != fidx(n as int, s));
                        assert forall|p: Point|
                            ((p.x as int) < n && (p.y as int) < n && cost@[#[trigger] fidx(
                                n as int,
                                p,
                            )] < usize::MAX) implies (exists|i: int|
                            0 <= i < frontier@.len() && frontier@[i].point == p
                                && frontier@[i].weight == cost@[fidx(n as int, p)]) by {
                            crate::grid::lemma_flat_index(p.x as int, p.y as int, n as int);
                            if fidx(n as int, p) == fi as int {
                                lemma_fidx_inj(n as int, p, nb);
                                assert(frontier@[frontier@.len() - 1].point == p);
                                assert(frontier@[frontier@.len() - 1].weight == cost@[fidx(
                                    n as int,
                                    p,
                                )]);
                            } else {
                                assert(cost0[fidx(n as int, p)] < usize::MAX);
                                let i0 = choose|i: int|
                                    0 <= i < frontier0.len() && frontier0[i].point == p
                                        && frontier0[i].weight == cost0[fidx(n as int, p)];
                                assert(frontier@[i0] == frontier0[i0]);
                            }
                        }
                        assert forall|i: int, k: int|
                            #![trigger neighbors_spec(g0, adj, frontier@[i].point)[k]]
                            (0 <= i < head - 1 && 0 <= k < neighbors_spec(
                                g0,
                                adj,
                                frontier@[i].point,
                            ).len()) implies cost@[fidx(n as int, frontier@[i].point)]
                            < frontier@[i].weight || cost@[fidx(
                            n as int,
                            neighbors_spec(g0, adj, frontier@[i].point)[k],
                        )] <= sat_add(
                            frontier@[i].weight,
                            cell_weight(
                                g0.cell_at_spec(neighbors_spec(g0, adj, frontier@[i].point)[k]),
                            ),
                        ) by {
                            assert(frontier@[i] == frontier0[i]);
                            let pt = frontier0[i].point;
                            let q = neighbors_spec(g0, adj, pt)[k];
                            lemma_neighbors_pathable(g0, adj, pt);
                            crate::grid::lemma_flat_index(q.x as int, q.y as int, n as int);
                            crate::grid::lemma_flat_index(pt.x as int, pt.y as int, n as int);
                            assert(cost0[fidx(n as int, pt)] < frontier0[i].weight || cost0[fidx(
                                n as int,
                                q,
                            )] <= sat_add(
                                frontier0[i].weight,
                                cell_weight(g0.cell_at_spec(q)),
                            ));
                        }
                        assert forall|k: int| 0 <= k < j + 1 implies cost@[fidx(
                            n as int,
                            #[trigger] nbrs@[k],
                        )] <= sat_add(cost_cur, cell_weight(g0.cell_at_spec(nbrs@[k]))) by {
                            let q = nbrs@[k];
                            lemma_neighbors_pathable(g0, adj, cur);
                            crate::grid::lemma_flat_index(q.x as int, q.y as int, n as int);
                            if k < j {
                                assert(cost0[fidx(n as int, q)] <= sat_add(
                                    cost_cur,
                                    cell_weight(g0.cell_at_spec(q)),
                                ));
                            } else {
                                assert(fidx(n as int, q) == fi as int);
                            }
                        }
                    }
                    if nb.x == e.x && nb.y == e.y {
                        found = true;
                    }
                } else {
                    proof {
                        assert(cost@[fidx(n as int, nb)] <= new_cost);
                        assert(new_cost == sat_add(cost_cur, cell_weight(g0.cell_at_spec(nb))));
                    }
                }
                j = j + 1;
            }
            proof {
                if !found {
                    assert forall|i: int, k: int|
                        #![trigger neighbors_spec(g0, adj, frontier@[i].point)[k]]
                        (0 <= i < head && 0 <= k < neighbors_spec(
                            g0,
                            adj,
                            frontier@[i].point,
                        ).len()) implies cost@[fidx(n as int, frontier@[i].point)] < frontier@[
                        i
                    ].weight || cost@[fidx(
                        n as int,
                        neighbors_spec(g0, adj, frontier@[i].point)[k],
                    )] <= sat_add(
                        frontier@[i].weight,
                        cell_weight(
                            g0.cell_at_spec(neighbors_spec(g0, adj, frontier@[i].point)[k]),
                        ),
                    ) by {
                        if i == head - 1 {
                            assert(frontier@[i].point == cur);
                            assert(neighbors_spec(g0, adj, frontier@[i].point)[k] == nbrs@[k]);
                            assert(cost@[fidx(n as int, nbrs@[k])] <= sat_add(
                                cost_cur,
                                cell_weight(g0.cell_at_spec(nbrs@[k])),
                            ));
                        }
                    }
                }
            }
        }
        if !found {
            proof {
                assert(head == frontier@.len());
                assert(cost_closed(g0, adj, cost@, n as int)) by {
                    assert forall|p: Point, k: int|
                        #![trigger neighbors_spec(g0, adj, p)[k], cost@[fidx(n as int, p)]]
                        ((p.x as int) < n && (p.y as int) < n && cost@[fidx(n as int, p)]
                            < usize::MAX && 0 <= k < neighbors_spec(
                            g0,
                            adj,
                            p,
                        ).len()) implies (neighbors_spec(g0, adj, p)[k].x as int) < n
                        && (neighbors_spec(g0, adj, p)[k].y as int) < n && cost@[fidx(
                        n as int,
                        neighbors_spec(g0, adj, p)[k],
                    )] <= sat_add(
                        cost@[fidx(n as int, p)],
                        cell_weight(g0.cell_at_spec(neighbors_spec(g0, adj, p)[k])),
                    ) by {
                        let i = choose|i: int|
                            0 <= i < frontier@.len() && frontier@[i].point == p
                                && frontier@[i].weight == cost@[fidx(n as int, p)];
                        assert(neighbors_spec(g0, adj, frontier@[i].point)[k] == neighbors_spec(
                            g0,
                            adj,
                            p,
                        )[k]);
                        lemma_neighbors_pathable(g0, adj, p);
                    }
                }
                assert(!(exists|chain: Seq<Point>|
                    valid_path_spec(g0, adj, chain, s, e) && path_cost(g0, chain)
                        < usize::MAX)) by {
                    if exists|chain: Seq<Point>|
                        valid_path_spec(g0, adj, chain, s, e) && path_cost(g0, chain)
                            < usize::MAX {
                        let chain = choose|chain: Seq<Point>|
                            valid_path_spec(g0, adj, chain, s, e) && path_cost(g0, chain)
                                < usize::MAX;
                        lemma_path_cost_nonneg(g0, chain);
                        lemma_chain_cost(g0, adj, cost@, n as int, chain);
                    }
                }
            }
            self.clear_path();
            return Err(PathError::Unreachable);
        }
        proof {
            lemma_dij_chain_step(g0, adj, s, cost@, came_from@, rank, n as int, e);
        }
        self.clear_path();
        let ghost mid = *self;
        let mut path: Vec<Point> = Vec::new();
        let mut current = e;
        path.push(current);
        while current.x != s.x || current.y != s.y
            invariant
                n == g0.side,
                nn == n * n,
                g0.pathable(s),
                s != e,
                cost@.len() == nn,
                came_from@.len() == nn,
                dij_chain_inv(g0, adj, s, cost@, came_from@, rank, n as int),
                (current.x as int) < n,
                (current.y as int) < n,
                0 <= fidx(n as int, current) < nn,
                cost@[fidx(n as int, current)] < usize::MAX,
                g0.pathable(current),
                path@.len() >= 1,
                path@[0] == e,
                path@[path@.len() - 1] == current,
                forall|k: int| 0 <= k < path@.len() ==> g0.pathable(#[trigger] path@[k]),
                forall|k: int|
                    0 <= k < path@.len() - 1 ==> neighbors_spec(g0, adj, path@[k + 1]).contains(
                        #[trigger] path@[k],
                    ),
                forall|k1: int, k2: int|
                    #![trigger path@[k1], path@[k2]]
                    0 <= k1 < k2 < path@.len() ==> cost@[fidx(n as int, path@[k2])] < cost@[
                        fidx(n as int, path@[k1])
                    ] || (cost@[fidx(n as int, path@[k2])] == cost@[fidx(n as int, path@[k1])]
                        && rank[fidx(n as int, path@[k2])] < rank[fidx(n as int, path@[k1])]),
            decreases cost@[fidx(n as int, current)], rank[fidx(n as int, current)],
        {
            let ci = flat_index(n, current);
            proof {
                assert(current != s);
                lemma_dij_chain_step(g0, adj, s, cost@, came_from@, rank, n as int, current);
                crate::grid::lemma_flat_index(
                    came_from@[ci as int].x as int,
                    came_from@[ci as int].y as int,
                    n as int,
                );
            }
            let ghost path0 = path@;
            let q = came_from[ci];
            path.push(q);
            proof {
                assert forall|k1: int, k2: int|
                    #![trigger path@[k1], path@[k2]]
                    0 <= k1 < k2 < path@.len() implies cost@[fidx(n as int, path@[k2])] < cost@[
                    fidx(n as int, path@[k1])
                ] || (cost@[fidx(n as int, path@[k2])] == cost@[fidx(n as int, path@[k1])]
                    && rank[fidx(n as int, path@[k2])] < rank[fidx(n as int, path@[k1])]) by {
                    if k2 == path@.len() - 1 {
                        assert(path@[k2] == q);
                        if k1 < path@.len() - 2 {
                            let a = fidx(n as int, path0[path0.len() - 1]);
                            let b = fidx(n as int, path0[k1]);
                            assert(cost@[a] < cost@[b] || (cost@[a] == cost@[b] && rank[a]
                                < rank[b]));
                        }
                    } else {
                        assert(path@[k1] == path0[k1] && path@[k2] == path0[k2]);
                    }
                }
            }
            current = q;
        }
        proof {
            assert(current == s);
            assert forall|k1: int, k2: int|
                #![trigger path@[k1], path@[k2]]
                0 <= k1 < k2 < path@.len() implies path@[k1] != path@[k2] by {
                if path@[k1] == path@[k2] {
                    assert(fidx(n as int, path@[k1]) == fidx(n as int, path@[k2]));
                }
            }
            assert(distinct_points(path@));
        }
        self.path = path;
        proof {
            assert forall|k: int| 0 <= k < self.path@.len() implies self.grid.pathable(
                #[trigger] self.path@[k],
            ) by {
                lemma_pathable_structure(g0, self.grid, self.path@[k]);
            }
        }
        self.enter_path();
        proof {
            lemma_preserves_trans(pre, mid, *self);
            assert(valid_path_spec(g0, adj, self.path@, s, e));
        }
        Ok(())
    }
}


/// Which pointer button a designation event carries. `Left` designates the
/// start cell, `Right` the end cell; any other button does nothing.
#[derive(PartialEq, Eq, Structural, Clone, Copy, Debug)]
pub enum MouseButton {
    Left,
    Right,
    Other,
}

impl App {
    /// Handles a designation event at grid point `p`. A left click designates
    /// `p` as the start unless `p` is the current end; a right click
    /// designates `p` as the end unless `p` is the current start. Either
    /// designation triggers a fresh Dijkstra search; a refused or unknown
    /// click changes nothing.
    pub fn click(&mut self, button: MouseButton, p: Point) -> (r: Result<(), PathError>)
        requires
            old(self).inv(),
        ensures
            final(self).inv(),
            button == MouseButton::Left && (old(self).end is None || old(self).end.unwrap() != p)
                ==> final(self).start == Some(p) && search_post(
                App { start: Some(p), ..*old(self) },
                *final(self),
                r,
            ),
            button == MouseButton::Right && (old(self).start is None || old(self).start.unwrap()
                != p) ==> final(self).end == Some(p) && search_post(
                App { end: Some(p), ..*old(self) },
                *final(self),
                r,
            ),
            button == MouseButton::Left && !(old(self).end is None || old(self).end.unwrap() != p)
                ==> *final(self) == *old(self) && r == Ok::<(), PathError>(()),
            button == MouseButton::Right && !(old(self).start is None || old(
                self,
            ).start.unwrap() != p) ==> *final(self) == *old(self) && r == Ok::<(), PathError>(()),
            button == MouseButton::Other ==> *final(self) == *old(self) && r == Ok::<(),
                PathError,
            >(()),
    {
        match button {
            MouseButton::Left => {
                let run = match self.end {
                    None => true,
                    Some(q) => q.x != p.x || q.y != p.y,
                };
                if run {
                    self.start = Some(p);
                    self.calc_dijkstras_path()
                } else {
                    Ok(())
                }
            },
            MouseButton::Right => {
                let run = match self.start {
                    None => true,
                    Some(q) => q.x != p.x || q.y != p.y,
                };
                if run {
                    self.end = Some(p);
                    self.calc_dijkstras_path()
                } else {
                    Ok(())
                }
            },
            MouseButton::Other => Ok(()),
        }
    }
}


/// Blocked cells never appear on any returned path: a point whose cell is
/// the `Blocked` variant lies on no path a search can record.
pub proof fn lemma_path_avoids_blocked(
    g: Grid,
    adj: Adjacency,
    path: Seq<Point>,
    s: Point,
    e: Point,
    p: Point,
)
    requires
        valid_path_spec(g, adj, path, s, e),
        g.contains_point(p),
        cell_blocked(g.cell_at_spec(p)),
    ensures
        !path.contains(p),
{
    if path.contains(p) {
        let k = choose|k: int| 0 <= k < path.len() && path[k] == p;
        assert(g.pathable(path[k]));
    }
}

/// The overlay invariant read off a well-formed application state: a cell
/// carries the `on_path` flag exactly when it lies on the most recently
/// recorded path, so after a failed search (empty path) no cell is flagged.
pub proof fn lemma_overlay_matches_path(app: App, x: int, y: int)
    requires
        app.inv(),
        0 <= x < app.grid.side,
        0 <= y < app.grid.side,
    ensures
        crate::grid::cell_flag(app.grid.cell(x, y)) == app.path@.contains(
            Point { x: x as usize, y: y as usize },
        ),
        app.path@.len() == 0 ==> !crate::grid::cell_flag(app.grid.cell(x, y)),
{
}


/// The pinned part of search determinism: two searches over structurally
/// equal grids with the same endpoints and policy record the same path and
/// outcome whenever the endpoints are degenerate — unset, out of bounds,
/// blocked, or equal. (For distinct traversable endpoints the postcondition
/// pins the path's validity but not its identity, so that case is not stated
/// here.)
pub proof fn lemma_search_pinned_cases(
    pre1: App,
    post1: App,
    r1: Result<(), PathError>,
    pre2: App,
    post2: App,
    r2: Result<(), PathError>,
)
    requires
        search_post(pre1, post1, r1),
        search_post(pre2, post2, r2),
        pre1.start == pre2.start,
        pre1.end == pre2.end,
        pre1.adjacency == pre2.adjacency,
        same_structure(pre1.grid, pre2.grid),
        !(pre1.start is Some && pre1.end is Some && pre1.grid.pathable(pre1.start.unwrap())
            && pre1.grid.pathable(pre1.end.unwrap()) && pre1.start.unwrap()
            != pre1.end.unwrap()),
    ensures
        r1 == r2,
        post1.path@ == post2.path@,
{
    if pre1.start is None || pre1.end is None {
        assert(r1 == Err::<(), PathError>(PathError::Unreachable));
        assert(r2 == Err::<(), PathError>(PathError::Unreachable));
    } else {
        let s = pre1.start.unwrap();
        let e = pre1.end.unwrap();
        lemma_pathable_structure(pre1.grid, pre2.grid, s);
        lemma_pathable_structure(pre1.grid, pre2.grid, e);
        if !pre1.grid.contains_point(s) || !pre1.grid.contains_point(e) {
            assert(r1 == Err::<(), PathError>(PathError::OutOfBounds));
            assert(r2 == Err::<(), PathError>(PathError::OutOfBounds));
        } else {
            assert(crate::grid::same_cell_structure(
                pre1.grid.cell(s.x as int, s.y as int),
                pre2.grid.cell(s.x as int, s.y as int),
            ));
            assert(crate::grid::same_cell_structure(
                pre1.grid.cell(e.x as int, e.y as int),
                pre2.grid.cell(e.x as int, e.y as int),
            ));
            if cell_blocked(pre1.grid.cell_at_spec(s)) || cell_blocked(pre1.grid.cell_at_spec(e)) {
                assert(r1 == Err::<(), PathError>(PathError::Unreachable));
                assert(r2 == Err::<(), PathError>(PathError::Unreachable));
            } else {
                assert(s == e);
                assert(r1 is Ok && post1.path@ =~= seq![s]);
                assert(r2 is Ok && post2.path@ =~= seq![s]);
                match (r1, r2) {
                    (Ok(u1), Ok(u2)) => {
                        assert(u1 == u2);
                    },
                    _ => {
                        assert(false);
                    },
                }
            }
        }
    }
}

} // verus!
