use vstd::prelude::*;

use crate::counting::{count_eq_grid, lemma_count_grid_update};
use crate::grid::{manhattan, GridPos, TernaryObstacle};
use crate::order::{
    lemma_push_by_rank, lemma_search_before_push, lemma_search_no_later_push,
    lemma_search_order_trans, search_before, search_no_later, step_rank,
};
use crate::planner::{with_cell, PathPlanner};

verus! {

/// Two positions one 4-connected step apart.
pub open spec fn adjacent(a: GridPos, b: GridPos) -> bool {
    manhattan(a, b) == 1
}

/// Step `i` of `q` goes to an adjacent position.
pub open spec fn step_ok(q: Seq<GridPos>, i: int) -> bool {
    adjacent(q[i], q[i + 1])
}

/// The cells, column by column, of a grid of booleans.
pub open spec fn bool_cells(v: Seq<Vec<bool>>) -> Seq<Seq<bool>> {
    v.map_values(|c: Vec<bool>| c@)
}

/// The paths held by a queue.
pub open spec fn queued_paths(v: Seq<Vec<GridPos>>) -> Seq<Seq<GridPos>> {
    v.map_values(|c: Vec<GridPos>| c@)
}

pub open spec fn marked(vis: Seq<Seq<bool>>, p: GridPos) -> bool {
    vis[p.x as int][p.y as int]
}

impl PathPlanner {
    /// A cell a path may cross: on the grid and not Blocked (Unknown counts as
    /// passable).
    pub open spec fn passable(&self, p: GridPos) -> bool {
        self.cell_at(p) != TernaryObstacle::Blocked
    }

    /// A non-empty sequence of passable cells, each a 4-connected step from the
    /// one before.
    pub open spec fn is_walk(&self, q: Seq<GridPos>) -> bool {
        &&& q.len() > 0
        &&& forall|i: int| 0 <= i < q.len() ==> self.passable(#[trigger] q[i])
        &&& forall|i: int| 0 <= i < q.len() - 1 ==> #[trigger] step_ok(q, i)
    }

    /// A walk from `s` to `g`.
    pub open spec fn is_walk_between(&self, q: Seq<GridPos>, s: GridPos, g: GridPos) -> bool {
        &&& self.is_walk(q)
        &&& q[0] == s
        &&& q.last() == g
    }

    /// Some walk leads from `s` to `g`.
    pub open spec fn reachable(&self, s: GridPos, g: GridPos) -> bool {
        exists|q: Seq<GridPos>| self.is_walk_between(q, s, g)
    }

    /// `p` ends a queued path that comes no later, in search order, than path `i`
    /// extended to `p`.
    pub open spec fn covers(&self, qs: Seq<Seq<GridPos>>, i: int, p: GridPos) -> bool {
        exists|j: int|
            0 <= j < qs.len() && (#[trigger] qs[j]).last() == p && search_no_later(qs[j], qs[i].push(p))
    }

    /// What the breadth-first search keeps: `qs` holds walks from `start` in
    /// strictly increasing search order, ending at distinct cells, which are
    /// exactly the marked cells of `vis`; the first `done` of them are not the
    /// goal, and every passable neighbour of their ends is reached by a queued
    /// path no later than theirs extended to it.
    pub open spec fn bfs_inv(
        &self,
        start: GridPos,
        goal: GridPos,
        vis: Seq<Seq<bool>>,
        qs: Seq<Seq<GridPos>>,
        done: int,
    ) -> bool {
        &&& self.wf()
        &&& vis.len() == self.width
        &&& forall|x: int| 0 <= x < vis.len() ==> (#[trigger] vis[x]).len() == self.height
        &&& qs.len() >= 1
        &&& qs[0] == seq![start]
        &&& 0 <= done <= qs.len()
        &&& forall|i: int| 0 <= i < qs.len() ==> self.is_walk(#[trigger] qs[i]) && qs[i][0] == start
        &&& forall|i: int, j: int|
            0 <= i < j < qs.len() ==> search_before(#[trigger] qs[i], #[trigger] qs[j])
        &&& forall|p: GridPos|
            self.in_bounds(p) ==> (#[trigger] marked(vis, p) <==> exists|i: int|
                0 <= i < qs.len() && (#[trigger] qs[i]).last() == p)
        &&& forall|i: int, j: int|
            0 <= i < j < qs.len() ==> (#[trigger] qs[i]).last() != (#[trigger] qs[j]).last()
        &&& forall|i: int| 0 <= i < done ==> (#[trigger] qs[i]).last() != goal
        &&& forall|i: int, p: GridPos|
            0 <= i < done && adjacent((#[trigger] qs[i]).last(), p) && self.passable(p)
                ==> #[trigger] self.covers(qs, i, p)
    }
}

/// A walk extended by a passable neighbour of its end is a walk.
proof fn lemma_walk_push(planner: &PathPlanner, q: Seq<GridPos>, p: GridPos)
    requires
        planner.is_walk(q),
        adjacent(q.last(), p),
        planner.passable(p),
    ensures
        planner.is_walk(q.push(p)),
        q.push(p)[0] == q[0],
        q.push(p).last() == p,
{
    let q2 = q.push(p);
    assert forall|i: int| 0 <= i < q2.len() - 1 implies #[trigger] step_ok(q2, i) by {
        if i < q.len() - 1 {
            assert(step_ok(q, i));
        }
    }
    assert forall|i: int| 0 <= i < q2.len() implies planner.passable(#[trigger] q2[i]) by {
        if i < q.len() {
            assert(planner.passable(q[i]));
        }
    }
}

/// A walk without its last cell is a walk.
proof fn lemma_walk_drop_last(planner: &PathPlanner, q: Seq<GridPos>)
    requires
        planner.is_walk(q),
        q.len() > 1,
    ensures
        planner.is_walk(q.drop_last()),
        q.drop_last()[0] == q[0],
        adjacent(q.drop_last().last(), q.last()),
        planner.passable(q.last()),
{
    let q2 = q.drop_last();
    assert forall|i: int| 0 <= i < q2.len() - 1 implies #[trigger] step_ok(q2, i) by {
        assert(step_ok(q, i));
    }
    assert forall|i: int| 0 <= i < q2.len() implies planner.passable(#[trigger] q2[i]) by {
        assert(planner.passable(q[i]));
    }
    assert(step_ok(q, q.len() - 2));
    assert(planner.passable(q[q.len() - 1]));
}

/// Covering survives growing the queue at its end.
proof fn lemma_covers_grow(planner: &PathPlanner, qa: Seq<Seq<GridPos>>, qb: Seq<Seq<GridPos>>, i: int, p: GridPos)
    requires
        planner.covers(qa, i, p),
        0 <= i < qa.len() <= qb.len(),
        forall|k: int| 0 <= k < qa.len() ==> qb[k] == qa[k],
    ensures
        planner.covers(qb, i, p),
{
    let j = choose|j: int|
        0 <= j < qa.len() && (#[trigger] qa[j]).last() == p && search_no_later(qa[j], qa[i].push(p));
    assert(qb[j] == qa[j]);
    assert(qb[i] == qa[i]);
}

impl PathPlanner {
    /// Every walk from `start` ends at the end of a queued path that comes no
    /// later than it in search order, or else some path from the `done`-th on
    /// comes no later than it.
    proof fn lemma_reach(
        &self,
        start: GridPos,
        goal: GridPos,
        vis: Seq<Seq<bool>>,
        qs: Seq<Seq<GridPos>>,
        done: int,
        q: Seq<GridPos>,
    )
        requires
            self.bfs_inv(start, goal, vis, qs, done),
            self.is_walk(q),
            q[0] == start,
        ensures
            exists|j: int|
                0 <= j < qs.len() && search_no_later(#[trigger] qs[j], q) && (qs[j].last() == q.last()
                    || j >= done),
        decreases q.len(),
    {
        if q.len() == 1 {
            assert(qs[0] =~= q);
            assert(search_no_later(qs[0], q));
        } else {
            let q2 = q.drop_last();
            lemma_walk_drop_last(self, q);
            self.lemma_reach(start, goal, vis, qs, done, q2);
            let j2 = choose|j: int|
                0 <= j < qs.len() && search_no_later(#[trigger] qs[j], q2) && (qs[j].last() == q2.last()
                    || j >= done);
            assert(q2.push(q.last()) =~= q);
            if j2 >= done {
                assert(search_before(qs[j2], q));
            } else {
                assert(qs[j2].last() == q2.last());
                assert(self.covers(qs, j2, q.last()));
                let k = choose|k: int|
                    0 <= k < qs.len() && (#[trigger] qs[k]).last() == q.last() && search_no_later(
                        qs[k],
                        qs[j2].push(q.last()),
                    );
                lemma_search_no_later_push(qs[j2], q2, q.last());
                lemma_search_order_trans(qs[k], qs[j2].push(q.last()), q);
                assert(search_no_later(qs[k], q));
            }
        }
    }

    /// When the search dequeues the goal, the path it holds is the first walk to
    /// the goal in search order: a shortest one, and among those the one whose
    /// steps come first by rank.
    proof fn lemma_found(
        &self,
        start: GridPos,
        goal: GridPos,
        vis: Seq<Seq<bool>>,
        qs: Seq<Seq<GridPos>>,
        c: int,
    )
        requires
            self.bfs_inv(start, goal, vis, qs, c),
            0 <= c < qs.len(),
            qs[c].last() == goal,
        ensures
            self.is_walk_between(qs[c], start, goal),
            forall|q: Seq<GridPos>| #[trigger]
                self.is_walk_between(q, start, goal) ==> search_no_later(qs[c], q),
    {
        assert(self.is_walk(qs[c]) && qs[c][0] == start);
        assert forall|q: Seq<GridPos>| #[trigger] self.is_walk_between(q, start, goal) implies search_no_later(
            qs[c],
            q,
        ) by {
            self.lemma_reach(start, goal, vis, qs, c, q);
            let j = choose|j: int|
                0 <= j < qs.len() && search_no_later(#[trigger] qs[j], q) && (qs[j].last() == q.last()
                    || j >= c);
            if j < c {
                assert(qs[j].last() != goal);
            }
            if j > c {
                assert(search_before(qs[c], qs[j]));
            }
            lemma_search_order_trans(qs[c], qs[j], q);
        }
    }

    /// When the search runs out of paths without meeting the goal, no walk
    /// reaches it.
    proof fn lemma_exhausted(
        &self,
        start: GridPos,
        goal: GridPos,
        vis: Seq<Seq<bool>>,
        qs: Seq<Seq<GridPos>>,
    )
        requires
            self.bfs_inv(start, goal, vis, qs, qs.len() as int),
        ensures
            !self.reachable(start, goal),
    {
        assert forall|q: Seq<GridPos>| !self.is_walk_between(q, start, goal) by {
            if self.is_walk_between(q, start, goal) {
                self.lemma_reach(start, goal, vis, qs, qs.len() as int, q);
                let j = choose|j: int|
                    0 <= j < qs.len() && search_no_later(#[trigger] qs[j], q) && (qs[j].last() == q.last()
                        || j >= qs.len());
                assert(qs[j].last() != goal);
            }
        }
    }
}

impl PathPlanner {
    /// One neighbour's turn keeps the search's invariant: the neighbour `next` of
    /// the path `qs0[cur]` being expanded is queued (and marked) exactly when it
    /// is on the grid, unmarked and passable, and afterwards it is covered.
    proof fn lemma_explore(
        &self,
        start: GridPos,
        goal: GridPos,
        vis0: Seq<Seq<bool>>,
        qs0: Seq<Seq<GridPos>>,
        vis1: Seq<Seq<bool>>,
        qs1: Seq<Seq<GridPos>>,
        cur: int,
        next: GridPos,
        added: bool,
    )
        requires
            self.bfs_inv(start, goal, vis0, qs0, cur),
            0 <= cur < qs0.len(),
            forall|j: int| 0 <= j < qs0.len() ==> search_before(#[trigger] qs0[j], qs0[cur].push(next)),
            adjacent(qs0[cur].last(), next),
            added == (self.in_bounds(next) && !marked(vis0, next) && self.passable(next)),
            added ==> vis1 == vis0.update(next.x as int, vis0[next.x as int].update(next.y as int, true)),
            added ==> qs1 == qs0.push(qs0[cur].push(next)),
            !added ==> vis1 == vis0 && qs1 == qs0,
        ensures
            self.bfs_inv(start, goal, vis1, qs1, cur),
            qs0.len() <= qs1.len(),
            forall|k: int| 0 <= k < qs0.len() ==> qs1[k] == qs0[k],
            forall|j: int| 0 <= j < qs1.len() ==> search_no_later(#[trigger] qs1[j], qs0[cur].push(next)),
            self.passable(next) ==> self.covers(qs1, cur, next),
            count_eq_grid(vis1, false) + qs1.len() == count_eq_grid(vis0, false) + qs0.len(),
    {
        if added {
            let path = qs0[cur];
            let n = qs0.len() as int;
            lemma_walk_push(self, path, next);
            lemma_count_grid_update(vis0, next.x as int, next.y as int, true, false);
            assert(qs1[n] == path.push(next));
            // the cells that are marked are the ends of the queued paths
            assert forall|p: GridPos| self.in_bounds(p) implies (#[trigger] marked(vis1, p) <==> exists|i: int|
                0 <= i < qs1.len() && (#[trigger] qs1[i]).last() == p) by {
                if p == next {
                    assert(qs1[n].last() == p);
                } else {
                    if marked(vis1, p) {
                        assert(marked(vis0, p));
                        let i = choose|i: int| 0 <= i < qs0.len() && (#[trigger] qs0[i]).last() == p;
                        assert(qs1[i] == qs0[i]);
                    }
                    if exists|i: int| 0 <= i < qs1.len() && (#[trigger] qs1[i]).last() == p {
                        let i = choose|i: int| 0 <= i < qs1.len() && (#[trigger] qs1[i]).last() == p;
                        assert(i < n);
                        assert(qs0[i].last() == p);
                        assert(marked(vis0, p));
                    }
                }
            }
            // the ends stay distinct: `next` was unmarked
            assert forall|i: int, j: int| 0 <= i < j < qs1.len() implies (#[trigger] qs1[i]).last() != (
            #[trigger] qs1[j]).last() by {
                if j == n {
                    assert(qs1[i] == qs0[i]);
                    if qs0[i].last() == next {
                        assert(marked(vis0, next));
                    }
                } else {
                    assert(qs1[i] == qs0[i]);
                    assert(qs1[j] == qs0[j]);
                }
            }
            assert forall|i: int| 0 <= i < qs1.len() implies self.is_walk(#[trigger] qs1[i]) && qs1[i][0] == start by {
                if i < n {
                    assert(qs1[i] == qs0[i]);
                }
            }
            assert forall|i: int, j: int| 0 <= i < j < qs1.len() implies search_before(
                #[trigger] qs1[i],
                #[trigger] qs1[j],
            ) by {
                assert(qs1[i] == qs0[i]);
                if j < n {
                    assert(qs1[j] == qs0[j]);
                } else {
                    assert(search_before(qs0[i], qs0[cur].push(next)));
                }
            }
            assert forall|i: int| 0 <= i < cur implies (#[trigger] qs1[i]).last() != goal by {
                assert(qs1[i] == qs0[i]);
            }
            assert forall|i: int, p: GridPos|
                0 <= i < cur && adjacent((#[trigger] qs1[i]).last(), p) && self.passable(p)
                    implies #[trigger] self.covers(qs1, i, p) by {
                assert(qs1[i] == qs0[i]);
                assert(self.covers(qs0, i, p));
                lemma_covers_grow(self, qs0, qs1, i, p);
            }
            assert forall|x: int| 0 <= x < vis1.len() implies (#[trigger] vis1[x]).len() == self.height by {
                assert(vis0[x].len() == self.height);
            }
            assert(qs1[cur] == qs0[cur]);
            assert(qs1[0] == qs0[0]);
            assert forall|j: int| 0 <= j < qs1.len() implies search_no_later(
                #[trigger] qs1[j],
                qs0[cur].push(next),
            ) by {
                if j < n {
                    assert(qs1[j] == qs0[j]);
                    assert(search_before(qs0[j], qs0[cur].push(next)));
                }
            }
            assert(search_no_later(qs1[n], qs1[cur].push(next)));
            assert(self.covers(qs1, cur, next));
        } else if self.passable(next) {
            // `next` is passable, so on the grid; being unqueued, it was marked
            assert(self.in_bounds(next));
            assert(marked(vis0, next));
            let j = choose|j: int| 0 <= j < qs0.len() && (#[trigger] qs0[j]).last() == next;
            assert(search_before(qs0[j], qs0[cur].push(next)));
            assert(self.covers(qs0, cur, next));
        }
    }

    /// Once every neighbour of the end of path `cur` has had its turn, path `cur`
    /// counts as expanded.
    proof fn lemma_expanded(
        &self,
        start: GridPos,
        goal: GridPos,
        vis: Seq<Seq<bool>>,
        qs: Seq<Seq<GridPos>>,
        cur: int,
    )
        requires
            self.bfs_inv(start, goal, vis, qs, cur),
            0 <= cur < qs.len(),
            qs[cur].last() != goal,
            ({
                let pos = qs[cur].last();
                &&& self.passable(GridPos { x: pos.x, y: (pos.y + 1) as i32 })
                    ==> self.covers(qs, cur, GridPos { x: pos.x, y: (pos.y + 1) as i32 })
                &&& self.passable(GridPos { x: pos.x, y: (pos.y - 1) as i32 })
                    ==> self.covers(qs, cur, GridPos { x: pos.x, y: (pos.y - 1) as i32 })
                &&& self.passable(GridPos { x: (pos.x + 1) as i32, y: pos.y })
                    ==> self.covers(qs, cur, GridPos { x: (pos.x + 1) as i32, y: pos.y })
                &&& self.passable(GridPos { x: (pos.x - 1) as i32, y: pos.y })
                    ==> self.covers(qs, cur, GridPos { x: (pos.x - 1) as i32, y: pos.y })
            }),
        ensures
            self.bfs_inv(start, goal, vis, qs, cur + 1),
    {
        let pos = qs[cur].last();
        assert(self.is_walk(qs[cur]));
        assert(self.passable(qs[cur][qs[cur].len() - 1]));
        assert(self.in_bounds(pos));
        assert forall|i: int, p: GridPos|
            0 <= i < cur + 1 && adjacent((#[trigger] qs[i]).last(), p) && self.passable(p)
                implies #[trigger] self.covers(qs, i, p) by {
            if i == cur {
                if p.x == pos.x {
                    if p.y == pos.y + 1 {
                        assert(p == GridPos { x: pos.x, y: (pos.y + 1) as i32 });
                    } else {
                        assert(p == GridPos { x: pos.x, y: (pos.y - 1) as i32 });
                    }
                } else if p.x == pos.x + 1 {
                    assert(p == GridPos { x: (pos.x + 1) as i32, y: pos.y });
                } else {
                    assert(p == GridPos { x: (pos.x - 1) as i32, y: pos.y });
                }
            }
        }
    }
}

impl PathPlanner {
    /// Queues `path` extended by `next` and marks `next`, when `next` is on the
    /// grid, unmarked and not Blocked; returns whether it did.
    fn explore(
        &self,
        visited: &mut Vec<Vec<bool>>,
        queue: &mut Vec<Vec<GridPos>>,
        path: &Vec<GridPos>,
        next: GridPos,
    ) -> (added: bool)
        requires
            self.wf(),
            bool_cells(old(visited)@).len() == self.width,
            forall|x: int|
                0 <= x < bool_cells(old(visited)@).len() ==> (#[trigger] bool_cells(old(visited)@)[x]).len()
                    == self.height,
        ensures
            added == (self.in_bounds(next) && !marked(bool_cells(old(visited)@), next) && self.passable(next)),
            added ==> bool_cells(final(visited)@) == bool_cells(old(visited)@).update(
                next.x as int,
                bool_cells(old(visited)@)[next.x as int].update(next.y as int, true),
            ),
            added ==> queued_paths(final(queue)@) == queued_paths(old(queue)@).push(path@.push(next)),
            !added ==> bool_cells(final(visited)@) == bool_cells(old(visited)@),
            !added ==> queued_paths(final(queue)@) == queued_paths(old(queue)@),
    {
        if next.x >= 0 && next.x < self.width && next.y >= 0 && next.y < self.height {
            let x = next.x as usize;
            let y = next.y as usize;
            assert(bool_cells(visited@)[x as int] == visited@[x as int]@);
            assert(self.cells()[x as int] == self.grid@[x as int]@);
            if !visited[x][y] && self.grid[x][y] != TernaryObstacle::Blocked {
                let ghost before = bool_cells(visited@);
                let ghost queued = queued_paths(queue@);
                visited[x][y] = true;
                let mut new_path = path.clone();
                assert(new_path@ =~= path@);
                new_path.push(next);
                queue.push(new_path);
                assert(bool_cells(visited@) =~= before.update(x as int, before[x as int].update(y as int, true)));
                assert(queued_paths(queue@) =~= queued.push(path@.push(next)));
                return true;
            }
        }
        false
    }

    /// Breadth-first search for a path from `start` to `goal` through cells that
    /// are not Blocked, stepping between 4-connected neighbours tried in the order
    /// y + 1, y - 1, x + 1, x - 1. Returns `None` exactly when no such path
    /// exists; otherwise the first such path in search order, from `start` to
    /// `goal` inclusive: a shortest one, and among the shortest the one whose
    /// first differing step comes first in that order.
    pub fn find_path(&self, start: GridPos, goal: GridPos) -> (r: Option<Vec<GridPos>>)
        requires
            self.wf(),
        ensures
            r is None <==> !self.reachable(start, goal),
            r matches Some(p) ==> self.is_walk_between(p@, start, goal),
            r matches Some(p) ==> forall|q: Seq<GridPos>|
                #[trigger] self.is_walk_between(q, start, goal) ==> p@.len() <= q.len(),
            r matches Some(p) ==> forall|q: Seq<GridPos>|
                #[trigger] self.is_walk_between(q, start, goal) ==> search_no_later(p@, q),
    {
        if self.get(start) == TernaryObstacle::Blocked || self.get(goal) == TernaryObstacle::Blocked {
            assert forall|q: Seq<GridPos>| !self.is_walk_between(q, start, goal) by {
                if self.is_walk_between(q, start, goal) {
                    assert(self.passable(q[0]));
                    assert(self.passable(q[q.len() - 1]));
                }
            }
            return None;
        }
        let w = self.width as usize;
        let h = self.height as usize;
        let mut visited: Vec<Vec<bool>> = Vec::new();
        let mut i: usize = 0;
        while i < w
            invariant
                i <= w,
                w == self.width,
                h == self.height,
                visited@.len() == i,
                forall|k: int| 0 <= k < i ==> (#[trigger] visited@[k])@.len() == h,
                forall|k: int, j: int| 0 <= k < i && 0 <= j < h ==> !#[trigger] visited@[k]@[j],
            decreases w - i,
        {
            let mut col: Vec<bool> = Vec::new();
            let mut j: usize = 0;
            while j < h
                invariant
                    j <= h,
                    col@.len() == j,
                    forall|k: int| 0 <= k < j ==> !col@[k],
                decreases h - j,
            {
                col.push(false);
                j += 1;
            }
            visited.push(col);
            i += 1;
        }
        let mut queue: Vec<Vec<GridPos>> = Vec::new();
        let mut first: Vec<GridPos> = Vec::new();
        first.push(start);
        queue.push(first);
        let ghost unmarked = bool_cells(visited@);
        visited[start.x as usize][start.y as usize] = true;
        proof {
            let vis = bool_cells(visited@);
            let qs = queued_paths(queue@);
            assert(self.in_bounds(start));
            assert(qs[0] =~= seq![start]);
            assert(self.is_walk(qs[0]));
            assert forall|x: int| 0 <= x < vis.len() implies (#[trigger] vis[x]).len() == self.height by {
                assert(visited@[x]@.len() == h);
            }
            assert forall|p: GridPos| self.in_bounds(p) implies (#[trigger] marked(vis, p) <==> exists|i: int|
                0 <= i < qs.len() && (#[trigger] qs[i]).last() == p) by {
                if p == start {
                    assert(qs[0].last() == p);
                } else {
                    assert(!visited@[p.x as int]@[p.y as int]);
                    assert(vis[p.x as int] == visited@[p.x as int]@);
                }
            }
            assert(self.bfs_inv(start, goal, vis, qs, 0));
        }
        let mut head: usize = 0;
        while head < queue.len()
            invariant
                self.bfs_inv(start, goal, bool_cells(visited@), queued_paths(queue@), head as int),
                head < queue@.len() ==> forall|j: int|
                    0 <= j < queue@.len() ==> search_before(
                        #[trigger] queued_paths(queue@)[j],
                        queued_paths(queue@)[head as int].push(
                            first_neighbour(queued_paths(queue@)[head as int].last()),
                        ),
                    ),
            decreases count_eq_grid(bool_cells(visited@), false) + queue@.len() - head,
        {
            let ghost vis0 = bool_cells(visited@);
            let ghost qs0 = queued_paths(queue@);
            let ghost measure0 = count_eq_grid(vis0, false) + qs0.len() - head;
            let path = queue[head].clone();
            assert(path@ =~= qs0[head as int]);
            assert(self.is_walk(qs0[head as int]));
            let pos = path[path.len() - 1];
            let cur = head;
            head += 1;
            if pos == goal {
                proof {
                    self.lemma_found(start, goal, vis0, qs0, cur as int);
                    assert forall|q: Seq<GridPos>| #[trigger]
                        self.is_walk_between(q, start, goal) implies path@.len() <= q.len() by {
                        if path@ != q && !(path@.len() < q.len()) {
                            let k = choose|k: int| #[trigger] crate::order::precedes_at(path@, q, k);
                        }
                    }
                }
                return Some(path);
            }
            proof {
                assert(self.passable(qs0[cur as int][qs0[cur as int].len() - 1]));
                assert(self.in_bounds(pos));
            }
            let n1 = GridPos::new(pos.x, pos.y + 1);
            let n2 = GridPos::new(pos.x, pos.y - 1);
            let n3 = GridPos::new(pos.x + 1, pos.y);
            let n4 = GridPos::new(pos.x - 1, pos.y);
            let ghost vis_a = bool_cells(visited@);
            let ghost qs_a = queued_paths(queue@);
            assert(n1 == first_neighbour(qs0[cur as int].last()));
            let added = self.explore(&mut visited, &mut queue, &path, n1);
            proof {
                self.lemma_explore(start, goal, vis_a, qs_a, bool_cells(visited@), queued_paths(queue@), cur as int, n1, added);
                lemma_frontier_advance(queued_paths(queue@), path@, n1, n2);
            }
            let ghost vis_b = bool_cells(visited@);
            let ghost qs_b = queued_paths(queue@);
            let added = self.explore(&mut visited, &mut queue, &path, n2);
            proof {
                self.lemma_explore(start, goal, vis_b, qs_b, bool_cells(visited@), queued_paths(queue@), cur as int, n2, added);
                lemma_frontier_advance(queued_paths(queue@), path@, n2, n3);
            }
            let ghost vis_c = bool_cells(visited@);
            let ghost qs_c = queued_paths(queue@);
            let added = self.explore(&mut visited, &mut queue, &path, n3);
            proof {
                self.lemma_explore(start, goal, vis_c, qs_c, bool_cells(visited@), queued_paths(queue@), cur as int, n3, added);
                lemma_frontier_advance(queued_paths(queue@), path@, n3, n4);
            }
            let ghost vis_d = bool_cells(visited@);
            let ghost qs_d = queued_paths(queue@);
            let added = self.explore(&mut visited, &mut queue, &path, n4);
            proof {
                let vis = bool_cells(visited@);
                let qs = queued_paths(queue@);
                self.lemma_explore(start, goal, vis_d, qs_d, vis, qs, cur as int, n4, added);
                if self.passable(n1) {
                    lemma_covers_grow(self, qs_b, qs, cur as int, n1);
                }
                if self.passable(n2) {
                    lemma_covers_grow(self, qs_c, qs, cur as int, n2);
                }
                if self.passable(n3) {
                    lemma_covers_grow(self, qs_d, qs, cur as int, n3);
                }
                assert(qs[cur as int] == qs0[cur as int]);
                self.lemma_expanded(start, goal, vis, qs, cur as int);
                if head < qs.len() {
                    assert(search_before(qs[cur as int], qs[head as int]));
                    lemma_frontier_next(qs, path@, n4, qs[head as int], first_neighbour(qs[head as int].last()));
                }
            }
        }
        proof {
            self.lemma_exhausted(start, goal, bool_cells(visited@), queued_paths(queue@));
        }
        None
    }
}

/// The neighbour the search tries first: one step up in y.
pub open spec fn first_neighbour(p: GridPos) -> GridPos {
    GridPos { x: p.x, y: (p.y + 1) as i32 }
}

/// Paths no later than `base` extended by `a` come before `base` extended by a
/// neighbour of higher rank.
proof fn lemma_frontier_advance(qs: Seq<Seq<GridPos>>, base: Seq<GridPos>, a: GridPos, b: GridPos)
    requires
        base.len() > 0,
        step_rank(base.last(), a) < step_rank(base.last(), b),
        forall|j: int| 0 <= j < qs.len() ==> search_no_later(#[trigger] qs[j], base.push(a)),
    ensures
        forall|j: int| 0 <= j < qs.len() ==> search_before(#[trigger] qs[j], base.push(b)),
{
    lemma_push_by_rank(base, a, b);
    assert forall|j: int| 0 <= j < qs.len() implies search_before(#[trigger] qs[j], base.push(b)) by {
        lemma_search_order_trans(qs[j], base.push(a), base.push(b));
    }
}

/// Paths no later than `base` extended come before every extension of a path
/// after `base`.
proof fn lemma_frontier_next(
    qs: Seq<Seq<GridPos>>,
    base: Seq<GridPos>,
    a: GridPos,
    later: Seq<GridPos>,
    b: GridPos,
)
    requires
        search_before(base, later),
        forall|j: int| 0 <= j < qs.len() ==> search_no_later(#[trigger] qs[j], base.push(a)),
    ensures
        forall|j: int| 0 <= j < qs.len() ==> search_before(#[trigger] qs[j], later.push(b)),
{
    lemma_search_before_push(base, later, a, b);
    assert forall|j: int| 0 <= j < qs.len() implies search_before(#[trigger] qs[j], later.push(b)) by {
        lemma_search_order_trans(qs[j], base.push(a), later.push(b));
    }
}

/// A walk takes at least as many cells as the Manhattan distance between its ends,
/// plus one: so does every path `find_path` returns.
pub proof fn lemma_walk_length(planner: &PathPlanner, q: Seq<GridPos>)
    requires
        planner.is_walk(q),
    ensures
        manhattan(q[0], q.last()) + 1 <= q.len(),
    decreases q.len(),
{
    if q.len() > 1 {
        lemma_walk_drop_last(planner, q);
        lemma_walk_length(planner, q.drop_last());
        crate::grid::lemma_manhattan_metric(q[0], q.drop_last().last(), q.last());
    }
}

/// Unknown cells are planned through as if they were Free: turning a Free cell
/// Unknown changes no walk, so it changes neither what is reachable nor the
/// length of a shortest path.
pub proof fn lemma_unknown_plans_as_free(a: &PathPlanner, b: &PathPlanner, pos: GridPos)
    requires
        a.wf(),
        b.width == a.width,
        b.height == a.height,
        a.cell_at(pos) == TernaryObstacle::Free,
        b.cells() == with_cell(a.cells(), a.width as int, a.height as int, pos, TernaryObstacle::Unknown),
    ensures
        forall|q: GridPos| #[trigger] b.passable(q) == a.passable(q),
        forall|q: Seq<GridPos>| #[trigger] b.is_walk(q) == a.is_walk(q),
        forall|s: GridPos, g: GridPos| #[trigger] b.reachable(s, g) == a.reachable(s, g),
{
    let cells = a.cells();
    assert forall|i: int| 0 <= i < cells.len() implies (#[trigger] cells[i]).len() == a.height by {
        assert(cells[i] == a.grid@[i]@);
    }
    assert forall|q: GridPos| #[trigger] b.passable(q) == a.passable(q) by {
        crate::planner::lemma_set_then_get(cells, a.width as int, a.height as int, pos, TernaryObstacle::Unknown, q);
    }
    assert forall|q: Seq<GridPos>| #[trigger] b.is_walk(q) == a.is_walk(q) by {
        if b.is_walk(q) {
            assert forall|i: int| 0 <= i < q.len() implies a.passable(#[trigger] q[i]) by {
                assert(b.passable(q[i]));
            }
        }
        if a.is_walk(q) {
            assert forall|i: int| 0 <= i < q.len() implies b.passable(#[trigger] q[i]) by {
                assert(a.passable(q[i]));
            }
        }
    }
    assert forall|s: GridPos, g: GridPos| #[trigger] b.reachable(s, g) == a.reachable(s, g) by {
        if b.reachable(s, g) {
            let q = choose|q: Seq<GridPos>| b.is_walk_between(q, s, g);
            assert(a.is_walk_between(q, s, g));
        }
        if a.reachable(s, g) {
            let q = choose|q: Seq<GridPos>| a.is_walk_between(q, s, g);
            assert(b.is_walk_between(q, s, g));
        }
    }
}

/// Blocking a cell never creates a walk: every walk around the new obstacle was
/// already a walk, so nothing becomes reachable and no shortest path gets shorter.
pub proof fn lemma_blocking_removes_walks(a: &PathPlanner, b: &PathPlanner, pos: GridPos)
    requires
        a.wf(),
        b.width == a.width,
        b.height == a.height,
        b.cells() == with_cell(a.cells(), a.width as int, a.height as int, pos, TernaryObstacle::Blocked),
    ensures
        forall|q: Seq<GridPos>| #[trigger] b.is_walk(q) ==> a.is_walk(q),
        forall|s: GridPos, g: GridPos| #[trigger] b.reachable(s, g) ==> a.reachable(s, g),
{
    let cells = a.cells();
    assert forall|i: int| 0 <= i < cells.len() implies (#[trigger] cells[i]).len() == a.height by {
        assert(cells[i] == a.grid@[i]@);
    }
    assert forall|q: GridPos| #[trigger] b.passable(q) implies a.passable(q) by {
        crate::planner::lemma_set_then_get(cells, a.width as int, a.height as int, pos, TernaryObstacle::Blocked, q);
    }
    assert forall|q: Seq<GridPos>| #[trigger] b.is_walk(q) implies a.is_walk(q) by {
        assert forall|i: int| 0 <= i < q.len() implies a.passable(#[trigger] q[i]) by {
            assert(b.passable(q[i]));
        }
    }
    assert forall|s: GridPos, g: GridPos| #[trigger] b.reachable(s, g) implies a.reachable(s, g) by {
        let q = choose|q: Seq<GridPos>| b.is_walk_between(q, s, g);
        assert(a.is_walk_between(q, s, g));
    }
}

/// A walk from a passable neighbour of `p`, with `p` put in front, is a walk.
proof fn lemma_walk_prepend(planner: &PathPlanner, p: GridPos, q: Seq<GridPos>)
    requires
        planner.is_walk(q),
        planner.passable(p),
        adjacent(p, q[0]),
    ensures
        planner.is_walk(seq![p] + q),
        (seq![p] + q)[0] == p,
        (seq![p] + q).last() == q.last(),
        (seq![p] + q).len() == q.len() + 1,
{
    let r = seq![p] + q;
    assert forall|i: int| 0 <= i < r.len() - 1 implies #[trigger] step_ok(r, i) by {
        if i > 0 {
            assert(step_ok(q, i - 1));
            assert(r[i] == q[i - 1] && r[i + 1] == q[i]);
        }
    }
    assert forall|i: int| 0 <= i < r.len() implies planner.passable(#[trigger] r[i]) by {
        if i > 0 {
            assert(r[i] == q[i - 1]);
            assert(planner.passable(q[i - 1]));
        }
    }
}

/// On a grid with no Blocked cell, any two cells are joined by a walk of
/// Manhattan distance plus one cells, so that is what `find_path` returns.
pub proof fn lemma_open_grid_walk(planner: &PathPlanner, s: GridPos, g: GridPos)
    requires
        planner.wf(),
        forall|q: GridPos| planner.in_bounds(q) ==> #[trigger] planner.passable(q),
        planner.in_bounds(s),
        planner.in_bounds(g),
    ensures
        exists|q: Seq<GridPos>|
            #[trigger] planner.is_walk_between(q, s, g) && q.len() == manhattan(s, g) + 1,
    decreases manhattan(s, g),
{
    if s == g {
        let q = seq![s];
        assert(planner.passable(s));
        assert(planner.is_walk(q));
        assert(planner.is_walk_between(q, s, g) && q.len() == manhattan(s, g) + 1);
    } else {
        let s2 = if s.x < g.x {
            GridPos { x: (s.x + 1) as i32, y: s.y }
        } else if s.x > g.x {
            GridPos { x: (s.x - 1) as i32, y: s.y }
        } else if s.y < g.y {
            GridPos { x: s.x, y: (s.y + 1) as i32 }
        } else {
            GridPos { x: s.x, y: (s.y - 1) as i32 }
        };
        assert(planner.in_bounds(s2));
        assert(manhattan(s2, g) == manhattan(s, g) - 1);
        lemma_open_grid_walk(planner, s2, g);
        let q = choose|q: Seq<GridPos>| #[trigger]
            planner.is_walk_between(q, s2, g) && q.len() == manhattan(s2, g) + 1;
        assert(planner.passable(s));
        lemma_walk_prepend(planner, s, q);
        let r = seq![s] + q;
        assert(planner.is_walk_between(r, s, g) && r.len() == manhattan(s, g) + 1);
    }
}

/// A cell can be crossed exactly when it lies on the grid and its stored obstacle
/// is not Blocked (Free and Unknown both pass).
pub proof fn lemma_passable_exact(planner: &PathPlanner, q: GridPos)
    requires
        planner.wf(),
    ensures
        planner.passable(q) == (0 <= q.x < planner.width && 0 <= q.y < planner.height
            && planner.grid@[q.x as int]@[q.y as int] != TernaryObstacle::Blocked),
{
    if 0 <= q.x < planner.width && 0 <= q.y < planner.height {
        assert(planner.cells()[q.x as int] == planner.grid@[q.x as int]@);
    }
}

/// A walk is a non-empty sequence of cells on the grid, none of them stored as
/// Blocked, each differing from the one before by one unit in exactly one
/// coordinate.
pub proof fn lemma_walk_exact(planner: &PathPlanner, q: Seq<GridPos>)
    requires
        planner.wf(),
    ensures
        planner.is_walk(q) == (q.len() > 0 && (forall|i: int|
            0 <= i < q.len() ==> 0 <= (#[trigger] q[i]).x < planner.width && 0 <= q[i].y < planner.height
                && planner.grid@[q[i].x as int]@[q[i].y as int] != TernaryObstacle::Blocked) && (forall|i: int, j: int|
            #![trigger q[i], q[j]]
            0 <= i && j == i + 1 && j < q.len() ==> ((q[i].x == q[j].x && (q[j].y == q[i].y + 1 || q[j].y == q[i].y - 1)) || (q[i].y == q[j].y && (
                q[j].x == q[i].x + 1 || q[j].x == q[i].x - 1))))),
{
    assert forall|i: int| 0 <= i < q.len() implies planner.passable(#[trigger] q[i]) == (0 <= q[i].x
        < planner.width && 0 <= q[i].y < planner.height && planner.grid@[q[i].x as int]@[q[i].y as int]
        != TernaryObstacle::Blocked) by {
        lemma_passable_exact(planner, q[i]);
    }
    let raw_steps = forall|i: int, j: int|
        #![trigger q[i], q[j]]
        0 <= i && j == i + 1 && j < q.len() ==> ((q[i].x == q[j].x && (q[j].y == q[i].y + 1 || q[j].y == q[i].y - 1)) || (q[i].y == q[j].y && (
                q[j].x == q[i].x + 1 || q[j].x == q[i].x - 1)));
    if planner.is_walk(q) {
        assert forall|i: int, j: int| 0 <= i && j == i + 1 && j < q.len() implies ((q[i].x == q[j].x && (q[j].y == q[i].y + 1 || q[j].y == q[i].y - 1)) || (q[i].y == q[j].y && (
                q[j].x == q[i].x + 1 || q[j].x == q[i].x - 1))) by {
            assert(step_ok(q, i));
        }
    }
    if raw_steps {
        assert forall|i: int| 0 <= i < q.len() - 1 implies #[trigger] step_ok(q, i) by {
            assert(q[i] == q[i] && q[i + 1] == q[i + 1]);
        }
    }
}

/// On a grid whose stored cells hold no Blocked obstacle, any two cells of the
/// grid are joined by a walk, of as many cells as their distance along x plus
/// their distance along y, plus one.
pub proof fn lemma_open_grid_reachable(planner: &PathPlanner, s: GridPos, g: GridPos)
    requires
        planner.wf(),
        forall|x: int, y: int|
            0 <= x < planner.width && 0 <= y < planner.height ==> #[trigger] planner.grid@[x]@[y]
                != TernaryObstacle::Blocked,
        0 <= s.x < planner.width && 0 <= s.y < planner.height,
        0 <= g.x < planner.width && 0 <= g.y < planner.height,
    ensures
        planner.reachable(s, g),
        exists|q: Seq<GridPos>|
            #[trigger] planner.is_walk_between(q, s, g) && q.len() == (if s.x >= g.x { s.x - g.x } else {
                g.x - s.x
            }) + (if s.y >= g.y { s.y - g.y } else { g.y - s.y }) + 1,
{
    assert forall|q: GridPos| planner.in_bounds(q) implies #[trigger] planner.passable(q) by {
        lemma_passable_exact(planner, q);
        assert(planner.grid@[q.x as int]@[q.y as int] != TernaryObstacle::Blocked);
    }
    lemma_open_grid_walk(planner, s, g);
    crate::grid::lemma_manhattan_formula(s, g);
}

} // verus!
