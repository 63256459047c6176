use vstd::prelude::*;

use crate::counting::{
    cell_total, count_eq, count_eq_grid, lemma_cell_total_uniform, lemma_count_grid_push,
    lemma_count_grid_update, lemma_count_push,
};
use crate::grid::{GridPos, TernaryObstacle};

verus! {

/// Whether `p` lies on a `w` by `h` grid.
pub open spec fn on_grid(w: int, h: int, p: GridPos) -> bool {
    0 <= p.x < w && 0 <= p.y < h
}

/// The cell at `p` of a `w` by `h` grid held column by column in `cells`; off the
/// grid every cell reads Blocked.
pub open spec fn cell_of(cells: Seq<Seq<TernaryObstacle>>, w: int, h: int, p: GridPos) -> TernaryObstacle {
    if on_grid(w, h, p) {
        cells[p.x as int][p.y as int]
    } else {
        TernaryObstacle::Blocked
    }
}

/// `cells` with the cell at `p` replaced by `obs`, when `p` lies on the grid.
pub open spec fn with_cell(
    cells: Seq<Seq<TernaryObstacle>>,
    w: int,
    h: int,
    p: GridPos,
    obs: TernaryObstacle,
) -> Seq<Seq<TernaryObstacle>> {
    if on_grid(w, h, p) {
        cells.update(p.x as int, cells[p.x as int].update(p.y as int, obs))
    } else {
        cells
    }
}

/// Path planner with ternary obstacles on a grid; `grid[x][y]` is the cell at
/// column `x`, row `y`.
pub struct PathPlanner {
    pub width: i32,
    pub height: i32,
    pub grid: Vec<Vec<TernaryObstacle>>,
}

impl View for PathPlanner {
    /// Width, height, and the cells column by column.
    type V = (int, int, Seq<Seq<TernaryObstacle>>);

    open spec fn view(&self) -> (int, int, Seq<Seq<TernaryObstacle>>) {
        (self.width as int, self.height as int, self.cells())
    }
}

impl PathPlanner {
    /// The grid's cells, column by column.
    pub open spec fn cells(&self) -> Seq<Seq<TernaryObstacle>> {
        self.grid@.map_values(|c: Vec<TernaryObstacle>| c@)
    }

    /// The grid holds `width` columns of `height` cells, and counting its cells
    /// cannot overflow a `usize`.
    pub open spec fn wf(&self) -> bool {
        &&& self.width >= 0
        &&& self.height >= 0
        &&& self.width * self.height <= usize::MAX
        &&& self.grid@.len() == self.width
        &&& forall|i: int| 0 <= i < self.grid@.len() ==> (#[trigger] self.grid@[i])@.len() == self.height
    }

    pub open spec fn in_bounds(&self, p: GridPos) -> bool {
        on_grid(self.width as int, self.height as int, p)
    }

    /// The obstacle at `p`; Blocked off the grid.
    pub open spec fn cell_at(&self, p: GridPos) -> TernaryObstacle {
        cell_of(self.cells(), self.width as int, self.height as int, p)
    }

    /// How many cells of the grid hold `k`.
    pub open spec fn count_of(&self, k: TernaryObstacle) -> nat {
        count_eq_grid(self.cells(), k)
    }

    /// A `width` by `height` grid of Free cells. A negative size cannot be
    /// allocated, and the grid must fit in memory.
    pub fn new(width: i32, height: i32) -> (p: PathPlanner)
        requires
            width >= 0,
            height >= 0,
            width * height <= usize::MAX,
        ensures
            p.wf(),
            p.width == width,
            p.height == height,
            forall|x: int, y: int| 0 <= x < width && 0 <= y < height ==> #[trigger] p.grid@[x]@[y] == TernaryObstacle::Free,
            forall|q: GridPos| #[trigger] p.cell_at(q) == if on_grid(width as int, height as int, q) {
                TernaryObstacle::Free
            } else {
                TernaryObstacle::Blocked
            },
    {
        let mut grid: Vec<Vec<TernaryObstacle>> = Vec::new();
        let w = width as usize;
        let h = height as usize;
        let mut i: usize = 0;
        while i < w
            invariant
                i <= w,
                w == width,
                h == height,
                grid@.len() == i,
                forall|k: int| 0 <= k < i ==> (#[trigger] grid@[k])@.len() == h,
                forall|k: int, j: int|
                    0 <= k < i && 0 <= j < h ==> #[trigger] grid@[k]@[j] == TernaryObstacle::Free,
            decreases w - i,
        {
            let mut col: Vec<TernaryObstacle> = Vec::new();
            let mut j: usize = 0;
            while j < h
                invariant
                    j <= h,
                    col@.len() == j,
                    forall|k: int| 0 <= k < j ==> col@[k] == TernaryObstacle::Free,
                decreases h - j,
            {
                col.push(TernaryObstacle::Free);
                j += 1;
            }
            grid.push(col);
            i += 1;
        }
        let p = PathPlanner { width, height, grid };
        assert forall|q: GridPos| #[trigger] p.cell_at(q) == if on_grid(width as int, height as int, q) {
            TernaryObstacle::Free
        } else {
            TernaryObstacle::Blocked
        } by {
            if on_grid(width as int, height as int, q) {
                assert(p.cells()[q.x as int] == p.grid@[q.x as int]@);
            }
        }
        p
    }

    /// Puts `obs` at `pos`; a position off the grid leaves the planner unchanged.
    pub fn set_obstacle(&mut self, pos: GridPos, obs: TernaryObstacle)
        requires
            old(self).wf(),
        ensures
            final(self).wf(),
            final(self).width == old(self).width,
            final(self).height == old(self).height,
            0 <= pos.x < old(self).width && 0 <= pos.y < old(self).height ==> final(self).grid@[pos.x as int]@[pos.y as int] == obs,
            forall|x: int, y: int|
                0 <= x < old(self).width && 0 <= y < old(self).height && !(x == pos.x && y == pos.y)
                    ==> #[trigger] final(self).grid@[x]@[y] == old(self).grid@[x]@[y],
            final(self)@ == (old(self)@.0, old(self)@.1, with_cell(old(self)@.2, old(self)@.0, old(self)@.1, pos, obs)),
            final(self).cells() == with_cell(
                old(self).cells(),
                old(self).width as int,
                old(self).height as int,
                pos,
                obs,
            ),
            forall|q: GridPos| #[trigger] final(self).cell_at(q) == if q == pos && old(self).in_bounds(pos) {
                obs
            } else {
                old(self).cell_at(q)
            },
    {
        let ghost cells0 = self.cells();
        proof {
            assert forall|i: int| 0 <= i < cells0.len() implies (#[trigger] cells0[i]).len() == self.height by {
                assert(cells0[i] == self.grid@[i]@);
            }
        }
        if pos.x >= 0 && pos.x < self.width && pos.y >= 0 && pos.y < self.height {
            let ghost before = self.cells();
            let x = pos.x as usize;
            let y = pos.y as usize;
            self.grid[x][y] = obs;
            assert(self.cells() =~= before.update(x as int, before[x as int].update(y as int, obs)));
        }
        assert forall|q: GridPos| #[trigger] self.cell_at(q) == if q == pos && on_grid(
            self.width as int,
            self.height as int,
            pos,
        ) {
            obs
        } else {
            cell_of(cells0, self.width as int, self.height as int, q)
        } by {
            lemma_set_then_get(cells0, self.width as int, self.height as int, pos, obs, q);
        }
    }

    /// The obstacle at `pos`; Blocked off the grid.
    pub fn get(&self, pos: GridPos) -> (o: TernaryObstacle)
        requires
            self.wf(),
        ensures
            o == self.cell_at(pos),
            0 <= pos.x < self.width && 0 <= pos.y < self.height ==> o == self.grid@[pos.x as int]@[pos.y as int],
            !(0 <= pos.x < self.width && 0 <= pos.y < self.height) ==> o == TernaryObstacle::Blocked,
    {
        if pos.x >= 0 && pos.x < self.width && pos.y >= 0 && pos.y < self.height {
            assert(self.cells()[pos.x as int] == self.grid@[pos.x as int]@);
            self.grid[pos.x as usize][pos.y as usize]
        } else {
            TernaryObstacle::Blocked
        }
    }

    /// The number of Unknown, Free and Blocked cells, in that order.
    pub fn count_obstacles(&self) -> (r: (usize, usize, usize))
        requires
            self.wf(),
        ensures
            r.0 == self.count_of(TernaryObstacle::Unknown),
            r.1 == self.count_of(TernaryObstacle::Free),
            r.2 == self.count_of(TernaryObstacle::Blocked),
            r.0 + r.1 + r.2 == self.width * self.height,
    {
        let mut unknown: usize = 0;
        let mut free: usize = 0;
        let mut blocked: usize = 0;
        let ghost cells = self.cells();
        let ghost h = self.height as int;
        let mut i: usize = 0;
        while i < self.grid.len()
            invariant
                self.wf(),
                cells == self.cells(),
                h == self.height,
                i <= self.grid@.len(),
                unknown == count_eq_grid(cells.take(i as int), TernaryObstacle::Unknown),
                free == count_eq_grid(cells.take(i as int), TernaryObstacle::Free),
                blocked == count_eq_grid(cells.take(i as int), TernaryObstacle::Blocked),
                unknown + free + blocked == i * h,
            decreases self.grid@.len() - i,
        {
            let col = &self.grid[i];
            assert(col@ == cells[i as int]);
            assert(col@.len() == h);
            let mut j: usize = 0;
            while j < col.len()
                invariant
                    self.wf(),
                    cells == self.cells(),
                    h == self.height,
                    i < self.grid@.len(),
                    col@ == cells[i as int],
                    col@.len() == h,
                    j <= col@.len(),
                    unknown == count_eq_grid(cells.take(i as int), TernaryObstacle::Unknown)
                        + count_eq(col@.take(j as int), TernaryObstacle::Unknown),
                    free == count_eq_grid(cells.take(i as int), TernaryObstacle::Free)
                        + count_eq(col@.take(j as int), TernaryObstacle::Free),
                    blocked == count_eq_grid(cells.take(i as int), TernaryObstacle::Blocked)
                        + count_eq(col@.take(j as int), TernaryObstacle::Blocked),
                    unknown + free + blocked == i * h + j,
                decreases col@.len() - j,
            {
                proof {
                    let w = self.width as int;
                    assert(i * h + j < w * h) by (nonlinear_arith)
                        requires
                            i < w,
                            j < h,
                    ;
                    assert(col@.take(j + 1) =~= col@.take(j as int).push(col@[j as int]));
                    lemma_count_push(col@.take(j as int), col@[j as int], TernaryObstacle::Unknown);
                    lemma_count_push(col@.take(j as int), col@[j as int], TernaryObstacle::Free);
                    lemma_count_push(col@.take(j as int), col@[j as int], TernaryObstacle::Blocked);
                }
                match col[j] {
                    TernaryObstacle::Unknown => unknown += 1,
                    TernaryObstacle::Free => free += 1,
                    TernaryObstacle::Blocked => blocked += 1,
                }
                j += 1;
            }
            proof {
                assert(col@.take(j as int) =~= col@);
                assert(cells.take(i + 1) =~= cells.take(i as int).push(cells[i as int]));
                lemma_count_grid_push(cells.take(i as int), cells[i as int], TernaryObstacle::Unknown);
                lemma_count_grid_push(cells.take(i as int), cells[i as int], TernaryObstacle::Free);
                lemma_count_grid_push(cells.take(i as int), cells[i as int], TernaryObstacle::Blocked);
                assert(i * h + h == (i + 1) * h) by (nonlinear_arith);
            }
            i += 1;
        }
        proof {
            assert(cells.take(i as int) =~= cells);
        }
        (unknown, free, blocked)
    }
}

/// Shape of the cells of a `w` by `h` grid.
pub open spec fn grid_shape(cells: Seq<Seq<TernaryObstacle>>, w: int, h: int) -> bool {
    &&& cells.len() == w
    &&& forall|i: int| 0 <= i < cells.len() ==> (#[trigger] cells[i]).len() == h
}

/// Reading a cell after writing it: the written cell reads the new obstacle when
/// it lies on the grid, every other cell reads as before, and the grid keeps its
/// shape.
pub proof fn lemma_set_then_get(
    cells: Seq<Seq<TernaryObstacle>>,
    w: int,
    h: int,
    p: GridPos,
    obs: TernaryObstacle,
    q: GridPos,
)
    requires
        grid_shape(cells, w, h),
    ensures
        grid_shape(with_cell(cells, w, h, p, obs), w, h),
        cell_of(with_cell(cells, w, h, p, obs), w, h, q) == if q == p && on_grid(w, h, p) {
            obs
        } else {
            cell_of(cells, w, h, q)
        },
{
    let c2 = with_cell(cells, w, h, p, obs);
    assert forall|i: int| 0 <= i < c2.len() implies (#[trigger] c2[i]).len() == h by {
        assert(cells[i].len() == h);
    }
}

/// Writing a cell moves it from the count of its old obstacle to the count of the
/// new one, and leaves every other count as it was.
pub proof fn lemma_set_counts(
    cells: Seq<Seq<TernaryObstacle>>,
    w: int,
    h: int,
    p: GridPos,
    obs: TernaryObstacle,
    k: TernaryObstacle,
)
    requires
        grid_shape(cells, w, h),
        on_grid(w, h, p),
    ensures
        count_eq_grid(with_cell(cells, w, h, p, obs), k) + (if cell_of(cells, w, h, p) == k { 1int } else { 0int })
            == count_eq_grid(cells, k) + (if obs == k { 1int } else { 0int }),
{
    lemma_count_grid_update(cells, p.x as int, p.y as int, obs, k);
}

proof fn lemma_kinds_partition_col(c: Seq<TernaryObstacle>)
    ensures
        count_eq(c, TernaryObstacle::Unknown) + count_eq(c, TernaryObstacle::Free) + count_eq(
            c,
            TernaryObstacle::Blocked,
        ) == c.len(),
    decreases c.len(),
{
    if c.len() > 0 {
        lemma_kinds_partition_col(c.drop_last());
    }
}

proof fn lemma_kinds_partition_grid(g: Seq<Seq<TernaryObstacle>>)
    ensures
        count_eq_grid(g, TernaryObstacle::Unknown) + count_eq_grid(g, TernaryObstacle::Free)
            + count_eq_grid(g, TernaryObstacle::Blocked) == cell_total(g),
    decreases g.len(),
{
    if g.len() > 0 {
        lemma_kinds_partition_grid(g.drop_last());
        lemma_kinds_partition_col(g.last());
    }
}

/// Every cell of a planner is Unknown, Free or Blocked: the three counts add up to
/// `width * height`.
pub proof fn lemma_counts_cover_grid(p: &PathPlanner)
    requires
        p.wf(),
    ensures
        p.count_of(TernaryObstacle::Unknown) + p.count_of(TernaryObstacle::Free) + p.count_of(
            TernaryObstacle::Blocked,
        ) == p.width * p.height,
{
    let cells = p.cells();
    assert forall|i: int| 0 <= i < cells.len() implies #[trigger] cells[i].len() == p.height by {
        assert(cells[i] == p.grid@[i]@);
    }
    lemma_cell_total_uniform(cells, p.height as int);
    lemma_kinds_partition_grid(cells);
}

/// The cells of a planner are its stored grid, column by column.
pub proof fn lemma_cells_are_grid(p: &PathPlanner)
    ensures
        p.cells().len() == p.grid@.len(),
        forall|x: int| 0 <= x < p.grid@.len() ==> #[trigger] p.cells()[x] == p.grid@[x]@,
{
}

/// Reading a position on a `w` by `h` grid reads column `p.x`, row `p.y` of the
/// cells; every position off the grid reads Blocked.
pub proof fn lemma_cell_of_reads_cells(cells: Seq<Seq<TernaryObstacle>>, w: int, h: int, p: GridPos)
    ensures
        0 <= p.x < w && 0 <= p.y < h ==> cell_of(cells, w, h, p) == cells[p.x as int][p.y as int],
        !(0 <= p.x < w && 0 <= p.y < h) ==> cell_of(cells, w, h, p) == TernaryObstacle::Blocked,
{
}

/// Writing a position on the grid replaces column `p.x`, row `p.y` of the cells
/// and nothing else; writing off the grid changes nothing.
pub proof fn lemma_with_cell_writes_cells(
    cells: Seq<Seq<TernaryObstacle>>,
    w: int,
    h: int,
    p: GridPos,
    obs: TernaryObstacle,
)
    requires
        grid_shape(cells, w, h),
    ensures
        with_cell(cells, w, h, p, obs).len() == cells.len(),
        forall|x: int| 0 <= x < w ==> (#[trigger] with_cell(cells, w, h, p, obs)[x]).len() == h,
        0 <= p.x < w && 0 <= p.y < h ==> with_cell(cells, w, h, p, obs)[p.x as int][p.y as int] == obs,
        forall|x: int, y: int|
            0 <= x < w && 0 <= y < h && !(x == p.x && y == p.y) ==> #[trigger] with_cell(
                cells,
                w,
                h,
                p,
                obs,
            )[x][y] == cells[x][y],
        !(0 <= p.x < w && 0 <= p.y < h) ==> with_cell(cells, w, h, p, obs) == cells,
{
    assert forall|x: int| 0 <= x < w implies (#[trigger] with_cell(cells, w, h, p, obs)[x]).len() == h by {
        assert(cells[x].len() == h);
    }
}

} // verus!
