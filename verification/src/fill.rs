use crate::region::{
    adjacent, flood_filled, grid_count, holds, in_grid, in_region, is_path,
    lemma_count_after_write, lemma_fill_with_same_value, lemma_region_grows,
    lemma_seed_in_region, linked, rectangular, set_cell,
};
use std::collections::VecDeque;
use vstd::laws_eq::obeys_concrete_eq;
use vstd::prelude::*;

verus! {

/// Cloning a `T` gives back the same value.
pub open spec fn clone_keeps_value<T: Clone>() -> bool {
    forall|a: T, b: T| #[trigger] cloned(a, b) ==> a == b
}

/// A rectangular store of cells that can be read and written one cell at a
/// time. `cells()` is the store as rows of cells.
pub trait CellGrid<T> {
    /// The store as a sequence of rows.
    spec fn cells(&self) -> Seq<Seq<T>>;

    /// The store is in a state in which it can be read and written.
    spec fn grid_wf(&self) -> bool;

    /// Number of rows.
    fn n_rows(&self) -> (n: usize)
        requires
            self.grid_wf(),
        ensures
            n == self.cells().len(),
    ;

    /// Number of cells in each row.
    fn n_cols(&self) -> (n: usize)
        requires
            self.grid_wf(),
        ensures
            forall|r: int| 0 <= r < self.cells().len() ==> (#[trigger] self.cells()[r]).len() == n,
    ;

    /// The cell in row `r`, column `c`.
    fn read(&self, r: usize, c: usize) -> (v: &T)
        requires
            self.grid_wf(),
            in_grid(self.cells(), (r as int, c as int)),
        ensures
            *v == self.cells()[r as int][c as int],
    ;

    /// Stores `v` in row `r`, column `c`. Nothing else changes.
    fn write(&mut self, r: usize, c: usize, v: T)
        requires
            old(self).grid_wf(),
            in_grid(old(self).cells(), (r as int, c as int)),
        ensures
            final(self).grid_wf(),
            final(self).cells() == set_cell(old(self).cells(), r as int, c as int, v),
    ;
}

/// What a fill is asked to do: the grid as it was, its size, the seed, the
/// value the seed held and the value to fill with.
struct Job<T> {
    before: Seq<Seq<T>>,
    rows: int,
    cols: int,
    seed: (int, int),
    old_e: T,
    new_e: T,
}

/// Where the scan of a row stands: the row, the next column to look at, and
/// whether the cells above and below column `col` still wait for their turn.
struct Scan {
    row: int,
    front: int,
    skip_above: bool,
    skip_below: bool,
    col: int,
}

/// No row is being scanned.
spec fn idle() -> Scan {
    Scan { row: -1, front: 0, skip_above: false, skip_below: false, col: 0 }
}

/// The cells of row `r` from column `lo` to column `hi` all hold `v`.
spec fn run<T>(g: Seq<Seq<T>>, v: T, r: int, lo: int, hi: int) -> bool {
    forall|x: int| lo <= x <= hi ==> #[trigger] g[r][x] == v
}

/// The stack entry `s` lies in row `r`, and from it to column `c` every cell
/// holds `v`: the scan that starts at `s` will come by `(r, c)`.
spec fn covers<T>(g: Seq<Seq<T>>, v: T, s: (usize, usize), r: int, c: int) -> bool {
    s.0 == r && if s.1 <= c {
        run(g, v, r, s.1 as int, c)
    } else {
        run(g, v, r, c, s.1 as int)
    }
}

/// Some stack entry covers `(r, c)`.
spec fn covered<T>(g: Seq<Seq<T>>, v: T, stack: Seq<(usize, usize)>, r: int, c: int) -> bool {
    exists|k: int| 0 <= k < stack.len() && #[trigger] covers(g, v, stack[k], r, c)
}

/// Writing a cell of row `y` does not touch what is covered in another row.
proof fn lemma_covered_other_row<T>(
    g: Seq<Seq<T>>,
    v: T,
    stack: Seq<(usize, usize)>,
    y: int,
    c: int,
    w: T,
    r: int,
    d: int,
)
    requires
        0 <= y < g.len(),
        0 <= r < g.len(),
        r != y,
        covered(g, v, stack, r, d),
    ensures
        covered(set_cell(g, y, c, w), v, stack, r, d),
{
    let g2 = set_cell(g, y, c, w);
    let k = choose|k: int| 0 <= k < stack.len() && #[trigger] covers(g, v, stack[k], r, d);
    assert(g2[r] == g[r]);
    assert(covers(g2, v, stack[k], r, d));
}

impl<T> Job<T> {
    spec fn valid(self) -> bool {
        &&& self.rows <= usize::MAX
        &&& self.cols <= usize::MAX
        &&& rectangular(self.before, self.rows, self.cols)
        &&& self.inside(self.seed.0, self.seed.1)
        &&& self.old_e == self.before[self.seed.0][self.seed.1]
        &&& self.old_e != self.new_e
    }

    spec fn inside(self, r: int, c: int) -> bool {
        0 <= r < self.rows && 0 <= c < self.cols
    }

    /// A cell is as it was, or it belongs to the region and holds the new
    /// value.
    spec fn cell_sound(self, g: Seq<Seq<T>>, r: int, c: int) -> bool {
        g[r][c] == self.before[r][c] || (g[r][c] == self.new_e && in_region(
            self.before,
            self.seed,
            (r, c),
        ))
    }

    spec fn sound(self, g: Seq<Seq<T>>) -> bool {
        &&& rectangular(g, self.rows, self.cols)
        &&& forall|r: int, c: int| self.inside(r, c) ==> #[trigger] self.cell_sound(g, r, c)
    }

    spec fn changed(self, g: Seq<Seq<T>>, r: int, c: int) -> bool {
        self.inside(r, c) && g[r][c] != self.before[r][c]
    }

    /// The fill has to come by `(r, c)`: it is the seed, or a neighbour of
    /// it was recoloured.
    spec fn wanted(self, g: Seq<Seq<T>>, r: int, c: int) -> bool {
        ||| (r, c) == self.seed
        ||| self.changed(g, r - 1, c)
        ||| self.changed(g, r + 1, c)
        ||| self.changed(g, r, c - 1)
        ||| self.changed(g, r, c + 1)
    }

    spec fn entry_ok(self, s: (usize, usize)) -> bool {
        self.inside(s.0 as int, s.1 as int) && in_region(
            self.before,
            self.seed,
            (s.0 as int, s.1 as int),
        )
    }

    spec fn stack_ok(self, stack: Seq<(usize, usize)>) -> bool {
        forall|k: int| 0 <= k < stack.len() ==> self.entry_ok(#[trigger] stack[k])
    }

    /// The running scan will come by `(r, c)`: the cell lies in the scanned
    /// row at or after the front, with nothing but old values in between.
    spec fn ahead(self, g: Seq<Seq<T>>, scan: Scan, r: int, c: int) -> bool {
        r == scan.row && scan.front <= c && run(g, self.old_e, r, scan.front, c)
    }

    spec fn exempt(self, scan: Scan, r: int, c: int) -> bool {
        ||| scan.skip_above && r == scan.row - 1 && c == scan.col
        ||| scan.skip_below && r == scan.row + 1 && c == scan.col
    }

    /// A cell that still holds the old value and that the fill has to come
    /// by is not forgotten.
    spec fn cell_kept(
        self,
        g: Seq<Seq<T>>,
        stack: Seq<(usize, usize)>,
        scan: Scan,
        r: int,
        c: int,
    ) -> bool {
        g[r][c] == self.old_e && self.wanted(g, r, c) ==> {
            ||| covered(g, self.old_e, stack, r, c)
            ||| self.ahead(g, scan, r, c)
            ||| self.exempt(scan, r, c)
        }
    }

    spec fn kept(self, g: Seq<Seq<T>>, stack: Seq<(usize, usize)>, scan: Scan) -> bool {
        forall|r: int, c: int|
            self.inside(r, c) ==> #[trigger] self.cell_kept(g, stack, scan, r, c)
    }

    /// Before the first step: nothing is recoloured and the seed is on the
    /// stack.
    proof fn lemma_start(self, stack: Seq<(usize, usize)>)
        requires
            self.valid(),
            stack.len() == 1,
            stack[0].0 == self.seed.0,
            stack[0].1 == self.seed.1,
        ensures
            self.sound(self.before),
            self.stack_ok(stack),
            self.kept(self.before, stack, idle()),
    {
        lemma_seed_in_region(self.before, self.seed);
        assert forall|r: int, c: int| self.inside(r, c) implies #[trigger] self.cell_kept(
            self.before,
            stack,
            idle(),
            r,
            c,
        ) by {
            if self.before[r][c] == self.old_e && self.wanted(self.before, r, c) {
                assert(covers(self.before, self.old_e, stack[0], r, c));
            }
        }
    }

    /// A cell that holds the old value is as it was.
    proof fn lemma_old_value_is_untouched(self, g: Seq<Seq<T>>, r: int, c: int)
        requires
            self.valid(),
            self.sound(g),
            self.inside(r, c),
            g[r][c] == self.old_e,
        ensures
            self.before[r][c] == self.old_e,
            holds(self.before, (r, c), self.before[self.seed.0][self.seed.1]),
    {
        assert(self.cell_sound(g, r, c));
        assert(self.before[r].len() == self.cols);
    }

    /// The entry taken off the stack, with the walk to the left done: the
    /// scan that starts at `x1` comes by everything the entry covered.
    proof fn lemma_begin_scan(
        self,
        g: Seq<Seq<T>>,
        stack: Seq<(usize, usize)>,
        y: int,
        x: int,
        x1: int,
    )
        requires
            self.valid(),
            self.sound(g),
            self.kept(g, stack, idle()),
            stack.len() > 0,
            stack.last().0 == y,
            stack.last().1 == x,
            self.inside(y, x),
            0 <= x1 <= x,
            run(g, self.old_e, y, x1, x - 1),
            x1 == 0 || g[y][x1 - 1] != self.old_e,
        ensures
            self.kept(
                g,
                stack.drop_last(),
                Scan { row: y, front: x1, skip_above: false, skip_below: false, col: 0 },
            ),
    {
        let rest = stack.drop_last();
        let scan = Scan { row: y, front: x1, skip_above: false, skip_below: false, col: 0 };
        assert forall|r: int, c: int| self.inside(r, c) implies #[trigger] self.cell_kept(
            g,
            rest,
            scan,
            r,
            c,
        ) by {
            if g[r][c] == self.old_e && self.wanted(g, r, c) {
                assert(self.cell_kept(g, stack, idle(), r, c));
                let k = choose|k: int|
                    0 <= k < stack.len() && #[trigger] covers(g, self.old_e, stack[k], r, c);
                if k < stack.len() - 1 {
                    assert(rest[k] == stack[k]);
                    assert(covers(g, self.old_e, rest[k], r, c));
                } else {
                    assert(stack[k] == stack.last());
                    if c < x1 {
                        assert(g[y][x1 - 1] == self.old_e);
                    }
                    assert(run(g, self.old_e, y, x1, c));
                }
            }
        }
    }

    /// One cell of the scanned row is recoloured: the scan moves on by one
    /// column, and the cells above and below wait for their turn.
    proof fn lemma_fill_cell(
        self,
        g: Seq<Seq<T>>,
        g2: Seq<Seq<T>>,
        stack: Seq<(usize, usize)>,
        y: int,
        x1: int,
        c: int,
        last: int,
    )
        requires
            self.valid(),
            self.sound(g),
            self.inside(y, c),
            0 <= x1 <= c,
            g[y][c] == self.old_e,
            in_region(self.before, self.seed, (y, c)),
            forall|x: int| x1 <= x < c ==> #[trigger] g[y][x] != self.old_e,
            x1 == 0 || g[y][x1 - 1] != self.old_e,
            self.stack_ok(stack),
            self.kept(
                g,
                stack,
                Scan { row: y, front: c, skip_above: false, skip_below: false, col: last },
            ),
            g2 == set_cell(g, y, c, self.new_e),
        ensures
            self.sound(g2),
            self.kept(
                g2,
                stack,
                Scan { row: y, front: c + 1, skip_above: true, skip_below: true, col: c },
            ),
            forall|x: int| x1 <= x < c + 1 ==> #[trigger] g2[y][x] != self.old_e,
            x1 == 0 || g2[y][x1 - 1] != self.old_e,
            c + 1 < self.cols && g2[y][c + 1] == self.old_e ==> in_region(
                self.before,
                self.seed,
                (y, c + 1),
            ),
            grid_count(g2, self.old_e) + 1 == grid_count(g, self.old_e),
    {
        let scan = Scan { row: y, front: c, skip_above: false, skip_below: false, col: last };
        let scan2 = Scan { row: y, front: c + 1, skip_above: true, skip_below: true, col: c };
        lemma_count_after_write(g, y, c, self.new_e, self.old_e);
        assert(g[y].len() == self.cols);
        assert forall|r: int| 0 <= r < self.rows implies (#[trigger] g2[r]).len()
            == self.cols by {
            assert(g[r].len() == self.cols);
        }
        assert forall|r: int, d: int| self.inside(r, d) implies #[trigger] self.cell_sound(
            g2,
            r,
            d,
        ) by {
            assert(self.cell_sound(g, r, d));
        }
        if c + 1 < self.cols && g2[y][c + 1] == self.old_e {
            self.lemma_old_value_is_untouched(g, y, c + 1);
            lemma_region_grows(self.before, self.seed, (y, c), (y, c + 1));
        }
        self.lemma_old_value_is_untouched(g, y, c);
        assert forall|r: int, d: int| self.inside(r, d) implies #[trigger] self.cell_kept(
            g2,
            stack,
            scan2,
            r,
            d,
        ) by {
            if g2[r][d] == self.old_e && self.wanted(g2, r, d) {
                assert(g[r].len() == self.cols);
                assert(!(r == y && d == c));
                assert(g[r][d] == self.old_e);
                if self.wanted(g, r, d) {
                    assert(self.cell_kept(g, stack, scan, r, d));
                    if covered(g, self.old_e, stack, r, d) {
                        let k = choose|k: int|
                            0 <= k < stack.len() && #[trigger] covers(
                                g,
                                self.old_e,
                                stack[k],
                                r,
                                d,
                            );
                        self.lemma_cover_after_write(g, g2, stack[k], y, x1, c, r, d);
                    } else {
                        assert(self.ahead(g, scan, r, d));
                        assert(run(g2, self.old_e, y, c + 1, d));
                    }
                } else {
                    // the only new reason is the cell just recoloured
                    assert(!self.changed(g, y, c));
                    if r == y && d == c + 1 {
                        assert(run(g2, self.old_e, y, c + 1, d));
                    } else if r == y && d == c - 1 {
                        assert(g[y][c - 1] != self.old_e);
                    }
                }
            }
        }
    }

    /// What a stack entry covered before a cell of the scanned row was
    /// recoloured, it covers afterwards, or the scan is about to come by.
    proof fn lemma_cover_after_write(
        self,
        g: Seq<Seq<T>>,
        g2: Seq<Seq<T>>,
        s: (usize, usize),
        y: int,
        x1: int,
        c: int,
        r: int,
        d: int,
    )
        requires
            self.valid(),
            self.sound(g),
            self.inside(y, c),
            self.inside(r, d),
            0 <= x1 <= c,
            forall|x: int| x1 <= x < c ==> #[trigger] g[y][x] != self.old_e,
            x1 == 0 || g[y][x1 - 1] != self.old_e,
            g2 == set_cell(g, y, c, self.new_e),
            !(r == y && d == c),
            self.entry_ok(s),
            covers(g, self.old_e, s, r, d),
        ensures
            covers(g2, self.old_e, s, r, d) || (r == y && c + 1 <= d && run(
                g2,
                self.old_e,
                y,
                c + 1,
                d,
            )),
    {
        assert(g[y].len() == self.cols);
        let lo = if s.1 <= d {
            s.1 as int
        } else {
            d
        };
        let hi = if s.1 <= d {
            d
        } else {
            s.1 as int
        };
        assert(run(g, self.old_e, r, lo, hi));
        if r != y {
            assert(g2[r] == g[r]);
            assert(run(g2, self.old_e, r, lo, hi));
        } else if c < lo || hi < c {
            assert forall|x: int| lo <= x <= hi implies #[trigger] g2[r][x] == self.old_e by {
                assert(g[r][x] == self.old_e);
            }
        } else {
            assert(g[y][d] == self.old_e);
            if d < c {
                if c - 1 >= x1 {
                    assert(g[y][c - 1] != self.old_e);
                    assert(g[y][c - 1] == self.old_e);
                } else {
                    assert(g[y][x1 - 1] == self.old_e);
                }
            }
            assert forall|x: int| c + 1 <= x <= d implies #[trigger] g2[y][x] == self.old_e by {
                assert(g[y][x] == self.old_e);
            }
        }
    }

    /// The cell next to the one just recoloured, in the row above (`dr` is
    /// -1) or below (`dr` is 1), has had its turn: it went onto the stack
    /// unless the span that runs there already covers it.
    proof fn lemma_span_step(
        self,
        g: Seq<Seq<T>>,
        stack: Seq<(usize, usize)>,
        stack2: Seq<(usize, usize)>,
        scan: Scan,
        scan2: Scan,
        dr: int,
        span: bool,
        span2: bool,
    )
        requires
            self.valid(),
            self.sound(g),
            self.stack_ok(stack),
            self.kept(g, stack, scan),
            self.inside(scan.row, scan.col),
            in_region(self.before, self.seed, (scan.row, scan.col)),
            dr == -1 || dr == 1,
            dr == -1 ==> scan.skip_above && scan2 == (Scan { skip_above: false, ..scan }),
            dr == 1 ==> scan.skip_below && scan2 == (Scan { skip_below: false, ..scan }),
            span ==> self.inside(scan.row + dr, scan.col) && scan.col >= 1 && covered(
                g,
                self.old_e,
                stack,
                scan.row + dr,
                scan.col - 1,
            ),
            ({
                let pending = self.inside(scan.row + dr, scan.col) && g[scan.row + dr][scan.col]
                    == self.old_e;
                if !span && pending {
                    span2 && stack2 == stack.push(((scan.row + dr) as usize, scan.col as usize))
                } else if span && !pending {
                    !span2 && stack2 == stack
                } else {
                    span2 == span && stack2 == stack
                }
            }),
        ensures
            self.stack_ok(stack2),
            self.kept(g, stack2, scan2),
            span2 ==> self.inside(scan.row + dr, scan.col) && covered(
                g,
                self.old_e,
                stack2,
                scan.row + dr,
                scan.col,
            ),
            forall|r: int, d: int|
                covered(g, self.old_e, stack, r, d) ==> #[trigger] covered(
                    g,
                    self.old_e,
                    stack2,
                    r,
                    d,
                ),
    {
        let n = scan.row + dr;
        let c = scan.col;
        let pending = self.inside(n, c) && g[n][c] == self.old_e;
        assert forall|r: int, d: int| covered(g, self.old_e, stack, r, d) implies #[trigger] covered(
            g,
            self.old_e,
            stack2,
            r,
            d,
        ) by {
            let k = choose|k: int|
                0 <= k < stack.len() && #[trigger] covers(g, self.old_e, stack[k], r, d);
            assert(stack2[k] == stack[k]);
            assert(covers(g, self.old_e, stack2[k], r, d));
        }
        if pending {
            self.lemma_old_value_is_untouched(g, n, c);
            lemma_region_grows(self.before, self.seed, (scan.row, c), (n, c));
            if span {
                let k = choose|k: int|
                    0 <= k < stack.len() && #[trigger] covers(g, self.old_e, stack[k], n, c - 1);
                assert(covers(g, self.old_e, stack[k], n, c)) by {
                    if stack[k].1 <= c - 1 {
                        assert(run(g, self.old_e, n, stack[k].1 as int, c - 1));
                        assert(run(g, self.old_e, n, stack[k].1 as int, c));
                    }
                }
                assert(covered(g, self.old_e, stack2, n, c));
            } else {
                let k = stack.len() as int;
                assert(stack2[k] == (n as usize, c as usize));
                assert(covers(g, self.old_e, stack2[k], n, c));
                assert(covered(g, self.old_e, stack2, n, c));
            }
        }
        assert forall|k: int| 0 <= k < stack2.len() implies self.entry_ok(
            #[trigger] stack2[k],
        ) by {
            if k < stack.len() {
                assert(stack2[k] == stack[k]);
            }
        }
        assert forall|r: int, d: int| self.inside(r, d) implies #[trigger] self.cell_kept(
            g,
            stack2,
            scan2,
            r,
            d,
        ) by {
            if g[r][d] == self.old_e && self.wanted(g, r, d) {
                assert(self.cell_kept(g, stack, scan, r, d));
                if covered(g, self.old_e, stack, r, d) {
                    assert(covered(g, self.old_e, stack2, r, d));
                }
            }
        }
    }

    /// The scan of a row has stopped: at the edge of the grid, or at a cell
    /// that does not hold the old value.
    proof fn lemma_end_scan(
        self,
        g: Seq<Seq<T>>,
        stack: Seq<(usize, usize)>,
        y: int,
        c: int,
        last: int,
    )
        requires
            self.valid(),
            self.sound(g),
            0 <= y < self.rows,
            0 <= c <= self.cols,
            c == self.cols || g[y][c] != self.old_e,
            self.kept(
                g,
                stack,
                Scan { row: y, front: c, skip_above: false, skip_below: false, col: last },
            ),
        ensures
            self.kept(g, stack, idle()),
    {
        let scan = Scan { row: y, front: c, skip_above: false, skip_below: false, col: last };
        assert forall|r: int, d: int| self.inside(r, d) implies #[trigger] self.cell_kept(
            g,
            stack,
            idle(),
            r,
            d,
        ) by {
            if g[r][d] == self.old_e && self.wanted(g, r, d) {
                assert(self.cell_kept(g, stack, scan, r, d));
                if self.ahead(g, scan, r, d) {
                    assert(g[y][c] == self.old_e);
                }
            }
        }
    }

    /// With the stack empty, every cell along a walk from the seed has been
    /// recoloured.
    proof fn lemma_walk_filled(self, g: Seq<Seq<T>>, path: Seq<(int, int)>, k: int)
        requires
            self.valid(),
            self.sound(g),
            self.kept(g, Seq::<(usize, usize)>::empty(), idle()),
            is_path(self.before, self.old_e, path),
            path[0] == self.seed,
            0 <= k < path.len(),
        ensures
            g[path[k].0][path[k].1] == self.new_e,
        decreases k,
    {
        let stack = Seq::<(usize, usize)>::empty();
        let p = path[k];
        assert(holds(self.before, p, self.old_e));
        assert(self.before[p.0].len() == self.cols);
        assert(self.inside(p.0, p.1));
        assert(self.cell_sound(g, p.0, p.1));
        assert(self.cell_kept(g, stack, idle(), p.0, p.1));
        if k > 0 {
            self.lemma_walk_filled(g, path, k - 1);
            let q = path[k - 1];
            assert(holds(self.before, q, self.old_e));
            assert(self.before[q.0].len() == self.cols);
            assert(linked(path, k - 1));
            assert(adjacent(q, p));
            assert(self.changed(g, q.0, q.1));
            assert(self.wanted(g, p.0, p.1));
        }
    }

    /// With the stack empty, the grid is the filled grid.
    proof fn lemma_done(self, g: Seq<Seq<T>>)
        requires
            self.valid(),
            self.sound(g),
            self.kept(g, Seq::<(usize, usize)>::empty(), idle()),
        ensures
            g == flood_filled(self.before, self.seed, self.new_e),
    {
        let f = flood_filled(self.before, self.seed, self.new_e);
        assert forall|r: int| 0 <= r < self.rows implies #[trigger] g[r] =~= f[r] by {
            assert(self.before[r].len() == self.cols);
            assert forall|c: int| 0 <= c < self.cols implies g[r][c] == f[r][c] by {
                assert(self.cell_sound(g, r, c));
                if in_region(self.before, self.seed, (r, c)) {
                    let path = choose|path: Seq<(int, int)>| #[trigger]
                        is_path(self.before, self.old_e, path) && path[0]
                            == self.seed && path.last() == (r, c);
                    self.lemma_walk_filled(g, path, path.len() - 1);
                }
            }
        }
        assert(g =~= f);
    }
}

/// Recolours the region of cell `(i, j)`: every cell that a walk from
/// `(i, j)` reaches, going from cell to edge-sharing cell over cells that hold
/// the value of `(i, j)`, gets `new_e`. No other cell changes.
///
/// Rows are scanned one stretch at a time from an explicit stack, so the
/// depth of the call stack does not grow with the region.
pub fn flood_fill<T: Eq + Clone, G: CellGrid<T>>(grid: &mut G, i: usize, j: usize, new_e: T)
    requires
        old(grid).grid_wf(),
        in_grid(old(grid).cells(), (i as int, j as int)),
        obeys_concrete_eq::<T>(),
        clone_keeps_value::<T>(),
    ensures
        final(grid).grid_wf(),
        final(grid).cells() == flood_filled(old(grid).cells(), (i as int, j as int), new_e),
{
    proof {
        reveal(obeys_concrete_eq);
    }
    let rows = grid.n_rows();
    let cols = grid.n_cols();
    let old_e = grid.read(i, j).clone();
    assert(cloned(grid.cells()[i as int][j as int], old_e));
    let ghost job = Job {
        before: grid.cells(),
        rows: rows as int,
        cols: cols as int,
        seed: (i as int, j as int),
        old_e,
        new_e,
    };
    if old_e == new_e {
        proof {
            lemma_fill_with_same_value(job.before, job.seed, new_e);
        }
        return ;
    }
    let mut stack: VecDeque<(usize, usize)> = VecDeque::new();
    stack.push_back((i, j));
    proof {
        job.lemma_start(stack@);
    }
    loop
        invariant
            obeys_concrete_eq::<T>(),
            clone_keeps_value::<T>(),
            grid.grid_wf(),
            job.valid(),
            job.rows == rows,
            job.cols == cols,
            job.old_e == old_e,
            job.new_e == new_e,
            job.sound(grid.cells()),
            job.stack_ok(stack@),
            job.kept(grid.cells(), stack@, idle()),
        ensures
            stack@.len() == 0,
        decreases grid_count(grid.cells(), old_e), stack@.len(),
    {
        let ghost stack_before = stack@;
        let ghost g_before = grid.cells();
        let top = stack.pop_back();
        if top.is_none() {
            break ;
        }
        let (y, x) = top.unwrap();
        assert(stack@ =~= stack_before.drop_last());
        assert(job.entry_ok(stack_before[stack_before.len() - 1]));
        assert forall|k: int| 0 <= k < stack@.len() implies job.entry_ok(#[trigger] stack@[k]) by {
            assert(stack@[k] == stack_before[k]);
        }

        let mut x1 = x;
        while x1 > 0 && *grid.read(y, x1 - 1) == old_e
            invariant
                obeys_concrete_eq::<T>(),
                grid.grid_wf(),
                grid.cells() == g_before,
                job.valid(),
                job.rows == rows,
                job.cols == cols,
                job.old_e == old_e,
                job.sound(g_before),
                y < rows,
                x < cols,
                x1 <= x,
                run(g_before, old_e, y as int, x1 as int, x - 1),
                in_region(job.before, job.seed, (y as int, x1 as int)),
            decreases x1,
        {
            proof {
                reveal(obeys_concrete_eq);
                job.lemma_old_value_is_untouched(g_before, y as int, x1 - 1);
                lemma_region_grows(
                    job.before,
                    job.seed,
                    (y as int, x1 as int),
                    (y as int, x1 - 1),
                );
            }
            x1 -= 1;
        }
        proof {
            reveal(obeys_concrete_eq);
            job.lemma_begin_scan(g_before, stack_before, y as int, x as int, x1 as int);
        }

        let ghost left = x1;
        let ghost mut last: int = 0;
        let mut span_above = false;
        let mut span_below = false;
        while x1 < cols && *grid.read(y, x1) == old_e
            invariant
                obeys_concrete_eq::<T>(),
                clone_keeps_value::<T>(),
                grid.grid_wf(),
                job.valid(),
                job.rows == rows,
                job.cols == cols,
                job.old_e == old_e,
                job.new_e == new_e,
                job.sound(grid.cells()),
                job.stack_ok(stack@),
                y < rows,
                left <= x1 <= cols,
                forall|c: int| left <= c < x1 ==> #[trigger] grid.cells()[y as int][c] != old_e,
                left == 0 || grid.cells()[y as int][left - 1] != old_e,
                x1 < cols && grid.cells()[y as int][x1 as int] == old_e ==> in_region(
                    job.before,
                    job.seed,
                    (y as int, x1 as int),
                ),
                job.kept(
                    grid.cells(),
                    stack@,
                    Scan {
                        row: y as int,
                        front: x1 as int,
                        skip_above: false,
                        skip_below: false,
                        col: last,
                    },
                ),
                span_above ==> y >= 1 && x1 >= 1 && covered(
                    grid.cells(),
                    old_e,
                    stack@,
                    y - 1,
                    x1 - 1,
                ),
                span_below ==> y + 1 < rows && x1 >= 1 && covered(
                    grid.cells(),
                    old_e,
                    stack@,
                    y + 1,
                    x1 - 1,
                ),
                grid_count(grid.cells(), old_e) + (x1 - left) == grid_count(g_before, old_e),
                x1 == left ==> stack@ == stack_before.drop_last(),
            decreases cols - x1,
        {
            let ghost g = grid.cells();
            let ghost stack0 = stack@;
            let fill = new_e.clone();
            assert(cloned(new_e, fill));
            grid.write(y, x1, fill);
            let ghost g2 = grid.cells();
            let ghost scan0 = Scan {
                row: y as int,
                front: x1 + 1,
                skip_above: true,
                skip_below: true,
                col: x1 as int,
            };
            let ghost scan1 = Scan { skip_above: false, ..scan0 };
            let ghost scan2 = Scan { skip_below: false, ..scan1 };
            proof {
                reveal(obeys_concrete_eq);
                job.lemma_fill_cell(g, g2, stack0, y as int, left as int, x1 as int, last);
                if span_above {
                    lemma_covered_other_row(g, old_e, stack0, y as int, x1 as int, new_e, y - 1, x1 - 1);
                }
                if span_below {
                    lemma_covered_other_row(g, old_e, stack0, y as int, x1 as int, new_e, y + 1, x1 - 1);
                }
            }

            let ghost was_above = span_above;
            if !span_above && y > 0 && *grid.read(y - 1, x1) == old_e {
                stack.push_back((y - 1, x1));
                span_above = true;
            } else if span_above && y > 0 && *grid.read(y - 1, x1) != old_e {
                span_above = false;
            }
            let ghost stack1 = stack@;
            proof {
                job.lemma_span_step(g2, stack0, stack1, scan0, scan1, -1, was_above, span_above);
            }

            let ghost was_below = span_below;
            if !span_below && y < rows - 1 && *grid.read(y + 1, x1) == old_e {
                stack.push_back((y + 1, x1));
                span_below = true;
            } else if span_below && y < rows - 1 && *grid.read(y + 1, x1) != old_e {
                span_below = false;
            }
            proof {
                job.lemma_span_step(g2, stack1, stack@, scan1, scan2, 1, was_below, span_below);
                last = x1 as int;
            }
            x1 += 1;
        }
        proof {
            reveal(obeys_concrete_eq);
            job.lemma_end_scan(grid.cells(), stack@, y as int, x1 as int, last);
        }
    }
    proof {
        assert(stack@ =~= Seq::<(usize, usize)>::empty());
        job.lemma_done(grid.cells());
    }
}

} // verus!
