use crate::color::Color;
use crate::document::{Document, Picture};
use crate::fill::flood_fill;
use crate::position::Position;
use crate::region::{
    adjacent, connected, flood_filled, grid_count, holds, is_path, lemma_connected_from_neighbour,
    lemma_connected_grows, lemma_connected_in_larger, lemma_connected_self, lemma_connected_value,
    lemma_count_after_write, lemma_grid_count_monotone, lemma_recolored_from_elsewhere, linked,
    recolored, rectangular, set_cell,
};
use vstd::laws_eq::obeys_concrete_eq;
use vstd::prelude::*;

verus! {

/// One visit of the depth-first fill: the grid as the visit found it, its
/// size, the value that is replaced, the value that replaces it, and the
/// cell that the visit recolours itself.
struct Visit<T> {
    g: Seq<Seq<T>>,
    rows: int,
    cols: int,
    v: T,
    w: T,
    p: (int, int),
}

impl<T> Visit<T> {
    spec fn valid(self) -> bool {
        &&& rectangular(self.g, self.rows, self.cols)
        &&& self.inside(self.p.0, self.p.1)
        &&& self.g[self.p.0][self.p.1] == self.v
        &&& self.v != self.w
    }

    spec fn inside(self, r: int, c: int) -> bool {
        0 <= r < self.rows && 0 <= c < self.cols
    }

    /// Cell `(r, c)` needs no more work: it is no cell that held the old
    /// value, or it has been recoloured.
    spec fn done(self, h: Seq<Seq<T>>, r: int, c: int) -> bool {
        self.inside(r, c) && self.g[r][c] == self.v ==> h[r][c] == self.w
    }

    /// All four neighbours of `(r, c)` need no more work.
    spec fn closed_at(self, h: Seq<Seq<T>>, r: int, c: int) -> bool {
        &&& self.done(h, r - 1, c)
        &&& self.done(h, r + 1, c)
        &&& self.done(h, r, c - 1)
        &&& self.done(h, r, c + 1)
    }

    /// A cell is as the visit found it or was recoloured from the old
    /// value; a recoloured cell can be reached from the visit's cell; and
    /// round a recoloured cell, but for the visit's own, nothing is left to
    /// do.
    spec fn cell_inv(self, h: Seq<Seq<T>>, r: int, c: int) -> bool {
        &&& h[r][c] == self.g[r][c] || (self.g[r][c] == self.v && h[r][c] == self.w)
        &&& h[r][c] != self.g[r][c] ==> connected(self.g, self.v, self.p, (r, c))
        &&& h[r][c] != self.g[r][c] && (r, c) != self.p ==> self.closed_at(h, r, c)
    }

    spec fn inv(self, h: Seq<Seq<T>>) -> bool {
        &&& rectangular(h, self.rows, self.cols)
        &&& h[self.p.0][self.p.1] == self.w
        &&& forall|r: int, c: int| self.inside(r, c) ==> #[trigger] self.cell_inv(h, r, c)
    }

    /// The visit's own cell has been recoloured, and nothing else yet.
    proof fn lemma_first(self, h: Seq<Seq<T>>)
        requires
            self.valid(),
            h == set_cell(self.g, self.p.0, self.p.1, self.w),
        ensures
            self.inv(h),
            grid_count(h, self.v) < grid_count(self.g, self.v),
    {
        assert(self.g[self.p.0].len() == self.cols);
        lemma_count_after_write(self.g, self.p.0, self.p.1, self.w, self.v);
        lemma_connected_self(self.g, self.v, self.p);
        assert forall|r: int| 0 <= r < self.rows implies (#[trigger] h[r]).len() == self.cols by {
            assert(self.g[r].len() == self.cols);
        }
        assert forall|r: int, c: int| self.inside(r, c) implies #[trigger] self.cell_inv(
            h,
            r,
            c,
        ) by {
            assert(self.g[r].len() == self.cols);
        }
    }

    /// What holds the old value in `h` held it when the visit began.
    proof fn lemma_old_cells(self, h: Seq<Seq<T>>)
        requires
            self.valid(),
            self.inv(h),
        ensures
            forall|x: (int, int)| holds(h, x, self.v) ==> #[trigger] holds(self.g, x, self.v),
    {
        assert forall|x: (int, int)| holds(h, x, self.v) implies #[trigger] holds(
            self.g,
            x,
            self.v,
        ) by {
            assert(h[x.0].len() == self.cols);
            assert(self.g[x.0].len() == self.cols);
            assert(self.cell_inv(h, x.0, x.1));
        }
    }

    /// The fill from a neighbour `n` of the visit's cell has been made.
    proof fn lemma_next(self, h: Seq<Seq<T>>, h2: Seq<Seq<T>>, n: (int, int))
        requires
            self.valid(),
            self.inv(h),
            adjacent(self.p, n),
            h2 == recolored(h, self.v, n, self.w),
        ensures
            self.inv(h2),
            self.done(h2, n.0, n.1),
            forall|r: int, c: int| self.done(h, r, c) ==> #[trigger] self.done(h2, r, c),
            grid_count(h2, self.v) <= grid_count(h, self.v),
    {
        self.lemma_old_cells(h);
        assert forall|r: int| 0 <= r < self.rows implies (#[trigger] h2[r]).len() == self.cols by {
            assert(h[r].len() == self.cols);
        }
        // a cell that the fill reaches held the old value and holds the new
        assert forall|r: int, c: int|
            self.inside(r, c) && connected(h, self.v, n, (r, c)) implies h[r][c] == self.v
            && self.g[r][c] == self.v && #[trigger] h2[r][c] == self.w by {
            lemma_connected_value(h, self.v, n, (r, c));
            assert(h[r].len() == self.cols);
            assert(holds(self.g, (r, c), self.v));
        }
        assert forall|r: int, c: int|
            self.inside(r, c) && !connected(h, self.v, n, (r, c)) implies #[trigger] h2[r][c]
            == h[r][c] by {
            assert(h[r].len() == self.cols);
        }
        assert forall|r: int, c: int| self.done(h, r, c) implies #[trigger] self.done(h2, r, c) by {
            if self.inside(r, c) && self.g[r][c] == self.v {
                if connected(h, self.v, n, (r, c)) {
                    assert(h2[r][c] == self.w);
                } else {
                    assert(h2[r][c] == h[r][c]);
                }
            }
        }
        assert(self.done(h2, n.0, n.1)) by {
            if self.inside(n.0, n.1) && self.g[n.0][n.1] == self.v {
                assert(self.cell_inv(h, n.0, n.1));
                if h[n.0][n.1] == self.v {
                    assert(h[n.0].len() == self.cols);
                    lemma_connected_self(h, self.v, n);
                    assert(h2[n.0][n.1] == self.w);
                } else {
                    assert(self.done(h, n.0, n.1));
                }
            }
        }
        assert(h2[self.p.0][self.p.1] == self.w) by {
            if connected(h, self.v, n, self.p) {
                lemma_connected_value(h, self.v, n, self.p);
            }
            assert(h2[self.p.0][self.p.1] == h[self.p.0][self.p.1]);
        }
        assert forall|r: int, c: int| self.inside(r, c) implies #[trigger] self.cell_inv(
            h2,
            r,
            c,
        ) by {
            assert(self.cell_inv(h, r, c));
            let reached = connected(h, self.v, n, (r, c));
            if reached {
                assert(h2[r][c] == self.w);
                lemma_connected_in_larger(h, self.g, self.v, n, (r, c));
                lemma_connected_from_neighbour(self.g, self.v, self.p, n, (r, c));
            } else {
                assert(h2[r][c] == h[r][c]);
            }
            if h2[r][c] != self.g[r][c] && (r, c) != self.p {
                self.lemma_closed(h, h2, n, r - 1, c, r, c);
                self.lemma_closed(h, h2, n, r + 1, c, r, c);
                self.lemma_closed(h, h2, n, r, c - 1, r, c);
                self.lemma_closed(h, h2, n, r, c + 1, r, c);
            }
        }
        assert forall|r: int, c: int|
            0 <= r < h.len() && 0 <= c < h[r].len() && #[trigger] h2[r][c] == self.v implies h[r][c]
            == self.v by {
            assert(h[r].len() == self.cols);
            if connected(h, self.v, n, (r, c)) {
                assert(h2[r][c] == self.w);
            } else {
                assert(h2[r][c] == h[r][c]);
            }
        }
        lemma_grid_count_monotone(h, h2, self.v);
    }

    /// After the fill from `n`, the neighbour `(yr, yc)` of a recoloured
    /// cell `(r, c)` needs no more work.
    proof fn lemma_closed(
        self,
        h: Seq<Seq<T>>,
        h2: Seq<Seq<T>>,
        n: (int, int),
        yr: int,
        yc: int,
        r: int,
        c: int,
    )
        requires
            self.valid(),
            self.inv(h),
            h2 == recolored(h, self.v, n, self.w),
            self.inside(r, c),
            (r, c) != self.p,
            h2[r][c] != self.g[r][c],
            adjacent((r, c), (yr, yc)),
        ensures
            self.done(h2, yr, yc),
    {
        if self.inside(yr, yc) && self.g[yr][yc] == self.v {
            assert(h[r].len() == self.cols);
            assert(h[yr].len() == self.cols);
            assert(self.cell_inv(h, r, c));
            assert(self.cell_inv(h, yr, yc));
            if h[yr][yc] == self.w {
                if connected(h, self.v, n, (yr, yc)) {
                    lemma_connected_value(h, self.v, n, (yr, yc));
                }
                assert(h2[yr][yc] == h[yr][yc]);
            } else {
                assert(h[yr][yc] == self.v);
                if h[r][c] != self.g[r][c] {
                    assert(self.closed_at(h, r, c));
                    assert(self.done(h, yr, yc));
                } else {
                    assert(connected(h, self.v, n, (r, c)));
                    lemma_connected_grows(h, self.v, n, (r, c), (yr, yc));
                    assert(h2[yr][yc] == self.w);
                }
            }
        }
    }

    /// With nothing left to do round any recoloured cell, every cell along
    /// a walk from the visit's cell has been recoloured.
    proof fn lemma_walk(self, h: Seq<Seq<T>>, path: Seq<(int, int)>, k: int)
        requires
            self.valid(),
            self.inv(h),
            self.closed_at(h, self.p.0, self.p.1),
            is_path(self.g, self.v, path),
            path[0] == self.p,
            0 <= k < path.len(),
        ensures
            h[path[k].0][path[k].1] == self.w,
        decreases k,
    {
        if k > 0 {
            self.lemma_walk(h, path, k - 1);
            let q = path[k - 1];
            let x = path[k];
            assert(holds(self.g, q, self.v));
            assert(holds(self.g, x, self.v));
            assert(self.g[q.0].len() == self.cols);
            assert(self.g[x.0].len() == self.cols);
            assert(linked(path, k - 1));
            assert(self.cell_inv(h, q.0, q.1));
            assert(self.closed_at(h, q.0, q.1));
            assert(self.done(h, x.0, x.1));
        }
    }

    /// With the four neighbours of the visit's cell done, the grid is the
    /// one that the visit was to make.
    proof fn lemma_last(self, h: Seq<Seq<T>>)
        requires
            self.valid(),
            self.inv(h),
            self.closed_at(h, self.p.0, self.p.1),
        ensures
            h == recolored(self.g, self.v, self.p, self.w),
    {
        let f = recolored(self.g, self.v, self.p, self.w);
        assert forall|r: int| 0 <= r < self.rows implies #[trigger] h[r] =~= f[r] by {
            assert(self.g[r].len() == self.cols);
            assert forall|c: int| 0 <= c < self.cols implies h[r][c] == f[r][c] by {
                assert(self.cell_inv(h, r, c));
                if connected(self.g, self.v, self.p, (r, c)) {
                    let path = choose|path: Seq<(int, int)>| #[trigger]
                        is_path(self.g, self.v, path) && path[0] == self.p && path.last() == (
                            r,
                            c,
                        );
                    self.lemma_walk(h, path, path.len() - 1);
                }
            }
        }
        assert(h =~= f);
    }
}

/// Recolours, cell by cell and neighbour by neighbour, every pixel that a
/// walk from row `i`, column `j` reaches over edge-sharing pixels of
/// `start_color`. Where `(i, j)` is no pixel of the document, or does not
/// have `start_color`, or `start_color` is `color`, nothing changes.
///
/// Each pixel of the region costs one nested call; `fill_color` does the
/// same work at constant depth.
pub fn fill_color_dfs(doc: &mut Document, i: i32, j: i32, start_color: Color, color: Color)
    requires
        old(doc).wf(),
        old(doc).width() <= i32::MAX,
        old(doc).height() <= i32::MAX,
    ensures
        final(doc).wf(),
        final(doc)@ == (Picture {
            pixels: if start_color == color {
                old(doc)@.pixels
            } else {
                recolored(old(doc)@.pixels, start_color, (i as int, j as int), color)
            },
            ..old(doc)@
        }),
    decreases grid_count(old(doc)@.pixels, start_color),
{
    let ghost g = doc@.pixels;
    let ghost p = (i as int, j as int);
    if i < 0 || j < 0 || (i as usize) >= doc.height() || (j as usize) >= doc.width() {
        proof {
            lemma_recolored_from_elsewhere(g, start_color, p, color);
        }
        return ;
    }
    let cur = *doc.at(j as usize, i as usize);
    if cur != start_color || cur == color {
        proof {
            if start_color != color {
                lemma_recolored_from_elsewhere(g, start_color, p, color);
            }
        }
        return ;
    }
    let ghost visit = Visit {
        g,
        rows: doc.height() as int,
        cols: doc.width() as int,
        v: start_color,
        w: color,
        p,
    };
    *doc.at_mut(j as usize, i as usize) = color;
    let ghost h1 = doc@.pixels;
    proof {
        visit.lemma_first(h1);
    }
    fill_color_dfs(doc, i - 1, j, start_color, color);
    let ghost h2 = doc@.pixels;
    proof {
        visit.lemma_next(h1, h2, (i - 1, j as int));
    }
    fill_color_dfs(doc, i + 1, j, start_color, color);
    let ghost h3 = doc@.pixels;
    proof {
        visit.lemma_next(h2, h3, (i + 1, j as int));
    }
    fill_color_dfs(doc, i, j - 1, start_color, color);
    let ghost h4 = doc@.pixels;
    proof {
        visit.lemma_next(h3, h4, (i as int, j - 1));
    }
    fill_color_dfs(doc, i, j + 1, start_color, color);
    let ghost h5 = doc@.pixels;
    proof {
        visit.lemma_next(h4, h5, (i as int, j + 1));
        visit.lemma_last(h5);
    }
}

/// Fills the region of the pixel at `pos` with `color`: the pixels that a
/// walk from `pos` reaches over edge-sharing pixels of the colour that `pos`
/// has. Every other pixel stays as it was.
pub fn fill_color(doc: &mut Document, pos: Position, color: Color)
    requires
        old(doc).wf(),
        0 <= pos.x < old(doc).width(),
        0 <= pos.y < old(doc).height(),
    ensures
        final(doc).wf(),
        final(doc)@ == (Picture {
            pixels: flood_filled(old(doc)@.pixels, (pos.y as int, pos.x as int), color),
            ..old(doc)@
        }),
{
    let i = pos.y as usize;
    let j = pos.x as usize;
    proof {
        reveal(obeys_concrete_eq);
    }
    flood_fill(doc, i, j, color);
    proof {
        assert(doc@.pixels.len() == old(doc)@.pixels.len());
        assert(doc@.pixels[0].len() == old(doc)@.pixels[0].len());
    }
}

} // verus!
